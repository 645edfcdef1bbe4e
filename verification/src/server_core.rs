//! The fan-out server's startup decisions, away from the filesystem and
//! the signals that carry them out.
//!
//! On startup the server looks for a pid file beside its socket. A file
//! holding a decimal process id means an earlier server may still own the
//! socket: that owner is signalled to terminate, and startup proceeds
//! only when the signal was delivered or the process is already gone. A
//! file holding anything else is ignored. The caller reads the file,
//! sends the signal, and reports back what happened.

use vstd::prelude::*;

use crate::text::all_digits;
use crate::text::dec_val;
use crate::text::parse_u64;

verus! {

/// What startup does about an existing pid file.
#[derive(Clone, Copy, Debug, PartialEq, Eq, Structural)]
pub enum TakeoverStep {
    /// The file names a process: signal it to terminate before taking the
    /// socket over.
    SignalOwner(i32),
    /// No usable pid: leave whoever wrote the file alone and proceed.
    IgnorePidFile,
}

/// Reads a process id: a non-empty string of decimal digits whose value
/// fits a signed 32-bit id.
pub fn parse_pid(s: &str) -> (r: Option<i32>)
    ensures
        r is Some <==> s@.len() > 0 && all_digits(s@) && dec_val(s@) <= i32::MAX,
        r matches Some(pid) ==> pid == dec_val(s@),
{
    match parse_u64(s) {
        Some(n) => {
            if n <= 0x7fff_ffff {
                Some(n as i32)
            } else {
                None
            }
        },
        None => None,
    }
}

/// The startup decision for the contents of the pid file, when one
/// exists.
pub fn plan_takeover(pid_file: Option<&str>) -> (r: TakeoverStep)
    ensures
        (match pid_file {
            Some(s) => {
                if s@.len() > 0 && all_digits(s@) && dec_val(s@) <= i32::MAX {
                    r == TakeoverStep::SignalOwner((dec_val(s@) as i32))
                } else {
                    r == TakeoverStep::IgnorePidFile
                }
            },
            None => r == TakeoverStep::IgnorePidFile,
        }),
{
    match pid_file {
        Some(s) => match parse_pid(s) {
            Some(pid) => TakeoverStep::SignalOwner(pid),
            None => TakeoverStep::IgnorePidFile,
        },
        None => TakeoverStep::IgnorePidFile,
    }
}

/// Whether startup may proceed after signalling the old owner: yes when
/// the signal went through or no such process exists any more; a live
/// owner that could not be signalled is fatal.
pub fn takeover_outcome(signal_delivered: bool, no_such_process: bool) -> (proceed: bool)
    ensures
        proceed == (signal_delivered || no_such_process),
{
    signal_delivered || no_such_process
}

/// The memory-lock limit the watcher asks for before opening the kernel
/// channel: 128 MiB, or the hard limit where that is lower.
pub fn memlock_target(hard: u64) -> (r: u64)
    ensures
        r == (if hard < 0x800_0000 {
            hard as int
        } else {
            0x800_0000
        }),
{
    if hard < 0x800_0000 {
        hard
    } else {
        0x800_0000
    }
}

} // verus!
