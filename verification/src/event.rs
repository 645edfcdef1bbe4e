//! Logical events and the classification codes carried by raw records.

use vstd::prelude::*;

verus! {

/// The kind of filesystem node an event speaks of. Records carry it as a
/// byte; values above the known range soften to `Unknown`.
#[derive(Clone, Copy, Debug, PartialEq, Eq, Structural)]
pub enum PathType {
    Dir,
    File,
    Symlink,
    Hardlink,
    Blockdev,
    Socket,
    Continuation,
    Unknown,
}

/// What happened to the node. `Continuation` and `Association` are
/// sub-record markers used during reassembly; a completed event never
/// carries them.
#[derive(Clone, Copy, Debug, PartialEq, Eq, Structural)]
pub enum EffectType {
    Create,
    Rename,
    Link,
    Delete,
    Continuation,
    Association,
}

impl PathType {
    /// The classification a record's `path_type` byte stands for.
    pub open spec fn spec_from_code(code: u8) -> PathType {
        if code == 0 {
            PathType::Dir
        } else if code == 1 {
            PathType::File
        } else if code == 2 {
            PathType::Symlink
        } else if code == 3 {
            PathType::Hardlink
        } else if code == 4 {
            PathType::Blockdev
        } else if code == 5 {
            PathType::Socket
        } else if code == 6 {
            PathType::Continuation
        } else {
            PathType::Unknown
        }
    }

    pub fn from_code(code: u8) -> (t: PathType)
        ensures
            t == PathType::spec_from_code(code),
    {
        match code {
            0 => PathType::Dir,
            1 => PathType::File,
            2 => PathType::Symlink,
            3 => PathType::Hardlink,
            4 => PathType::Blockdev,
            5 => PathType::Socket,
            6 => PathType::Continuation,
            _ => PathType::Unknown,
        }
    }

    /// The classification exposed on a completed event: the reassembly
    /// marker is never shown there and softens to `Unknown` too.
    pub open spec fn spec_exposed(self) -> PathType {
        if self == PathType::Continuation {
            PathType::Unknown
        } else {
            self
        }
    }

    pub fn exposed(self) -> (t: PathType)
        ensures
            t == self.spec_exposed(),
    {
        match self {
            PathType::Continuation => PathType::Unknown,
            other => other,
        }
    }
}

impl EffectType {
    /// The effect a record's `effect_type` byte stands for; bytes above the
    /// known range have no meaning and fail decoding.
    pub open spec fn spec_from_code(code: u8) -> Option<EffectType> {
        if code == 0 {
            Some(EffectType::Create)
        } else if code == 1 {
            Some(EffectType::Rename)
        } else if code == 2 {
            Some(EffectType::Link)
        } else if code == 3 {
            Some(EffectType::Delete)
        } else if code == 4 {
            Some(EffectType::Continuation)
        } else if code == 5 {
            Some(EffectType::Association)
        } else {
            None
        }
    }

    pub fn from_code(code: u8) -> (t: Option<EffectType>)
        ensures
            t == EffectType::spec_from_code(code),
    {
        match code {
            0 => Some(EffectType::Create),
            1 => Some(EffectType::Rename),
            2 => Some(EffectType::Link),
            3 => Some(EffectType::Delete),
            4 => Some(EffectType::Continuation),
            5 => Some(EffectType::Association),
            _ => None,
        }
    }

    /// True of the four effects that end a group and appear on completed
    /// events.
    pub open spec fn is_terminal(self) -> bool {
        self == EffectType::Create || self == EffectType::Rename || self == EffectType::Link
            || self == EffectType::Delete
    }
}

/// A completed logical event, as handed to consumers.
pub struct Event {
    pub path_name: String,
    pub associated: Option<String>,
    pub timestamp: u64,
    pub pid: u32,
    pub path_type: PathType,
    pub effect_type: EffectType,
}

/// The mathematical content of an `Event`.
#[verifier::ext_equal]
pub struct EventModel {
    pub path_name: Seq<char>,
    pub associated: Option<Seq<char>>,
    pub timestamp: u64,
    pub pid: u32,
    pub path_type: PathType,
    pub effect_type: EffectType,
}

impl View for Event {
    type V = EventModel;

    open spec fn view(&self) -> EventModel {
        EventModel {
            path_name: self.path_name@,
            associated: match self.associated {
                Some(a) => Some(a@),
                None => None,
            },
            timestamp: self.timestamp,
            pid: self.pid,
            path_type: self.path_type,
            effect_type: self.effect_type,
        }
    }
}

impl EventModel {
    /// What every completed event promises: a terminal effect, no
    /// reassembly marker as its path type, and an absolute path name.
    pub open spec fn wf(self) -> bool {
        &&& self.effect_type.is_terminal()
        &&& self.path_type != PathType::Continuation
        &&& self.path_name.len() > 0
        &&& self.path_name[0] == '/'
    }
}

} // verus!
