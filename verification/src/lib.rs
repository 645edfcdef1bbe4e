//! Observation of filesystem mutation events: decoding of the fixed-layout
//! records that in-kernel probes emit, reassembly of multi-fragment path
//! notifications into complete logical events, a textual encoding of those
//! events, and the bookkeeping of a fan-out server that multiplexes the
//! event stream to subscribers.
//!
//! The kernel channel, the sockets and the probe attachment live outside
//! this library; it works on the plain values they carry.

pub mod event;
pub mod event_parsing;
pub mod fanout;
pub mod ingest;
pub mod record;
pub mod server_core;
pub mod text;

pub use event::EffectType;
pub use event::Event;
pub use event::PathType;
