//! A daemon-less batch job scheduler library.
//!
//! Users submit shell commands with per-dimension slot requirements and
//! optional dependencies to a named scheduler instance.  All state lives in
//! plain text: a slot bitmap (one line of `0`/`1` per resource dimension), a
//! job queue (ten lines per record) and a monotonic id counter.  This crate
//! holds the verified core: the codecs for that state, the first-fit slot
//! allocator, the dependency-aware dispatch scan and the state transitions
//! a scheduling pass performs.  The surrounding process (locking, file I/O,
//! spawning) feeds these functions plain values and persists what they return.

pub mod chars;
pub mod numfmt;
pub mod text;
pub mod listfmt;
pub mod bitmap;
pub mod slots;
pub mod job;
pub mod codec;
pub mod state;
pub mod spawn;
pub mod laws;
