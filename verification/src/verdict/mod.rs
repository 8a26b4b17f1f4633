//! Error handling around the ring: what an error's status is, where its
//! context was added, and where the context frames go that a ring of frames
//! cannot hold.

pub mod actionable;
pub mod frame;
mod sealed;
pub mod sinks;
pub mod status;

pub use actionable::Actionable;
pub use frame::Frame;
pub use sinks::{CountingSpout, FrameFormatter, LogSpout, StderrSpout, TeeSpout};
pub use status::ErrorStatusValue;
