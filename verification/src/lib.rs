//! A bounded ring buffer that never blocks its producer: when it is full,
//! the oldest item is evicted to an attached overflow sink (a *spout*).
//!
//! Beside the ring stand its two companions: `verdict`, the error statuses
//! and context frames that travel through such rings, and `bytecast`, which
//! writes values as bytes and reads them back.

pub mod bytecast;
pub mod counter;
pub mod index;
pub mod model;
pub mod ring;
pub mod slots;
pub mod spout;
pub mod traits;
pub mod verdict;

pub use ring::SpillRing;
pub use spout::{CollectSpout, DropSpout, Spout};
pub use traits::{RingConsumer, RingInfo, RingProducer};
