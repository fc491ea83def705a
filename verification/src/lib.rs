//! Inbound cross-chain message engine: admits raw message batches, decides
//! per message whether to execute now, defer to a later relay block, or divert
//! to a manually serviced overweight store, all under a caller-supplied weight
//! budget that is never exceeded.

pub mod admin;
pub mod codec;
pub mod hashing;
pub mod ingress;
pub mod laws;
pub mod policy;
pub mod queue;
pub mod scheduler;
pub mod store;
pub mod testing;
pub mod traits;
pub mod types;
pub mod weight;

pub use weight::Weight;
