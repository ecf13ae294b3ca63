//! Bookkeeping of a slab allocator for byte buffers: slabs of fixed length
//! cut into stripes, each with an ordered, coalesced list of free spans that
//! is carved best-fit and merged on free, and a ring of such slabs that
//! routes requests, grows under a memory cap and rotates where each lap
//! starts.
pub mod config;
pub mod ring;
pub mod slab;

pub use config::Config;
pub use ring::SlabRing;
pub use slab::{Region, Slab, Span};
