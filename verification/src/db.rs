//! The persistent result cache: composite cache keys, cached values with
//! their byte codec, and the transactional store.

pub mod store;
pub mod types;
