//! Entity-component store with a capability layer.
//!
//! Independently deployed systems share one store of entities, each a bag of
//! schema-keyed byte components. Every mutation is gated by the set of
//! component keys granted to the calling system, and every entity's storage
//! size is kept exactly equal to a fixed header plus the declared size of each
//! of its components.

pub mod address;
pub mod component;
pub mod error;
pub mod store;
pub mod world;
pub mod config;
pub mod record;
pub mod blueprint;
