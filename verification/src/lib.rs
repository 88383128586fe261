//! Chain tracker for a blockchain validator's per-slot status feed.
//!
//! The library maintains a view of the canonical chain and its forks:
//! which slots exist, their parent/child links, their commitment status,
//! and which fork tip is currently considered best. Slot notifications
//! may arrive out of order, duplicated, or with a still-unknown parent;
//! the merge, relink and prune rules here handle all of those.

pub mod chain_data;
pub mod config;
pub mod laws;
pub mod model;
pub mod status;
