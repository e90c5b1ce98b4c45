//! A card collection: what a holding is, and the store of holdings.

pub mod model;
pub mod store;
