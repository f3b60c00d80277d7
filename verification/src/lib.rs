//! A verified materialized-path outline store. Items form a tree: every item
//! carries a path of base-62 labels naming its ancestry, and an integer rank
//! ordering it among its siblings. The crate proves that the label codec
//! round-trips, that insert-or-update keeps paths and ranks consistent while
//! shifting conflicting siblings, and that the flat listing recovers each
//! item's direct parent from the paths alone.

pub mod base62;
pub mod models;
