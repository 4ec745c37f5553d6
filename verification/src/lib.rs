//! Bulk population of a keyed map from batches of key/value pairs.
pub mod laws;
pub mod map;
pub mod model;
