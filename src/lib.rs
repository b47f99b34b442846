//! Batched, deduplicating loading of routines by key, with a cache that lives
//! for one request scope.

pub mod model;
pub mod outcome;
pub mod scope;
pub mod laws;
