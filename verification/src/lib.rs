//! Index lifecycle management for a search engine.
//!
//! The crate owns the authoritative mapping from user-facing index names to
//! physically stored indexes and mediates every transition in an index's life
//! (create, open, resize, swap, delete), together with the ranking-rule graph
//! used by graph-based ranking during search.

use vstd::prelude::*;

pub mod assoc;
pub mod host;
pub mod index;
pub mod index_map;
pub mod interner;
pub mod mapper;
pub mod order;
pub mod proximity;
pub mod ranking_rule_graph;
pub mod small_bitmap;

verus! {

/// Errors surfaced to callers of the lifecycle operations.
#[derive(Debug)]
pub enum Error {
    /// The requested name has no binding in the name registry.
    IndexNotFound(String),
    /// A binding or a cache slot already exists where a fresh one was needed.
    IndexAlreadyExists(String),
}

impl Error {
    /// The name this error is about.
    pub fn index_name(&self) -> (r: &String)
        ensures
            *self matches Error::IndexNotFound(n) ==> r@ == n@,
            *self matches Error::IndexAlreadyExists(n) ==> r@ == n@,
    {
        match self {
            Error::IndexNotFound(n) => n,
            Error::IndexAlreadyExists(n) => n,
        }
    }
}

} // verus!
