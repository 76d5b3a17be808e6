//! An in-memory triple store for RDF-style (subject, predicate, object) data.
//!
//! The core is a reference-counted term-interning table, a primary store of
//! distinct index-tuples grouped by subject, and composable secondary-index
//! wrappers that each accelerate one more query pattern.

pub mod graph;
pub mod index_map;
pub mod iri;
pub mod postings;
pub mod store;
pub mod streams;
pub mod term;
pub mod wrapper;
