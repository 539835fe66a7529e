//! Projection queries over hierarchical documents.
//!
//! A document is a tree of scalars, arrays and objects ([`doc::Node`]),
//! handed over by whatever parser read it. A query ([`query::Query`], or a
//! run-time [`json::JsonPath`]) narrows it by index or key, branches over
//! it, maps over it or filters it with a predicate; the result comes back
//! as a tree, borrowed from the input where nothing had to be built
//! ([`fragment::Fragment`]), or written out as pretty JSON
//! ([`ser::SerWrapper`]).
//!
//! What each query yields is defined by the spec functions of
//! [`semantics`]; the engine ([`engine`]) is proved to follow them, and
//! [`laws`] states the properties that hold across calls.

pub mod doc;
pub mod query;
pub mod semantics;
pub mod fragment;
pub mod engine;
pub mod ser;
pub mod laws;
pub mod json;
