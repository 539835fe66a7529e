use vstd::prelude::*;
use crate::doc::{Node, Scalar};

verus! {

/// Hands the current node on unchanged.
#[derive(Clone, Copy, Debug)]
pub struct Final;

/// Ignores the current node and yields a fixed one.
#[derive(Debug)]
pub struct Const(pub Node);

/// Applies `filter`, then hands what it selected to `seed`.
#[derive(Debug)]
pub struct Chain {
    pub filter: Box<Query>,
    pub seed: Box<Query>,
}

/// Applies its queries one after the other, each to what the previous one
/// selected; an empty list is the identity.
#[derive(Debug)]
pub struct Iter(pub Vec<Query>);

/// Applies the inner query to every element of an array, or to every value
/// of an object, and gathers the results in an array (keys are dropped).
#[derive(Debug)]
pub struct MapEach(pub Box<Query>);

/// Like [`MapEach`], but an object keeps its keys.
#[derive(Debug)]
pub struct MapValues(pub Box<Query>);

/// Applies every query to the same node; the results form an array in the
/// order of the queries.
#[derive(Debug)]
pub struct MultiVec<F>(pub Vec<F>);

/// Applies every query to the same node; the results form an object under
/// the keys given with the queries, in their order.
#[derive(Debug)]
pub struct MultiMap<F>(pub Vec<(String, F)>);

/// Holds when what `filter` selects differs from `value`; comparing values
/// of different kinds is an error.
#[derive(Debug)]
pub struct NotEq {
    pub filter: Box<Query>,
    pub value: Scalar,
}

/// Keeps the current node when the predicate holds, and yields nothing
/// otherwise.
#[derive(Debug)]
pub struct Select(pub NotEq);

/// Keeps the elements of an array, or the entries of an object, whose value
/// satisfies the predicate.
#[derive(Debug)]
pub struct MapSelect(pub NotEq);

/// A compiled projection: one combinator of a closed set.
#[derive(Debug)]
pub enum Query {
    Final(Final),
    Const(Const),
    Index(usize),
    Key(String),
    Chain(Chain),
    Iter(Iter),
    Each(MapEach),
    MapValues(MapValues),
    MultiVec(MultiVec<Query>),
    MultiMap(MultiMap<Query>),
    Select(Select),
    MapSelect(MapSelect),
}

impl NotEq {
    pub fn new(filter: Query, value: Scalar) -> (r: NotEq)
        ensures
            *r.filter == filter,
            r.value == value,
    {
        NotEq { filter: Box::new(filter), value }
    }
}

} // verus!
