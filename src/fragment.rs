use vstd::prelude::*;
use crate::doc::{Doc, Node};

verus! {

/// A captured node, ready to be read again: a view into the input that
/// lives as long as the input does, or a copy owned by whoever holds it.
/// Either way it reads as the node it was taken from.
#[derive(Debug)]
pub enum Fragment<'a> {
    Borrowed(&'a Node),
    Owned(Node),
}

impl<'a> Fragment<'a> {
    pub open spec fn view(&self) -> Doc {
        match self {
            Fragment::Borrowed(n) => n.view(),
            Fragment::Owned(n) => n.view(),
        }
    }

    /// Captures `n` without copying it.
    pub fn borrow(n: &'a Node) -> (r: Fragment<'a>)
        ensures
            r == Fragment::Borrowed(n),
            r.view() == n.view(),
    {
        Fragment::Borrowed(n)
    }

    /// Captures `n` as a copy that does not depend on where `n` lives.
    pub fn capture(n: &Node) -> (r: Fragment<'a>)
        ensures
            r.view() == n.view(),
            r is Owned,
    {
        Fragment::Owned(n.copy())
    }

    /// The node the fragment stands for.
    pub fn get(&self) -> (r: &Node)
        ensures
            r.view() == self.view(),
    {
        match self {
            Fragment::Borrowed(n) => n,
            Fragment::Owned(n) => n,
        }
    }

    /// The node, detached from the input; a borrowed view is copied.
    pub fn into_owned(self) -> (r: Node)
        ensures
            r.view() == self.view(),
    {
        match self {
            Fragment::Borrowed(n) => n.copy(),
            Fragment::Owned(n) => n,
        }
    }
}

/// The value of an outcome that holds fragments.
pub open spec fn fragment_outcome<'a>(r: Result<Option<Fragment<'a>>, crate::semantics::QueryError>) -> Result<
    Option<Doc>,
    crate::semantics::QueryError,
> {
    match r {
        Ok(Some(f)) => Ok(Some(f.view())),
        Ok(None) => Ok(None),
        Err(e) => Err(e),
    }
}

/// The value of an outcome that holds owned nodes.
pub open spec fn node_outcome(r: Result<Option<Node>, crate::semantics::QueryError>) -> Result<
    Option<Doc>,
    crate::semantics::QueryError,
> {
    match r {
        Ok(Some(n)) => Ok(Some(n.view())),
        Ok(None) => Ok(None),
        Err(e) => Err(e),
    }
}

} // verus!
