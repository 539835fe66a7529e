use vstd::prelude::*;
use crate::doc::{Doc, Node};
use crate::fragment::Fragment;
use crate::query::{Final, MultiMap, MultiVec, Query};
use crate::semantics::{eval, eval_multi, eval_multi_map, QueryError};
use crate::engine::{fits, written};
use crate::ser::{depth, pretty};

verus! {

/// Writing what the identity query selects gives exactly the text of the
/// document itself: the same text [`crate::engine::to_json`] gives for it,
/// entries and elements in their own order, nothing dropped or added.
pub proof fn lemma_round_trip(n: Node)
    ensures
        fits(eval(Query::Final(Final), n.view())) <==> 2 * depth(n.view()) <= usize::MAX,
        written(Query::Final(Final), n.view()) == Ok::<Option<Seq<char>>, QueryError>(
            Some(pretty(n.view(), 0)),
        ),
{
}

/// Replaying a query on a borrowed capture and on an owned copy of one
/// node gives one outcome, however often it is done: with
/// [`crate::engine::run_fragment`], whose result is fixed by the query and
/// the captured value alone.
pub proof fn lemma_replay(q: Query, borrowed: Fragment, owned: Fragment)
    requires
        borrowed is Borrowed,
        owned is Owned,
        borrowed.view() == owned.view(),
    ensures
        eval(q, borrowed.view()) == eval(q, owned.view()),
{
}

proof fn lemma_multi_prefix(m: MultiVec<Query>, d: Doc, n: int)
    requires
        0 <= n <= m.0@.len(),
        eval_multi(m, d, n) is Ok,
        eval_multi(m, d, n)->Ok_0 is Some,
    ensures
        eval_multi(m, d, n)->Ok_0->Some_0.len() == n,
        forall|i: int|
            0 <= i < n ==> eval(#[trigger] m.0@[i], d) == Ok::<Option<Doc>, QueryError>(
                Some(eval_multi(m, d, n)->Ok_0->Some_0[i]),
            ),
    decreases n,
{
    if n > 0 {
        lemma_multi_prefix(m, d, n - 1);
    }
}

/// The `i`-th element of a `MultiVec` result is what the `i`-th query
/// yields on the node, whatever the order of the node's own fields.
pub proof fn lemma_multi_vec_order(m: MultiVec<Query>, d: Doc)
    requires
        eval(Query::MultiVec(m), d) is Ok,
        eval(Query::MultiVec(m), d)->Ok_0 is Some,
    ensures
        match eval(Query::MultiVec(m), d) {
            Ok(Some(Doc::Array(ys))) => ys.len() == m.0@.len() && forall|i: int|
                0 <= i < m.0@.len() ==> eval(#[trigger] m.0@[i], d) == Ok::<
                    Option<Doc>,
                    QueryError,
                >(Some(ys[i])),
            _ => false,
        },
{
    lemma_multi_prefix(m, d, m.0@.len() as int);
}

proof fn lemma_multi_map_prefix(m: MultiMap<Query>, d: Doc, n: int)
    requires
        0 <= n <= m.0@.len(),
        eval_multi_map(m, d, n) is Ok,
        eval_multi_map(m, d, n)->Ok_0 is Some,
    ensures
        eval_multi_map(m, d, n)->Ok_0->Some_0.len() == n,
        forall|i: int|
            0 <= i < n ==> eval_multi_map(m, d, n)->Ok_0->Some_0[i].0 == (#[trigger] m.0@[i]).0@
                && eval(m.0@[i].1, d) == Ok::<Option<Doc>, QueryError>(
                Some(eval_multi_map(m, d, n)->Ok_0->Some_0[i].1),
            ),
    decreases n,
{
    if n > 0 {
        lemma_multi_map_prefix(m, d, n - 1);
    }
}

/// The `i`-th entry of a `MultiMap` result carries the `i`-th key and what
/// the `i`-th query yields on the node.
pub proof fn lemma_multi_map_order(m: MultiMap<Query>, d: Doc)
    requires
        eval(Query::MultiMap(m), d) is Ok,
        eval(Query::MultiMap(m), d)->Ok_0 is Some,
    ensures
        match eval(Query::MultiMap(m), d) {
            Ok(Some(Doc::Object(fs))) => fs.len() == m.0@.len() && forall|i: int|
                0 <= i < m.0@.len() ==> fs[i].0 == (#[trigger] m.0@[i]).0@ && eval(m.0@[i].1, d)
                    == Ok::<Option<Doc>, QueryError>(Some(fs[i].1)),
            _ => false,
        },
{
    lemma_multi_map_prefix(m, d, m.0@.len() as int);
}

} // verus!
