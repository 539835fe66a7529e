use vstd::prelude::*;
use crate::doc::{Atom, Doc};
use crate::query::{Iter, MultiMap, MultiVec, NotEq, Query};

verus! {

/// Why a predicate could not be computed.
#[derive(Clone, Copy, Debug, PartialEq, Eq)]
pub enum Cause {
    MissingField,
    DuplicateField,
    TypeMismatch,
}

/// Why a query failed.
#[derive(Clone, Copy, Debug, PartialEq, Eq)]
pub enum QueryError {
    /// An addressed index or key is absent.
    MissingField,
    /// The addressed key occurs more than once in its object.
    DuplicateField,
    /// A node has another shape than the query needs, or a predicate
    /// compared values of different kinds.
    TypeMismatch,
    /// A predicate could not be computed; holds the reason.
    Predicate(Cause),
    /// The output encoder refused a value.
    Sink,
}

/// A failure met while computing a predicate, as the predicate passes it on.
pub open spec fn in_predicate(e: QueryError) -> QueryError {
    match e {
        QueryError::MissingField => QueryError::Predicate(Cause::MissingField),
        QueryError::DuplicateField => QueryError::Predicate(Cause::DuplicateField),
        QueryError::TypeMismatch => QueryError::Predicate(Cause::TypeMismatch),
        other => other,
    }
}

/// How many entries of `es` have the key `k`.
pub open spec fn key_count(es: Seq<(Seq<char>, Doc)>, k: Seq<char>) -> nat
    decreases es.len(),
{
    if es.len() == 0 {
        0
    } else {
        key_count(es.drop_last(), k) + if es.last().0 == k { 1nat } else { 0nat }
    }
}

/// The position of the first entry of `es` with the key `k`.
pub open spec fn key_first(es: Seq<(Seq<char>, Doc)>, k: Seq<char>) -> int
    decreases es.len(),
{
    if es.len() == 0 {
        -1
    } else if key_count(es.drop_last(), k) > 0 {
        key_first(es.drop_last(), k)
    } else {
        es.len() - 1
    }
}

/// The values of an object's entries, in order.
pub open spec fn values_of(es: Seq<(Seq<char>, Doc)>) -> Seq<Doc> {
    es.map_values(|e: (Seq<char>, Doc)| e.1)
}

/// Compares two scalars of one kind: `None` where the kinds differ.
pub open spec fn atom_eq(a: Atom, b: Atom) -> Option<bool> {
    match (a, b) {
        (Atom::Null, Atom::Null) => Some(true),
        (Atom::Bool(x), Atom::Bool(y)) => Some(x == y),
        (Atom::Int(x), Atom::Int(y)) => Some(x == y),
        (Atom::Float(x), Atom::Float(y)) => Some(x == y),
        (Atom::Str(x), Atom::Str(y)) => Some(x == y),
        _ => None,
    }
}

/// What a query yields on a document: `Ok(Some(_))` a value, `Ok(None)`
/// nothing (a selection that did not hold), `Err(_)` a failure.
pub open spec fn eval(q: Query, d: Doc) -> Result<Option<Doc>, QueryError>
    decreases q, 0int,
{
    match q {
        Query::Final(_) => Ok(Some(d)),
        Query::Const(c) => Ok(Some(c.0.view())),
        Query::Index(i) => match d {
            Doc::Array(xs) => if i < xs.len() {
                Ok(Some(xs[i as int]))
            } else {
                Err(QueryError::MissingField)
            },
            _ => Err(QueryError::TypeMismatch),
        },
        Query::Key(k) => match d {
            Doc::Object(es) => if key_count(es, k@) == 0 {
                Err(QueryError::MissingField)
            } else if key_count(es, k@) > 1 {
                Err(QueryError::DuplicateField)
            } else {
                Ok(Some(es[key_first(es, k@)].1))
            },
            _ => Err(QueryError::TypeMismatch),
        },
        Query::Chain(c) => match eval(*c.filter, d) {
            Ok(Some(v)) => eval(*c.seed, v),
            other => other,
        },
        Query::Iter(it) => eval_iter(it, d, it.0@.len() as int),
        Query::Each(m) => match d {
            Doc::Array(xs) => match eval_each(*m.0, xs) {
                Ok(ys) => Ok(Some(Doc::Array(ys))),
                Err(e) => Err(e),
            },
            Doc::Object(es) => match eval_each(*m.0, values_of(es)) {
                Ok(ys) => Ok(Some(Doc::Array(ys))),
                Err(e) => Err(e),
            },
            _ => Err(QueryError::TypeMismatch),
        },
        Query::MapValues(m) => match d {
            Doc::Array(xs) => match eval_each(*m.0, xs) {
                Ok(ys) => Ok(Some(Doc::Array(ys))),
                Err(e) => Err(e),
            },
            Doc::Object(es) => match eval_entries(*m.0, es) {
                Ok(fs) => Ok(Some(Doc::Object(fs))),
                Err(e) => Err(e),
            },
            _ => Err(QueryError::TypeMismatch),
        },
        Query::MultiVec(m) => match eval_multi(m, d, m.0@.len() as int) {
            Ok(Some(ys)) => Ok(Some(Doc::Array(ys))),
            Ok(None) => Ok(None),
            Err(e) => Err(e),
        },
        Query::MultiMap(m) => match eval_multi_map(m, d, m.0@.len() as int) {
            Ok(Some(fs)) => Ok(Some(Doc::Object(fs))),
            Ok(None) => Ok(None),
            Err(e) => Err(e),
        },
        Query::Select(s) => match pred(s.0, d) {
            Ok(true) => Ok(Some(d)),
            Ok(false) => Ok(None),
            Err(e) => Err(in_predicate(e)),
        },
        Query::MapSelect(s) => match d {
            Doc::Array(xs) => match select_items(s.0, xs) {
                Ok(ys) => Ok(Some(Doc::Array(ys))),
                Err(e) => Err(in_predicate(e)),
            },
            Doc::Object(es) => match select_entries(s.0, es) {
                Ok(fs) => Ok(Some(Doc::Object(fs))),
                Err(e) => Err(in_predicate(e)),
            },
            _ => Err(QueryError::TypeMismatch),
        },
    }
}

/// The first `n` queries of `it`, applied in turn.
pub open spec fn eval_iter(it: Iter, d: Doc, n: int) -> Result<Option<Doc>, QueryError>
    decreases it, n,
{
    if n <= 0 || n > it.0@.len() {
        Ok(Some(d))
    } else {
        match eval_iter(it, d, n - 1) {
            Ok(Some(v)) => eval(it.0@[n - 1], v),
            other => other,
        }
    }
}

/// `q` applied to each of `xs`: the values in order, the empty outcomes
/// left out; the first failure wins.
pub open spec fn eval_each(q: Query, xs: Seq<Doc>) -> Result<Seq<Doc>, QueryError>
    decreases q, xs.len(),
{
    if xs.len() == 0 {
        Ok(Seq::empty())
    } else {
        match eval_each(q, xs.drop_last()) {
            Err(e) => Err(e),
            Ok(ys) => match eval(q, xs.last()) {
                Err(e) => Err(e),
                Ok(None) => Ok(ys),
                Ok(Some(y)) => Ok(ys.push(y)),
            },
        }
    }
}

/// `q` applied to the value of each of `es`, keys kept.
pub open spec fn eval_entries(q: Query, es: Seq<(Seq<char>, Doc)>) -> Result<
    Seq<(Seq<char>, Doc)>,
    QueryError,
>
    decreases q, es.len(),
{
    if es.len() == 0 {
        Ok(Seq::empty())
    } else {
        match eval_entries(q, es.drop_last()) {
            Err(e) => Err(e),
            Ok(fs) => match eval(q, es.last().1) {
                Err(e) => Err(e),
                Ok(None) => Ok(fs),
                Ok(Some(y)) => Ok(fs.push((es.last().0, y))),
            },
        }
    }
}

/// The first `n` queries of `m`, each applied to `d`. A failure, or a
/// query that yields nothing, ends the whole: no partial list.
pub open spec fn eval_multi(m: MultiVec<Query>, d: Doc, n: int) -> Result<Option<Seq<Doc>>, QueryError>
    decreases m, n,
{
    if n <= 0 || n > m.0@.len() {
        Ok(Some(Seq::empty()))
    } else {
        match eval_multi(m, d, n - 1) {
            Ok(Some(ys)) => match eval(m.0@[n - 1], d) {
                Ok(Some(y)) => Ok(Some(ys.push(y))),
                Ok(None) => Ok(None),
                Err(e) => Err(e),
            },
            other => other,
        }
    }
}

/// The first `n` keyed queries of `m`, each applied to `d`.
pub open spec fn eval_multi_map(m: MultiMap<Query>, d: Doc, n: int) -> Result<
    Option<Seq<(Seq<char>, Doc)>>,
    QueryError,
>
    decreases m, n,
{
    if n <= 0 || n > m.0@.len() {
        Ok(Some(Seq::empty()))
    } else {
        match eval_multi_map(m, d, n - 1) {
            Ok(Some(fs)) => match eval(m.0@[n - 1].1, d) {
                Ok(Some(y)) => Ok(Some(fs.push((m.0@[n - 1].0@, y)))),
                Ok(None) => Ok(None),
                Err(e) => Err(e),
            },
            other => other,
        }
    }
}

/// Whether `p` holds of `d`.
pub open spec fn pred(p: NotEq, d: Doc) -> Result<bool, QueryError>
    decreases p, 0int,
{
    match eval(*p.filter, d) {
        Err(e) => Err(e),
        Ok(None) => Err(QueryError::MissingField),
        Ok(Some(Doc::Scalar(a))) => match atom_eq(a, p.value.view()) {
            Some(same) => Ok(!same),
            None => Err(QueryError::TypeMismatch),
        },
        Ok(Some(_)) => Err(QueryError::TypeMismatch),
    }
}

/// The elements of `xs` of which `p` holds, in order.
pub open spec fn select_items(p: NotEq, xs: Seq<Doc>) -> Result<Seq<Doc>, QueryError>
    decreases p, xs.len(),
{
    if xs.len() == 0 {
        Ok(Seq::empty())
    } else {
        match select_items(p, xs.drop_last()) {
            Err(e) => Err(e),
            Ok(ys) => match pred(p, xs.last()) {
                Err(e) => Err(e),
                Ok(true) => Ok(ys.push(xs.last())),
                Ok(false) => Ok(ys),
            },
        }
    }
}

/// The entries of `es` whose value satisfies `p`, in order.
pub open spec fn select_entries(p: NotEq, es: Seq<(Seq<char>, Doc)>) -> Result<
    Seq<(Seq<char>, Doc)>,
    QueryError,
>
    decreases p, es.len(),
{
    if es.len() == 0 {
        Ok(Seq::empty())
    } else {
        match select_entries(p, es.drop_last()) {
            Err(e) => Err(e),
            Ok(fs) => match pred(p, es.last().1) {
                Err(e) => Err(e),
                Ok(true) => Ok(fs.push(es.last())),
                Ok(false) => Ok(fs),
            },
        }
    }
}

/// Once a prefix of the elements fails, the whole run fails the same way.
pub proof fn lemma_each_fails(q: Query, xs: Seq<Doc>, a: int)
    requires
        0 <= a <= xs.len(),
        eval_each(q, xs.take(a)) is Err,
    ensures
        eval_each(q, xs) == eval_each(q, xs.take(a)),
    decreases xs.len(),
{
    if a == xs.len() {
        assert(xs.take(a) =~= xs);
    } else {
        assert(xs.drop_last().take(a) =~= xs.take(a));
        lemma_each_fails(q, xs.drop_last(), a);
    }
}

pub proof fn lemma_entries_fail(q: Query, es: Seq<(Seq<char>, Doc)>, a: int)
    requires
        0 <= a <= es.len(),
        eval_entries(q, es.take(a)) is Err,
    ensures
        eval_entries(q, es) == eval_entries(q, es.take(a)),
    decreases es.len(),
{
    if a == es.len() {
        assert(es.take(a) =~= es);
    } else {
        assert(es.drop_last().take(a) =~= es.take(a));
        lemma_entries_fail(q, es.drop_last(), a);
    }
}

pub proof fn lemma_select_items_fail(p: NotEq, xs: Seq<Doc>, a: int)
    requires
        0 <= a <= xs.len(),
        select_items(p, xs.take(a)) is Err,
    ensures
        select_items(p, xs) == select_items(p, xs.take(a)),
    decreases xs.len(),
{
    if a == xs.len() {
        assert(xs.take(a) =~= xs);
    } else {
        assert(xs.drop_last().take(a) =~= xs.take(a));
        lemma_select_items_fail(p, xs.drop_last(), a);
    }
}

pub proof fn lemma_select_entries_fail(p: NotEq, es: Seq<(Seq<char>, Doc)>, a: int)
    requires
        0 <= a <= es.len(),
        select_entries(p, es.take(a)) is Err,
    ensures
        select_entries(p, es) == select_entries(p, es.take(a)),
    decreases es.len(),
{
    if a == es.len() {
        assert(es.take(a) =~= es);
    } else {
        assert(es.drop_last().take(a) =~= es.take(a));
        lemma_select_entries_fail(p, es.drop_last(), a);
    }
}

/// Once the first `a` queries stop short, later ones are never applied.
pub proof fn lemma_iter_stops(it: Iter, d: Doc, a: int, b: int)
    requires
        0 <= a <= b <= it.0@.len(),
        !(eval_iter(it, d, a) is Ok && eval_iter(it, d, a)->Ok_0 is Some),
    ensures
        eval_iter(it, d, b) == eval_iter(it, d, a),
    decreases b - a,
{
    if a < b {
        lemma_iter_stops(it, d, a, b - 1);
    }
}

pub proof fn lemma_multi_stops(m: MultiVec<Query>, d: Doc, a: int, b: int)
    requires
        0 <= a <= b <= m.0@.len(),
        !(eval_multi(m, d, a) is Ok && eval_multi(m, d, a)->Ok_0 is Some),
    ensures
        eval_multi(m, d, b) == eval_multi(m, d, a),
    decreases b - a,
{
    if a < b {
        lemma_multi_stops(m, d, a, b - 1);
    }
}

pub proof fn lemma_multi_map_stops(m: MultiMap<Query>, d: Doc, a: int, b: int)
    requires
        0 <= a <= b <= m.0@.len(),
        !(eval_multi_map(m, d, a) is Ok && eval_multi_map(m, d, a)->Ok_0 is Some),
    ensures
        eval_multi_map(m, d, b) == eval_multi_map(m, d, a),
    decreases b - a,
{
    if a < b {
        lemma_multi_map_stops(m, d, a, b - 1);
    }
}

} // verus!
