use vstd::prelude::*;
use crate::doc::{
    Scalar, array_view, lemma_array_view, lemma_array_view_push, lemma_object_view,
    lemma_object_view_push, object_view, Doc, Node,
};
use crate::fragment::{fragment_outcome, node_outcome, Fragment};
use crate::ser::{depth, pretty, SerWrapper};
use crate::query::{Iter, MultiMap, MultiVec, NotEq, Query};
use crate::semantics::{
    atom_eq, eval_iter, eval_multi, eval_multi_map, in_predicate, lemma_iter_stops,
    lemma_multi_map_stops, lemma_multi_stops, lemma_select_entries_fail,
    lemma_select_items_fail, pred, select_entries, select_items, Cause, eval, eval_each, eval_entries, key_count, key_first, lemma_each_fails, lemma_entries_fail,
    values_of, QueryError,
};

verus! {

/// Applies `q` to `n`. What the query picks out of `n` without building
/// anything new comes back borrowed from `n`; what it builds comes back
/// owned.
pub fn run<'a>(q: &Query, n: &'a Node) -> (r: Result<Option<Fragment<'a>>, QueryError>)
    ensures
        fragment_outcome(r) == eval(*q, n.view()),
    decreases q, 0int,
{
    match q {
        Query::Final(_) => Ok(Some(Fragment::Borrowed(n))),
        Query::Const(c) => Ok(Some(Fragment::Owned(c.0.copy()))),
        Query::Index(i) => index(*i, n),
        Query::Key(k) => key(k, n),
        Query::Each(m) => {
            proof {
                assert(decreases_to!(*q => q->Each_0));
            }
            match each(&m.0, n) {
                Ok(v) => Ok(Some(Fragment::Owned(v))),
                Err(e) => Err(e),
            }
        },
        Query::MapValues(m) => {
            proof {
                assert(decreases_to!(*q => q->MapValues_0));
            }
            match map_values(&m.0, n) {
                Ok(v) => Ok(Some(Fragment::Owned(v))),
                Err(e) => Err(e),
            }
        },
        Query::Chain(c) => {
            proof {
                assert(decreases_to!(*q => q->Chain_0));
            }
            match run(&c.filter, n) {
                Ok(Some(f)) => run_fragment(&c.seed, f),
                Ok(None) => Ok(None),
                Err(e) => Err(e),
            }
        },
        Query::Iter(it) => {
            proof {
                assert(decreases_to!(*q => q->Iter_0));
            }
            iter(it, n)
        },
        Query::MultiVec(m) => {
            proof {
                assert(decreases_to!(*q => q->MultiVec_0));
            }
            match multi_vec(m, n) {
                Ok(Some(out)) => Ok(Some(Fragment::Owned(Node::Array(out)))),
                Ok(None) => Ok(None),
                Err(e) => Err(e),
            }
        },
        Query::MultiMap(m) => {
            proof {
                assert(decreases_to!(*q => q->MultiMap_0));
            }
            match multi_map(m, n) {
                Ok(Some(out)) => Ok(Some(Fragment::Owned(Node::Object(out)))),
                Ok(None) => Ok(None),
                Err(e) => Err(e),
            }
        },
        Query::Select(s) => {
            proof {
                assert(decreases_to!(*q => q->Select_0));
            }
            match holds(&s.0, n) {
                Ok(true) => Ok(Some(Fragment::Borrowed(n))),
                Ok(false) => Ok(None),
                Err(e) => Err(in_predicate_error(e)),
            }
        },
        Query::MapSelect(s) => {
            proof {
                assert(decreases_to!(*q => q->MapSelect_0));
            }
            match n {
                Node::Array(v) => {
                    proof {
                        lemma_array_view(v@);
                    }
                    match select_of(&s.0, v) {
                        Ok(out) => Ok(Some(Fragment::Owned(Node::Array(out)))),
                        Err(e) => Err(in_predicate_error(e)),
                    }
                },
                Node::Object(v) => match select_entries_of(&s.0, v) {
                    Ok(out) => Ok(Some(Fragment::Owned(Node::Object(out)))),
                    Err(e) => Err(in_predicate_error(e)),
                },
                _ => Err(QueryError::TypeMismatch),
            }
        },
    }
}

/// Applies `q` to a captured node, keeping the result borrowed where the
/// capture was.
pub fn run_fragment<'a>(q: &Query, f: Fragment<'a>) -> (r: Result<Option<Fragment<'a>>, QueryError>)
    ensures
        fragment_outcome(r) == eval(*q, f.view()),
    decreases q, 1int,
{
    match f {
        Fragment::Borrowed(m) => run(q, m),
        Fragment::Owned(m) => {
            let r = run(q, &m);
            match r {
                Ok(Some(g)) => Ok(Some(Fragment::Owned(g.into_owned()))),
                Ok(None) => Ok(None),
                Err(e) => Err(e),
            }
        },
    }
}

/// The element at position `i` of an array.
pub(crate) fn index<'a>(i: usize, n: &'a Node) -> (r: Result<Option<Fragment<'a>>, QueryError>)
    ensures
        fragment_outcome(r) == eval(Query::Index(i), n.view()),
{
    match n {
        Node::Array(v) => {
            proof {
                lemma_array_view(v@);
            }
            if i < v.len() {
                Ok(Some(Fragment::Borrowed(&v[i])))
            } else {
                Err(QueryError::MissingField)
            }
        },
        _ => Err(QueryError::TypeMismatch),
    }
}

/// The value under `k` in an object. Every entry is looked at, so that a
/// second entry under `k` is noticed.
pub(crate) fn key<'a>(k: &String, n: &'a Node) -> (r: Result<Option<Fragment<'a>>, QueryError>)
    ensures
        fragment_outcome(r) == eval(Query::Key(*k), n.view()),
{
    match n {
        Node::Object(v) => {
            let ghost es = object_view(v@);
            proof {
                lemma_object_view(v@);
            }
            let mut found: Option<usize> = None;
            let mut repeated = false;
            let mut j: usize = 0;
            while j < v.len()
                invariant
                    j <= v@.len(),
                    es == object_view(v@),
                    es.len() == v@.len(),
                    forall|x: int| 0 <= x < v@.len() ==> #[trigger] es[x] == (v@[x].0@, v@[x].1.view()),
                    found is None <==> key_count(es.take(j as int), k@) == 0,
                    found matches Some(f) ==> f < j && f == key_first(es.take(j as int), k@),
                    repeated <==> key_count(es.take(j as int), k@) > 1,
                decreases v@.len() - j,
            {
                proof {
                    assert(es.take(j + 1).drop_last() =~= es.take(j as int));
                }
                if v[j].0 == *k {
                    if found.is_none() {
                        found = Some(j);
                    } else {
                        repeated = true;
                    }
                }
                j = j + 1;
            }
            proof {
                assert(es.take(j as int) =~= es);
            }
            match found {
                None => Err(QueryError::MissingField),
                Some(f) => {
                    if repeated {
                        Err(QueryError::DuplicateField)
                    } else {
                        Ok(Some(Fragment::Borrowed(&v[f].1)))
                    }
                },
            }
        },
        _ => Err(QueryError::TypeMismatch),
    }
}

/// `q` applied to every element of an array or every value of an object,
/// gathered in an array.
fn each(q: &Query, n: &Node) -> (r: Result<Node, QueryError>)
    ensures
        match r {
            Ok(v) => eval(Query::Each(crate::query::MapEach(Box::new(*q))), n.view()) == Ok::<
                Option<Doc>,
                QueryError,
            >(Some(v.view())),
            Err(e) => eval(Query::Each(crate::query::MapEach(Box::new(*q))), n.view()) == Err::<
                Option<Doc>,
                QueryError,
            >(e),
        },
    decreases q, 2int,
{
    match n {
        Node::Array(v) => {
            proof {
                lemma_array_view(v@);
            }
            match each_of(q, v) {
                Ok(out) => Ok(Node::Array(out)),
                Err(e) => Err(e),
            }
        },
        Node::Object(v) => {
            proof {
                lemma_object_view(v@);
            }
            match each_value(q, v) {
                Ok(out) => Ok(Node::Array(out)),
                Err(e) => Err(e),
            }
        },
        _ => Err(QueryError::TypeMismatch),
    }
}

/// Like [`each`], but an object keeps its keys.
fn map_values(q: &Query, n: &Node) -> (r: Result<Node, QueryError>)
    ensures
        match r {
            Ok(v) => eval(Query::MapValues(crate::query::MapValues(Box::new(*q))), n.view())
                == Ok::<Option<Doc>, QueryError>(Some(v.view())),
            Err(e) => eval(Query::MapValues(crate::query::MapValues(Box::new(*q))), n.view())
                == Err::<Option<Doc>, QueryError>(e),
        },
    decreases q, 2int,
{
    match n {
        Node::Array(v) => {
            proof {
                lemma_array_view(v@);
            }
            match each_of(q, v) {
                Ok(out) => Ok(Node::Array(out)),
                Err(e) => Err(e),
            }
        },
        Node::Object(v) => {
            match each_entry(q, v) {
                Ok(out) => Ok(Node::Object(out)),
                Err(e) => Err(e),
            }
        },
        _ => Err(QueryError::TypeMismatch),
    }
}

fn each_of(q: &Query, v: &Vec<Node>) -> (r: Result<Vec<Node>, QueryError>)
    ensures
        match r {
            Ok(out) => eval_each(*q, array_view(v@)) == Ok::<Seq<Doc>, QueryError>(array_view(out@)),
            Err(e) => eval_each(*q, array_view(v@)) == Err::<Seq<Doc>, QueryError>(e),
        },
    decreases q, 1int,
{
    let ghost xs = array_view(v@);
    proof {
        lemma_array_view(v@);
    }
    let mut out: Vec<Node> = Vec::new();
    let mut j: usize = 0;
    while j < v.len()
        invariant
            j <= v@.len(),
            xs == array_view(v@),
            xs.len() == v@.len(),
            forall|x: int| 0 <= x < v@.len() ==> #[trigger] xs[x] == v@[x].view(),
            eval_each(*q, xs.take(j as int)) == Ok::<Seq<Doc>, QueryError>(array_view(out@)),
        decreases v@.len() - j,
    {
        proof {
            assert(xs.take(j + 1).drop_last() =~= xs.take(j as int));
        }
        match run(q, &v[j]) {
            Ok(Some(f)) => {
                let y = f.into_owned();
                proof {
                    lemma_array_view_push(out@, y);
                }
                out.push(y);
            },
            Ok(None) => {},
            Err(e) => {
                proof {
                    lemma_each_fails(*q, xs, j + 1);
                }
                return Err(e);
            },
        }
        j = j + 1;
    }
    proof {
        assert(xs.take(j as int) =~= xs);
    }
    Ok(out)
}

fn each_value(q: &Query, v: &Vec<(String, Node)>) -> (r: Result<Vec<Node>, QueryError>)
    ensures
        match r {
            Ok(out) => eval_each(*q, values_of(object_view(v@))) == Ok::<Seq<Doc>, QueryError>(
                array_view(out@),
            ),
            Err(e) => eval_each(*q, values_of(object_view(v@))) == Err::<Seq<Doc>, QueryError>(e),
        },
    decreases q, 1int,
{
    let ghost xs = values_of(object_view(v@));
    proof {
        lemma_object_view(v@);
    }
    let mut out: Vec<Node> = Vec::new();
    let mut j: usize = 0;
    while j < v.len()
        invariant
            j <= v@.len(),
            xs == values_of(object_view(v@)),
            xs.len() == v@.len(),
            forall|x: int| 0 <= x < v@.len() ==> #[trigger] xs[x] == v@[x].1.view(),
            eval_each(*q, xs.take(j as int)) == Ok::<Seq<Doc>, QueryError>(array_view(out@)),
        decreases v@.len() - j,
    {
        proof {
            assert(xs.take(j + 1).drop_last() =~= xs.take(j as int));
        }
        match run(q, &v[j].1) {
            Ok(Some(f)) => {
                let y = f.into_owned();
                proof {
                    lemma_array_view_push(out@, y);
                }
                out.push(y);
            },
            Ok(None) => {},
            Err(e) => {
                proof {
                    lemma_each_fails(*q, xs, j + 1);
                }
                return Err(e);
            },
        }
        j = j + 1;
    }
    proof {
        assert(xs.take(j as int) =~= xs);
    }
    Ok(out)
}

fn each_entry(q: &Query, v: &Vec<(String, Node)>) -> (r: Result<Vec<(String, Node)>, QueryError>)
    ensures
        match r {
            Ok(out) => eval_entries(*q, object_view(v@)) == Ok::<
                Seq<(Seq<char>, Doc)>,
                QueryError,
            >(object_view(out@)),
            Err(e) => eval_entries(*q, object_view(v@)) == Err::<Seq<(Seq<char>, Doc)>, QueryError>(
                e,
            ),
        },
    decreases q, 1int,
{
    let ghost es = object_view(v@);
    proof {
        lemma_object_view(v@);
    }
    let mut out: Vec<(String, Node)> = Vec::new();
    let mut j: usize = 0;
    while j < v.len()
        invariant
            j <= v@.len(),
            es == object_view(v@),
            es.len() == v@.len(),
            forall|x: int| 0 <= x < v@.len() ==> #[trigger] es[x] == (v@[x].0@, v@[x].1.view()),
            eval_entries(*q, es.take(j as int)) == Ok::<Seq<(Seq<char>, Doc)>, QueryError>(
                object_view(out@),
            ),
        decreases v@.len() - j,
    {
        proof {
            assert(es.take(j + 1).drop_last() =~= es.take(j as int));
        }
        match run(q, &v[j].1) {
            Ok(Some(f)) => {
                let e = (v[j].0.clone(), f.into_owned());
                proof {
                    lemma_object_view_push(out@, e);
                }
                out.push(e);
            },
            Ok(None) => {},
            Err(e) => {
                proof {
                    lemma_entries_fail(*q, es, j + 1);
                }
                return Err(e);
            },
        }
        j = j + 1;
    }
    proof {
        assert(es.take(j as int) =~= es);
    }
    Ok(out)
}

fn in_predicate_error(e: QueryError) -> (r: QueryError)
    ensures
        r == in_predicate(e),
{
    match e {
        QueryError::MissingField => QueryError::Predicate(Cause::MissingField),
        QueryError::DuplicateField => QueryError::Predicate(Cause::DuplicateField),
        QueryError::TypeMismatch => QueryError::Predicate(Cause::TypeMismatch),
        other => other,
    }
}

/// Compares two scalars of one kind; integers compare by value whatever
/// their width. `None` where the kinds differ.
pub fn scalar_eq(a: &Scalar, b: &Scalar) -> (r: Option<bool>)
    ensures
        r == atom_eq(a.view(), b.view()),
{
    match (a, b) {
        (Scalar::Null, Scalar::Null) => Some(true),
        (Scalar::Bool(x), Scalar::Bool(y)) => Some(*x == *y),
        (Scalar::I64(x), Scalar::I64(y)) => Some(*x == *y),
        (Scalar::U64(x), Scalar::U64(y)) => Some(*x == *y),
        (Scalar::I64(x), Scalar::U64(y)) => Some(*x >= 0 && *x as u64 == *y),
        (Scalar::U64(x), Scalar::I64(y)) => Some(*y >= 0 && *y as u64 == *x),
        (Scalar::Float(x), Scalar::Float(y)) => Some(*x == *y),
        (Scalar::Str(x), Scalar::Str(y)) => Some(*x == *y),
        _ => None,
    }
}

/// Whether `p` holds of `n`.
pub fn holds(p: &NotEq, n: &Node) -> (r: Result<bool, QueryError>)
    ensures
        r == pred(*p, n.view()),
    decreases p, 1int,
{
    proof {
        assert(decreases_to!(*p => p.filter));
    }
    match run(&p.filter, n) {
        Err(e) => Err(e),
        Ok(None) => Err(QueryError::MissingField),
        Ok(Some(f)) => match f.get() {
            Node::Scalar(a) => match scalar_eq(a, &p.value) {
                Some(same) => Ok(!same),
                None => Err(QueryError::TypeMismatch),
            },
            _ => Err(QueryError::TypeMismatch),
        },
    }
}

/// The queries of `it`, applied one after the other.
fn iter<'a>(it: &Iter, n: &'a Node) -> (r: Result<Option<Fragment<'a>>, QueryError>)
    ensures
        fragment_outcome(r) == eval_iter(*it, n.view(), it.0@.len() as int),
    decreases it, 2int,
{
    let mut cur = Fragment::Borrowed(n);
    let mut j: usize = 0;
    while j < it.0.len()
        invariant
            j <= it.0@.len(),
            eval_iter(*it, n.view(), j as int) == Ok::<Option<Doc>, QueryError>(Some(cur.view())),
        decreases it.0@.len() - j,
    {
        proof {
            vstd::std_specs::vec::axiom_vec_index_decreases(it.0, j as int);
            assert(decreases_to!(*it => it.0));
        }
        match run_fragment(&it.0[j], cur) {
            Ok(Some(next)) => {
                cur = next;
            },
            Ok(None) => {
                proof {
                    lemma_iter_stops(*it, n.view(), j + 1, it.0@.len() as int);
                }
                return Ok(None);
            },
            Err(e) => {
                proof {
                    lemma_iter_stops(*it, n.view(), j + 1, it.0@.len() as int);
                }
                return Err(e);
            },
        }
        j = j + 1;
    }
    Ok(Some(cur))
}

/// Every query of `m` applied to `n`, results in the order of the queries.
fn multi_vec(m: &MultiVec<Query>, n: &Node) -> (r: Result<Option<Vec<Node>>, QueryError>)
    ensures
        match r {
            Ok(Some(out)) => eval_multi(*m, n.view(), m.0@.len() as int) == Ok::<
                Option<Seq<Doc>>,
                QueryError,
            >(Some(array_view(out@))),
            Ok(None) => eval_multi(*m, n.view(), m.0@.len() as int) == Ok::<
                Option<Seq<Doc>>,
                QueryError,
            >(None),
            Err(e) => eval_multi(*m, n.view(), m.0@.len() as int) == Err::<
                Option<Seq<Doc>>,
                QueryError,
            >(e),
        },
    decreases m, 2int,
{
    let mut out: Vec<Node> = Vec::new();
    let mut j: usize = 0;
    while j < m.0.len()
        invariant
            j <= m.0@.len(),
            eval_multi(*m, n.view(), j as int) == Ok::<Option<Seq<Doc>>, QueryError>(
                Some(array_view(out@)),
            ),
        decreases m.0@.len() - j,
    {
        proof {
            vstd::std_specs::vec::axiom_vec_index_decreases(m.0, j as int);
            assert(decreases_to!(*m => m.0));
        }
        match run(&m.0[j], n) {
            Ok(Some(f)) => {
                let y = f.into_owned();
                proof {
                    lemma_array_view_push(out@, y);
                }
                out.push(y);
            },
            Ok(None) => {
                proof {
                    lemma_multi_stops(*m, n.view(), j + 1, m.0@.len() as int);
                }
                return Ok(None);
            },
            Err(e) => {
                proof {
                    lemma_multi_stops(*m, n.view(), j + 1, m.0@.len() as int);
                }
                return Err(e);
            },
        }
        j = j + 1;
    }
    Ok(Some(out))
}

/// Every keyed query of `m` applied to `n`, under its key, in order.
fn multi_map(m: &MultiMap<Query>, n: &Node) -> (r: Result<Option<Vec<(String, Node)>>, QueryError>)
    ensures
        match r {
            Ok(Some(out)) => eval_multi_map(*m, n.view(), m.0@.len() as int) == Ok::<
                Option<Seq<(Seq<char>, Doc)>>,
                QueryError,
            >(Some(object_view(out@))),
            Ok(None) => eval_multi_map(*m, n.view(), m.0@.len() as int) == Ok::<
                Option<Seq<(Seq<char>, Doc)>>,
                QueryError,
            >(None),
            Err(e) => eval_multi_map(*m, n.view(), m.0@.len() as int) == Err::<
                Option<Seq<(Seq<char>, Doc)>>,
                QueryError,
            >(e),
        },
    decreases m, 2int,
{
    let mut out: Vec<(String, Node)> = Vec::new();
    let mut j: usize = 0;
    while j < m.0.len()
        invariant
            j <= m.0@.len(),
            eval_multi_map(*m, n.view(), j as int) == Ok::<
                Option<Seq<(Seq<char>, Doc)>>,
                QueryError,
            >(Some(object_view(out@))),
        decreases m.0@.len() - j,
    {
        proof {
            vstd::std_specs::vec::axiom_vec_index_decreases(m.0, j as int);
            assert(decreases_to!(*m => m.0));
            assert(decreases_to!(m.0[j as int] => m.0[j as int].1));
        }
        match run(&m.0[j].1, n) {
            Ok(Some(f)) => {
                let e = (m.0[j].0.clone(), f.into_owned());
                proof {
                    lemma_object_view_push(out@, e);
                }
                out.push(e);
            },
            Ok(None) => {
                proof {
                    lemma_multi_map_stops(*m, n.view(), j + 1, m.0@.len() as int);
                }
                return Ok(None);
            },
            Err(e) => {
                proof {
                    lemma_multi_map_stops(*m, n.view(), j + 1, m.0@.len() as int);
                }
                return Err(e);
            },
        }
        j = j + 1;
    }
    Ok(Some(out))
}

/// The elements of `v` of which `p` holds, copied, in order.
fn select_of(p: &NotEq, v: &Vec<Node>) -> (r: Result<Vec<Node>, QueryError>)
    ensures
        match r {
            Ok(out) => select_items(*p, array_view(v@)) == Ok::<Seq<Doc>, QueryError>(
                array_view(out@),
            ),
            Err(e) => select_items(*p, array_view(v@)) == Err::<Seq<Doc>, QueryError>(e),
        },
    decreases p, 2int,
{
    let ghost xs = array_view(v@);
    proof {
        lemma_array_view(v@);
    }
    let mut out: Vec<Node> = Vec::new();
    let mut j: usize = 0;
    while j < v.len()
        invariant
            j <= v@.len(),
            xs == array_view(v@),
            xs.len() == v@.len(),
            forall|x: int| 0 <= x < v@.len() ==> #[trigger] xs[x] == v@[x].view(),
            select_items(*p, xs.take(j as int)) == Ok::<Seq<Doc>, QueryError>(array_view(out@)),
        decreases v@.len() - j,
    {
        proof {
            assert(xs.take(j + 1).drop_last() =~= xs.take(j as int));
        }
        match holds(p, &v[j]) {
            Ok(true) => {
                let y = v[j].copy();
                proof {
                    lemma_array_view_push(out@, y);
                }
                out.push(y);
            },
            Ok(false) => {},
            Err(e) => {
                proof {
                    lemma_select_items_fail(*p, xs, j + 1);
                }
                return Err(e);
            },
        }
        j = j + 1;
    }
    proof {
        assert(xs.take(j as int) =~= xs);
    }
    Ok(out)
}

/// The entries of `v` whose value satisfies `p`, copied, in order.
fn select_entries_of(p: &NotEq, v: &Vec<(String, Node)>) -> (r: Result<
    Vec<(String, Node)>,
    QueryError,
>)
    ensures
        match r {
            Ok(out) => select_entries(*p, object_view(v@)) == Ok::<
                Seq<(Seq<char>, Doc)>,
                QueryError,
            >(object_view(out@)),
            Err(e) => select_entries(*p, object_view(v@)) == Err::<
                Seq<(Seq<char>, Doc)>,
                QueryError,
            >(e),
        },
    decreases p, 2int,
{
    let ghost es = object_view(v@);
    proof {
        lemma_object_view(v@);
    }
    let mut out: Vec<(String, Node)> = Vec::new();
    let mut j: usize = 0;
    while j < v.len()
        invariant
            j <= v@.len(),
            es == object_view(v@),
            es.len() == v@.len(),
            forall|x: int| 0 <= x < v@.len() ==> #[trigger] es[x] == (v@[x].0@, v@[x].1.view()),
            select_entries(*p, es.take(j as int)) == Ok::<Seq<(Seq<char>, Doc)>, QueryError>(
                object_view(out@),
            ),
        decreases v@.len() - j,
    {
        proof {
            assert(es.take(j + 1).drop_last() =~= es.take(j as int));
        }
        match holds(p, &v[j].1) {
            Ok(true) => {
                let e = (v[j].0.clone(), v[j].1.copy());
                proof {
                    lemma_object_view_push(out@, e);
                }
                out.push(e);
            },
            Ok(false) => {},
            Err(e) => {
                proof {
                    lemma_select_entries_fail(*p, es, j + 1);
                }
                return Err(e);
            },
        }
        j = j + 1;
    }
    proof {
        assert(es.take(j as int) =~= es);
    }
    Ok(out)
}

impl Query {
    /// Applies the query to `n`: `Ok(Some(_))` holds what it selected,
    /// `Ok(None)` means that a selection did not hold, `Err(_)` why it
    /// failed.
    pub fn filter(&self, n: &Node) -> (r: Result<Option<Node>, QueryError>)
        ensures
            node_outcome(r) == eval(*self, n.view()),
    {
        match run(self, n) {
            Ok(Some(f)) => Ok(Some(f.into_owned())),
            Ok(None) => Ok(None),
            Err(e) => Err(e),
        }
    }

    /// Like [`Query::filter`], but what is picked out of `n` unchanged is
    /// handed back borrowed rather than copied.
    pub fn select<'a>(&self, n: &'a Node) -> (r: Result<Option<Fragment<'a>>, QueryError>)
        ensures
            fragment_outcome(r) == eval(*self, n.view()),
    {
        run(self, n)
    }

    /// Applies the query to `n` and writes what it selected as pretty JSON.
    pub fn filter_to_json(&self, n: &Node) -> (r: Result<Option<String>, QueryError>)
        ensures
            fits(eval(*self, n.view())) ==> text_outcome(r) == written(*self, n.view()),
            match eval(*self, n.view()) {
                Ok(Some(d)) => match r {
                    Ok(Some(t)) => t@ == pretty(d, 0),
                    Ok(None) => false,
                    Err(e) => e == QueryError::Sink && 2 * depth(d) > usize::MAX,
                },
                Ok(None) => r == Ok::<Option<String>, QueryError>(None),
                Err(e) => r == Err::<Option<String>, QueryError>(e),
            },
    {
        match run(self, n) {
            Ok(Some(f)) => {
                let mut w = SerWrapper::new();
                match w.write_node(f.get(), 0) {
                    Ok(()) => Ok(Some(w.into_string())),
                    Err(e) => Err(e),
                }
            },
            Ok(None) => Ok(None),
            Err(e) => Err(e),
        }
    }
}

/// The text of an outcome that holds strings.
pub open spec fn text_outcome(r: Result<Option<String>, QueryError>) -> Result<
    Option<Seq<char>>,
    QueryError,
> {
    match r {
        Ok(Some(t)) => Ok(Some(t@)),
        Ok(None) => Ok(None),
        Err(e) => Err(e),
    }
}

/// Whether a selected value, if any, can be written: its deepest
/// indentation fits in a `usize`.
pub open spec fn fits(r: Result<Option<Doc>, QueryError>) -> bool {
    match r {
        Ok(Some(d)) => 2 * depth(d) <= usize::MAX,
        _ => true,
    }
}

/// What [`Query::filter_to_json`] hands back for `q` on `d`.
pub open spec fn written(q: Query, d: Doc) -> Result<Option<Seq<char>>, QueryError> {
    match eval(q, d) {
        Ok(Some(v)) => Ok(Some(pretty(v, 0))),
        Ok(None) => Ok(None),
        Err(e) => Err(e),
    }
}

/// `n` as pretty JSON text. Fails only where the deepest indentation
/// would not fit in a `usize`.
pub fn to_json(n: &Node) -> (r: Result<String, QueryError>)
    ensures
        2 * depth(n.view()) <= usize::MAX ==> r is Ok,
        r matches Ok(t) ==> t@ == pretty(n.view(), 0),
        r matches Err(e) ==> e == QueryError::Sink,
{
    let mut w = SerWrapper::new();
    match w.write_node(n, 0) {
        Ok(()) => Ok(w.into_string()),
        Err(e) => Err(e),
    }
}

} // verus!
