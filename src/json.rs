use vstd::prelude::*;
use crate::doc::{array_view, lemma_array_view, lemma_object_view, lemma_array_view_push, lemma_object_view_push, object_view, Doc, Node};
use crate::engine::{index, key};
use crate::fragment::{fragment_outcome, Fragment};
use crate::query::{MultiMap, MultiVec, Query};
use crate::semantics::{eval, QueryError};

verus! {

/// A point step of a [`JsonPath`]: a position in an array or a key in an
/// object.
#[derive(Clone, Debug)]
pub enum JsonFieldIndex {
    List(usize),
    Key(String),
}

/// One step of a [`JsonPath`]. A branching step applies each of its
/// paths to the current node, then applies the rest of the enclosing path
/// to each branch's result.
#[derive(Debug)]
pub enum JsonField {
    Index(JsonFieldIndex),
    List(MultiVec<JsonPath>),
    Object(MultiMap<JsonPath>),
}

/// A path of steps, built at run time rather than as nested combinators.
#[derive(Debug)]
pub struct JsonPath(pub Vec<JsonField>);

impl JsonFieldIndex {
    pub open spec fn as_query(self) -> Query {
        match self {
            JsonFieldIndex::List(i) => Query::Index(i),
            JsonFieldIndex::Key(k) => Query::Key(k),
        }
    }

    /// A position step.
    pub fn from_index(i: usize) -> (r: JsonFieldIndex)
        ensures
            r == JsonFieldIndex::List(i),
    {
        JsonFieldIndex::List(i)
    }

    /// A key step.
    pub fn from_key(k: &str) -> (r: JsonFieldIndex)
        ensures
            r matches JsonFieldIndex::Key(s) && s@ == k@,
    {
        JsonFieldIndex::Key(k.to_string())
    }
}

/// What the steps of `p` from position `i` on yield on `d`.
pub open spec fn path_eval(p: JsonPath, i: int, d: Doc) -> Result<Doc, QueryError>
    decreases p, p.0@.len() - i, 0int,
{
    if i < 0 || i >= p.0@.len() {
        Ok(d)
    } else {
        match p.0@[i] {
            JsonField::Index(f) => match eval(f.as_query(), d) {
                Ok(Some(v)) => path_eval(p, i + 1, v),
                Ok(None) => Err(QueryError::MissingField),
                Err(e) => Err(e),
            },
            JsonField::List(m) => match paths_eval(m, d, m.0@.len() as int) {
                Ok(ys) => match rest_each(p, i + 1, ys) {
                    Ok(zs) => Ok(Doc::Array(zs)),
                    Err(e) => Err(e),
                },
                Err(e) => Err(e),
            },
            JsonField::Object(m) => match keyed_paths_eval(m, d, m.0@.len() as int) {
                Ok(fs) => match rest_each_entry(p, i + 1, fs) {
                    Ok(gs) => Ok(Doc::Object(gs)),
                    Err(e) => Err(e),
                },
                Err(e) => Err(e),
            },
        }
    }
}

/// The first `n` paths of `m`, each applied to `d`; the first failure wins.
pub open spec fn paths_eval(m: MultiVec<JsonPath>, d: Doc, n: int) -> Result<Seq<Doc>, QueryError>
    decreases m, n, 0int,
{
    if n <= 0 || n > m.0@.len() {
        Ok(Seq::empty())
    } else {
        match paths_eval(m, d, n - 1) {
            Ok(ys) => match path_eval(m.0@[n - 1], 0, d) {
                Ok(y) => Ok(ys.push(y)),
                Err(e) => Err(e),
            },
            Err(e) => Err(e),
        }
    }
}

/// The first `n` keyed paths of `m`, each applied to `d`, under their keys.
pub open spec fn keyed_paths_eval(m: MultiMap<JsonPath>, d: Doc, n: int) -> Result<
    Seq<(Seq<char>, Doc)>,
    QueryError,
>
    decreases m, n, 0int,
{
    if n <= 0 || n > m.0@.len() {
        Ok(Seq::empty())
    } else {
        match keyed_paths_eval(m, d, n - 1) {
            Ok(fs) => match path_eval(m.0@[n - 1].1, 0, d) {
                Ok(y) => Ok(fs.push((m.0@[n - 1].0@, y))),
                Err(e) => Err(e),
            },
            Err(e) => Err(e),
        }
    }
}

/// The steps of `p` from `i` on, applied to each of `ys`.
pub open spec fn rest_each(p: JsonPath, i: int, ys: Seq<Doc>) -> Result<Seq<Doc>, QueryError>
    decreases p, p.0@.len() - i, ys.len(),
{
    if ys.len() == 0 {
        Ok(Seq::empty())
    } else {
        match rest_each(p, i, ys.drop_last()) {
            Ok(zs) => match path_eval(p, i, ys.last()) {
                Ok(z) => Ok(zs.push(z)),
                Err(e) => Err(e),
            },
            Err(e) => Err(e),
        }
    }
}

/// The steps of `p` from `i` on, applied to the value of each of `fs`.
pub open spec fn rest_each_entry(p: JsonPath, i: int, fs: Seq<(Seq<char>, Doc)>) -> Result<
    Seq<(Seq<char>, Doc)>,
    QueryError,
>
    decreases p, p.0@.len() - i, fs.len(),
{
    if fs.len() == 0 {
        Ok(Seq::empty())
    } else {
        match rest_each_entry(p, i, fs.drop_last()) {
            Ok(gs) => match path_eval(p, i, fs.last().1) {
                Ok(z) => Ok(gs.push((fs.last().0, z))),
                Err(e) => Err(e),
            },
            Err(e) => Err(e),
        }
    }
}

proof fn lemma_paths_stop(m: MultiVec<JsonPath>, d: Doc, a: int, b: int)
    requires
        0 <= a <= b <= m.0@.len(),
        paths_eval(m, d, a) is Err,
    ensures
        paths_eval(m, d, b) == paths_eval(m, d, a),
    decreases b - a,
{
    if a < b {
        lemma_paths_stop(m, d, a, b - 1);
    }
}

proof fn lemma_keyed_paths_stop(m: MultiMap<JsonPath>, d: Doc, a: int, b: int)
    requires
        0 <= a <= b <= m.0@.len(),
        keyed_paths_eval(m, d, a) is Err,
    ensures
        keyed_paths_eval(m, d, b) == keyed_paths_eval(m, d, a),
    decreases b - a,
{
    if a < b {
        lemma_keyed_paths_stop(m, d, a, b - 1);
    }
}

proof fn lemma_rest_fails(p: JsonPath, i: int, ys: Seq<Doc>, a: int)
    requires
        0 <= a <= ys.len(),
        rest_each(p, i, ys.take(a)) is Err,
    ensures
        rest_each(p, i, ys) == rest_each(p, i, ys.take(a)),
    decreases ys.len(),
{
    if a == ys.len() {
        assert(ys.take(a) =~= ys);
    } else {
        assert(ys.drop_last().take(a) =~= ys.take(a));
        lemma_rest_fails(p, i, ys.drop_last(), a);
    }
}

proof fn lemma_rest_entries_fail(p: JsonPath, i: int, fs: Seq<(Seq<char>, Doc)>, a: int)
    requires
        0 <= a <= fs.len(),
        rest_each_entry(p, i, fs.take(a)) is Err,
    ensures
        rest_each_entry(p, i, fs) == rest_each_entry(p, i, fs.take(a)),
    decreases fs.len(),
{
    if a == fs.len() {
        assert(fs.take(a) =~= fs);
    } else {
        assert(fs.drop_last().take(a) =~= fs.take(a));
        lemma_rest_entries_fail(p, i, fs.drop_last(), a);
    }
}

proof fn lemma_paths_results(m: MultiVec<JsonPath>, d: Doc, n: int)
    requires
        0 <= n <= m.0@.len(),
        paths_eval(m, d, n) is Ok,
    ensures
        paths_eval(m, d, n)->Ok_0.len() == n,
        forall|j: int|
            0 <= j < n ==> path_eval(#[trigger] m.0@[j], 0, d) == Ok::<Doc, QueryError>(
                paths_eval(m, d, n)->Ok_0[j],
            ),
    decreases n,
{
    if n > 0 {
        lemma_paths_results(m, d, n - 1);
    }
}

proof fn lemma_keyed_paths_results(m: MultiMap<JsonPath>, d: Doc, n: int)
    requires
        0 <= n <= m.0@.len(),
        keyed_paths_eval(m, d, n) is Ok,
    ensures
        keyed_paths_eval(m, d, n)->Ok_0.len() == n,
        forall|j: int|
            0 <= j < n ==> keyed_paths_eval(m, d, n)->Ok_0[j].0 == (#[trigger] m.0@[j]).0@
                && path_eval(m.0@[j].1, 0, d) == Ok::<Doc, QueryError>(
                keyed_paths_eval(m, d, n)->Ok_0[j].1,
            ),
    decreases n,
{
    if n > 0 {
        lemma_keyed_paths_results(m, d, n - 1);
    }
}

proof fn lemma_rest_results(p: JsonPath, i: int, ys: Seq<Doc>)
    requires
        rest_each(p, i, ys) is Ok,
    ensures
        rest_each(p, i, ys)->Ok_0.len() == ys.len(),
        forall|j: int|
            0 <= j < ys.len() ==> path_eval(p, i, #[trigger] ys[j]) == Ok::<Doc, QueryError>(
                rest_each(p, i, ys)->Ok_0[j],
            ),
    decreases ys.len(),
{
    if ys.len() > 0 {
        let xs = ys.drop_last();
        lemma_rest_results(p, i, xs);
        assert forall|j: int| 0 <= j < ys.len() - 1 implies #[trigger] ys[j] == xs[j] by {}
    }
}

proof fn lemma_rest_entries_results(p: JsonPath, i: int, fs: Seq<(Seq<char>, Doc)>)
    requires
        rest_each_entry(p, i, fs) is Ok,
    ensures
        rest_each_entry(p, i, fs)->Ok_0.len() == fs.len(),
        forall|j: int|
            0 <= j < fs.len() ==> rest_each_entry(p, i, fs)->Ok_0[j].0 == (#[trigger] fs[j]).0
                && path_eval(p, i, fs[j].1) == Ok::<Doc, QueryError>(
                rest_each_entry(p, i, fs)->Ok_0[j].1,
            ),
    decreases fs.len(),
{
    if fs.len() > 0 {
        let es = fs.drop_last();
        lemma_rest_entries_results(p, i, es);
        assert forall|j: int| 0 <= j < fs.len() - 1 implies #[trigger] fs[j] == es[j] by {}
    }
}

/// A branching step with `k` paths yields an array of exactly `k`
/// elements: element `j` is what the rest of the path yields on what the
/// `j`-th branch selects, in the order of the branches. If any branch
/// fails, the whole path fails.
pub proof fn lemma_list_step(p: JsonPath, i: int, d: Doc)
    requires
        0 <= i < p.0@.len(),
        p.0@[i] is List,
    ensures
        ({
            let m = p.0@[i]->List_0;
            &&& path_eval(p, i, d) is Ok ==> match path_eval(p, i, d) {
                Ok(Doc::Array(zs)) => zs.len() == m.0@.len() && forall|j: int|
                    0 <= j < m.0@.len() ==> path_eval(#[trigger] m.0@[j], 0, d) is Ok
                        && path_eval(p, i + 1, path_eval(m.0@[j], 0, d)->Ok_0) == Ok::<
                        Doc,
                        QueryError,
                    >(zs[j]),
                _ => false,
            }
            &&& (exists|j: int| 0 <= j < m.0@.len() && path_eval(#[trigger] m.0@[j], 0, d) is Err)
                ==> path_eval(p, i, d) is Err
        }),
{
    let m = p.0@[i]->List_0;
    let k = m.0@.len() as int;
    if paths_eval(m, d, k) is Ok {
        lemma_paths_results(m, d, k);
        let ys = paths_eval(m, d, k)->Ok_0;
        if rest_each(p, i + 1, ys) is Ok {
            lemma_rest_results(p, i + 1, ys);
        }
    }
}

/// A keyed branching step yields an object with one entry per branch, in
/// the order of the branches: entry `j` carries the `j`-th key and what the
/// rest of the path yields on what the `j`-th branch selects. If any branch
/// fails, the whole path fails.
pub proof fn lemma_object_step(p: JsonPath, i: int, d: Doc)
    requires
        0 <= i < p.0@.len(),
        p.0@[i] is Object,
    ensures
        ({
            let m = p.0@[i]->Object_0;
            &&& path_eval(p, i, d) is Ok ==> match path_eval(p, i, d) {
                Ok(Doc::Object(gs)) => gs.len() == m.0@.len() && forall|j: int|
                    0 <= j < m.0@.len() ==> gs[j].0 == (#[trigger] m.0@[j]).0@ && path_eval(
                        m.0@[j].1,
                        0,
                        d,
                    ) is Ok && path_eval(p, i + 1, path_eval(m.0@[j].1, 0, d)->Ok_0) == Ok::<
                        Doc,
                        QueryError,
                    >(gs[j].1),
                _ => false,
            }
            &&& (exists|j: int| 0 <= j < m.0@.len() && path_eval((#[trigger] m.0@[j]).1, 0, d) is Err)
                ==> path_eval(p, i, d) is Err
        }),
{
    let m = p.0@[i]->Object_0;
    let k = m.0@.len() as int;
    if keyed_paths_eval(m, d, k) is Ok {
        lemma_keyed_paths_results(m, d, k);
        let fs = keyed_paths_eval(m, d, k)->Ok_0;
        if rest_each_entry(p, i + 1, fs) is Ok {
            lemma_rest_entries_results(p, i + 1, fs);
        }
    }
}

impl JsonPath {
    /// Applies the path to `n`.
    pub fn filter(&self, n: &Node) -> (r: Result<Node, QueryError>)
        ensures
            match r {
                Ok(v) => path_eval(*self, 0, n.view()) == Ok::<Doc, QueryError>(v.view()),
                Err(e) => path_eval(*self, 0, n.view()) == Err::<Doc, QueryError>(e),
            },
    {
        match walk(self, 0, n) {
            Ok(f) => Ok(f.into_owned()),
            Err(e) => Err(e),
        }
    }
}

/// The steps of `p` from `i` on, applied to `n`.
fn walk<'a>(p: &JsonPath, i: usize, n: &'a Node) -> (r: Result<Fragment<'a>, QueryError>)
    requires
        i <= p.0@.len(),
    ensures
        match r {
            Ok(f) => path_eval(*p, i as int, n.view()) == Ok::<Doc, QueryError>(f.view()),
            Err(e) => path_eval(*p, i as int, n.view()) == Err::<Doc, QueryError>(e),
        },
    decreases p, p.0@.len() - i, 2int,
{
    if i >= p.0.len() {
        return Ok(Fragment::Borrowed(n));
    }
    proof {
        vstd::std_specs::vec::axiom_vec_index_decreases(p.0, i as int);
        assert(decreases_to!(*p => p.0));
    }
    match &p.0[i] {
        JsonField::Index(JsonFieldIndex::List(k)) => match index(*k, n) {
            Ok(Some(f)) => walk_fragment(p, i + 1, f),
            Ok(None) => Err(QueryError::MissingField),
            Err(e) => Err(e),
        },
        JsonField::Index(JsonFieldIndex::Key(k)) => match key(k, n) {
            Ok(Some(f)) => walk_fragment(p, i + 1, f),
            Ok(None) => Err(QueryError::MissingField),
            Err(e) => Err(e),
        },
        JsonField::List(m) => {
            proof {
                assert(decreases_to!(p.0[i as int] => p.0[i as int]->List_0));
            }
            match walk_paths(m, n) {
                Ok(ys) => match rest_all(p, i + 1, &ys) {
                    Ok(zs) => Ok(Fragment::Owned(Node::Array(zs))),
                    Err(e) => Err(e),
                },
                Err(e) => Err(e),
            }
        },
        JsonField::Object(m) => {
            proof {
                assert(decreases_to!(p.0[i as int] => p.0[i as int]->Object_0));
            }
            match walk_keyed_paths(m, n) {
                Ok(fs) => match rest_all_entries(p, i + 1, &fs) {
                    Ok(gs) => Ok(Fragment::Owned(Node::Object(gs))),
                    Err(e) => Err(e),
                },
                Err(e) => Err(e),
            }
        },
    }
}

fn walk_fragment<'a>(p: &JsonPath, i: usize, f: Fragment<'a>) -> (r: Result<Fragment<'a>, QueryError>)
    requires
        i <= p.0@.len(),
    ensures
        match r {
            Ok(g) => path_eval(*p, i as int, f.view()) == Ok::<Doc, QueryError>(g.view()),
            Err(e) => path_eval(*p, i as int, f.view()) == Err::<Doc, QueryError>(e),
        },
    decreases p, p.0@.len() - i, 3int,
{
    match f {
        Fragment::Borrowed(m) => walk(p, i, m),
        Fragment::Owned(m) => match walk(p, i, &m) {
            Ok(g) => Ok(Fragment::Owned(g.into_owned())),
            Err(e) => Err(e),
        },
    }
}

fn walk_paths(m: &MultiVec<JsonPath>, n: &Node) -> (r: Result<Vec<Node>, QueryError>)
    ensures
        match r {
            Ok(ys) => paths_eval(*m, n.view(), m.0@.len() as int) == Ok::<Seq<Doc>, QueryError>(
                array_view(ys@),
            ),
            Err(e) => paths_eval(*m, n.view(), m.0@.len() as int) == Err::<Seq<Doc>, QueryError>(e),
        },
    decreases m, 0int, 0int,
{
    let mut out: Vec<Node> = Vec::new();
    let mut j: usize = 0;
    while j < m.0.len()
        invariant
            j <= m.0@.len(),
            paths_eval(*m, n.view(), j as int) == Ok::<Seq<Doc>, QueryError>(array_view(out@)),
        decreases m.0@.len() - j,
    {
        proof {
            vstd::std_specs::vec::axiom_vec_index_decreases(m.0, j as int);
            assert(decreases_to!(*m => m.0));
        }
        match walk(&m.0[j], 0, n) {
            Ok(f) => {
                let y = f.into_owned();
                proof {
                    lemma_array_view_push(out@, y);
                }
                out.push(y);
            },
            Err(e) => {
                proof {
                    lemma_paths_stop(*m, n.view(), j + 1, m.0@.len() as int);
                }
                return Err(e);
            },
        }
        j = j + 1;
    }
    Ok(out)
}

fn walk_keyed_paths(m: &MultiMap<JsonPath>, n: &Node) -> (r: Result<Vec<(String, Node)>, QueryError>)
    ensures
        match r {
            Ok(fs) => keyed_paths_eval(*m, n.view(), m.0@.len() as int) == Ok::<
                Seq<(Seq<char>, Doc)>,
                QueryError,
            >(object_view(fs@)),
            Err(e) => keyed_paths_eval(*m, n.view(), m.0@.len() as int) == Err::<
                Seq<(Seq<char>, Doc)>,
                QueryError,
            >(e),
        },
    decreases m, 0int, 0int,
{
    let mut out: Vec<(String, Node)> = Vec::new();
    let mut j: usize = 0;
    while j < m.0.len()
        invariant
            j <= m.0@.len(),
            keyed_paths_eval(*m, n.view(), j as int) == Ok::<Seq<(Seq<char>, Doc)>, QueryError>(
                object_view(out@),
            ),
        decreases m.0@.len() - j,
    {
        proof {
            vstd::std_specs::vec::axiom_vec_index_decreases(m.0, j as int);
            assert(decreases_to!(*m => m.0));
            assert(decreases_to!(m.0[j as int] => m.0[j as int].1));
        }
        match walk(&m.0[j].1, 0, n) {
            Ok(f) => {
                let e = (m.0[j].0.clone(), f.into_owned());
                proof {
                    lemma_object_view_push(out@, e);
                }
                out.push(e);
            },
            Err(e) => {
                proof {
                    lemma_keyed_paths_stop(*m, n.view(), j + 1, m.0@.len() as int);
                }
                return Err(e);
            },
        }
        j = j + 1;
    }
    Ok(out)
}

fn rest_all(p: &JsonPath, i: usize, ys: &Vec<Node>) -> (r: Result<Vec<Node>, QueryError>)
    requires
        i <= p.0@.len(),
    ensures
        match r {
            Ok(zs) => rest_each(*p, i as int, array_view(ys@)) == Ok::<Seq<Doc>, QueryError>(
                array_view(zs@),
            ),
            Err(e) => rest_each(*p, i as int, array_view(ys@)) == Err::<Seq<Doc>, QueryError>(e),
        },
    decreases p, p.0@.len() - i, 4int,
{
    let ghost xs = array_view(ys@);
    proof {
        lemma_array_view(ys@);
    }
    let mut out: Vec<Node> = Vec::new();
    let mut j: usize = 0;
    while j < ys.len()
        invariant
            i <= p.0@.len(),
            j <= ys@.len(),
            xs == array_view(ys@),
            xs.len() == ys@.len(),
            forall|x: int| 0 <= x < ys@.len() ==> #[trigger] xs[x] == ys@[x].view(),
            rest_each(*p, i as int, xs.take(j as int)) == Ok::<Seq<Doc>, QueryError>(array_view(out@)),
        decreases ys@.len() - j,
    {
        proof {
            assert(xs.take(j + 1).drop_last() =~= xs.take(j as int));
        }
        match walk(p, i, &ys[j]) {
            Ok(f) => {
                let z = f.into_owned();
                proof {
                    lemma_array_view_push(out@, z);
                }
                out.push(z);
            },
            Err(e) => {
                proof {
                    lemma_rest_fails(*p, i as int, xs, j + 1);
                }
                return Err(e);
            },
        }
        j = j + 1;
    }
    proof {
        assert(xs.take(j as int) =~= xs);
    }
    Ok(out)
}

fn rest_all_entries(p: &JsonPath, i: usize, fs: &Vec<(String, Node)>) -> (r: Result<
    Vec<(String, Node)>,
    QueryError,
>)
    requires
        i <= p.0@.len(),
    ensures
        match r {
            Ok(gs) => rest_each_entry(*p, i as int, object_view(fs@)) == Ok::<
                Seq<(Seq<char>, Doc)>,
                QueryError,
            >(object_view(gs@)),
            Err(e) => rest_each_entry(*p, i as int, object_view(fs@)) == Err::<
                Seq<(Seq<char>, Doc)>,
                QueryError,
            >(e),
        },
    decreases p, p.0@.len() - i, 4int,
{
    let ghost es = object_view(fs@);
    proof {
        lemma_object_view(fs@);
    }
    let mut out: Vec<(String, Node)> = Vec::new();
    let mut j: usize = 0;
    while j < fs.len()
        invariant
            i <= p.0@.len(),
            j <= fs@.len(),
            es == object_view(fs@),
            es.len() == fs@.len(),
            forall|x: int| 0 <= x < fs@.len() ==> #[trigger] es[x] == (fs@[x].0@, fs@[x].1.view()),
            rest_each_entry(*p, i as int, es.take(j as int)) == Ok::<
                Seq<(Seq<char>, Doc)>,
                QueryError,
            >(object_view(out@)),
        decreases fs@.len() - j,
    {
        proof {
            assert(es.take(j + 1).drop_last() =~= es.take(j as int));
        }
        match walk(p, i, &fs[j].1) {
            Ok(f) => {
                let e = (fs[j].0.clone(), f.into_owned());
                proof {
                    lemma_object_view_push(out@, e);
                }
                out.push(e);
            },
            Err(e) => {
                proof {
                    lemma_rest_entries_fail(*p, i as int, es, j + 1);
                }
                return Err(e);
            },
        }
        j = j + 1;
    }
    proof {
        assert(es.take(j as int) =~= es);
    }
    Ok(out)
}

} // verus!
