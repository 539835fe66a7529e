use vstd::prelude::*;
use crate::doc::{lemma_array_view, lemma_object_view, array_view, object_view, Atom, Doc, Node, Scalar};
use crate::semantics::QueryError;
use vstd::string::StringExecFns;

verus! {

pub open spec fn hex_digit(d: int) -> char {
    if d < 10 { digit(d) } else if d == 10 { 'a' } else if d == 11 { 'b' } else if d == 12 { 'c' }
    else if d == 13 { 'd' } else if d == 14 { 'e' } else { 'f' }
}

/// How one character of a string appears inside a JSON string literal.
pub open spec fn escaped(c: char) -> Seq<char> {
    let u = c as u32;
    if c == '"' {
        seq!['\\', '"']
    } else if c == '\\' {
        seq!['\\', '\\']
    } else if u == 0x08 {
        seq!['\\', 'b']
    } else if u == 0x09 {
        seq!['\\', 't']
    } else if u == 0x0a {
        seq!['\\', 'n']
    } else if u == 0x0c {
        seq!['\\', 'f']
    } else if u == 0x0d {
        seq!['\\', 'r']
    } else if u < 0x20 {
        seq!['\\', 'u', '0', '0', hex_digit((u / 16) as int), hex_digit((u % 16) as int)]
    } else {
        seq![c]
    }
}

/// The characters of `s`, each escaped.
pub open spec fn escaped_all(s: Seq<char>) -> Seq<char>
    decreases s.len(),
{
    if s.len() == 0 {
        Seq::empty()
    } else {
        escaped_all(s.drop_last()) + escaped(s.last())
    }
}

/// The JSON string literal for `s`: quote marks round its escaped characters.
pub open spec fn quoted(s: Seq<char>) -> Seq<char> {
    seq!['"'] + escaped_all(s) + seq!['"']
}

pub open spec fn digit(d: int) -> char {
    if d == 0 { '0' } else if d == 1 { '1' } else if d == 2 { '2' } else if d == 3 { '3' }
    else if d == 4 { '4' } else if d == 5 { '5' } else if d == 6 { '6' } else if d == 7 { '7' }
    else if d == 8 { '8' } else { '9' }
}

/// The decimal digits of `n`, without leading zeros.
pub open spec fn digits(n: nat) -> Seq<char>
    decreases n,
{
    if n < 10 {
        seq![digit(n as int)]
    } else {
        digits(n / 10).push(digit((n % 10) as int))
    }
}

/// The decimal text of an integer, with a minus sign when negative.
pub open spec fn decimal(i: int) -> Seq<char> {
    if i < 0 {
        seq!['-'] + digits((-i) as nat)
    } else {
        digits(i as nat)
    }
}

pub open spec fn spaces(n: nat) -> Seq<char> {
    Seq::new(n, |_i: int| ' ')
}

pub open spec fn atom_text(a: Atom) -> Seq<char> {
    match a {
        Atom::Null => seq!['n', 'u', 'l', 'l'],
        Atom::Bool(b) => if b { seq!['t', 'r', 'u', 'e'] } else { seq!['f', 'a', 'l', 's', 'e'] },
        Atom::Int(i) => decimal(i),
        Atom::Float(t) => t,
        Atom::Str(s) => quoted(s),
    }
}

/// The pretty JSON text of `d` when it starts at indentation `ind`: two
/// spaces more for each level, one element or entry per line, `[]` and
/// `{}` for empty containers.
pub open spec fn pretty(d: Doc, ind: nat) -> Seq<char>
    decreases d,
{
    match d {
        Doc::Scalar(a) => atom_text(a),
        Doc::Array(xs) => if xs.len() == 0 {
            seq!['[', ']']
        } else {
            seq!['['] + items_text(xs, ind + 2) + seq!['\n'] + spaces(ind) + seq![']']
        },
        Doc::Object(es) => if es.len() == 0 {
            seq!['{', '}']
        } else {
            seq!['{'] + entries_text(es, ind + 2) + seq!['\n'] + spaces(ind) + seq!['}']
        },
    }
}

/// How many levels of non-empty arrays and objects `d` nests.
pub open spec fn depth(d: Doc) -> nat
    decreases d,
{
    match d {
        Doc::Scalar(_) => 0,
        Doc::Array(xs) => if xs.len() == 0 { 0 } else { 1 + items_depth(xs) },
        Doc::Object(es) => if es.len() == 0 { 0 } else { 1 + entries_depth(es) },
    }
}

/// The greatest depth among `xs`.
pub open spec fn items_depth(xs: Seq<Doc>) -> nat
    decreases xs,
{
    if xs.len() == 0 {
        0
    } else {
        let a = items_depth(xs.subrange(0, xs.len() - 1));
        let b = depth(xs[xs.len() - 1]);
        if a >= b { a } else { b }
    }
}

/// The greatest depth among the values of `es`.
pub open spec fn entries_depth(es: Seq<(Seq<char>, Doc)>) -> nat
    decreases es,
{
    if es.len() == 0 {
        0
    } else {
        let a = entries_depth(es.subrange(0, es.len() - 1));
        let b = depth(es[es.len() - 1].1);
        if a >= b { a } else { b }
    }
}

pub proof fn lemma_items_depth(xs: Seq<Doc>)
    ensures
        forall|i: int| 0 <= i < xs.len() ==> depth(#[trigger] xs[i]) <= items_depth(xs),
    decreases xs.len(),
{
    if xs.len() > 0 {
        let ys = xs.subrange(0, xs.len() - 1);
        lemma_items_depth(ys);
        assert forall|i: int| 0 <= i < xs.len() implies depth(#[trigger] xs[i]) <= items_depth(xs) by {
            if i < xs.len() - 1 {
                assert(xs[i] == ys[i]);
            }
        }
    }
}

pub proof fn lemma_entries_depth(es: Seq<(Seq<char>, Doc)>)
    ensures
        forall|i: int| 0 <= i < es.len() ==> depth(#[trigger] es[i].1) <= entries_depth(es),
    decreases es.len(),
{
    if es.len() > 0 {
        let fs = es.subrange(0, es.len() - 1);
        lemma_entries_depth(fs);
        assert forall|i: int| 0 <= i < es.len() implies depth(#[trigger] es[i].1) <= entries_depth(es) by {
            if i < es.len() - 1 {
                assert(es[i] == fs[i]);
            }
        }
    }
}

pub open spec fn separator(first: bool) -> Seq<char> {
    if first { seq!['\n'] } else { seq![',', '\n'] }
}

/// The elements of an array, each on a line of its own at indentation `ind`.
pub open spec fn items_text(xs: Seq<Doc>, ind: nat) -> Seq<char>
    decreases xs,
{
    if xs.len() == 0 {
        Seq::empty()
    } else {
        items_text(xs.subrange(0, xs.len() - 1), ind) + separator(xs.len() == 1) + spaces(ind)
            + pretty(xs[xs.len() - 1], ind)
    }
}

/// The entries of an object, each on a line of its own at indentation `ind`.
pub open spec fn entries_text(es: Seq<(Seq<char>, Doc)>, ind: nat) -> Seq<char>
    decreases es,
{
    if es.len() == 0 {
        Seq::empty()
    } else {
        entries_text(es.subrange(0, es.len() - 1), ind) + separator(es.len() == 1) + spaces(ind)
            + quoted(es[es.len() - 1].0) + seq![':', ' '] + pretty(es[es.len() - 1].1, ind)
    }
}

/// Relies on serde_json::to_string on a `str`: the JSON string literal
/// for `s`. It writes into a `Vec`, which cannot fail, so the result is
/// always there.
#[verifier::external_body]
fn quote(s: &str) -> (r: Option<String>)
    ensures
        r is Some,
        r matches Some(t) ==> t@ == quoted(s@),
{
    serde_json::to_string(s).ok()
}

/// Relies on serde_json::to_string on an `i64`: its decimal text. It
/// writes into a `Vec`, which cannot fail.
#[verifier::external_body]
fn signed_text(i: i64) -> (r: Option<String>)
    ensures
        r is Some,
        r matches Some(t) ==> t@ == decimal(i as int),
{
    serde_json::to_string(&i).ok()
}

/// Relies on serde_json::to_string on a `u64`: its decimal text. It
/// writes into a `Vec`, which cannot fail.
#[verifier::external_body]
fn unsigned_text(u: u64) -> (r: Option<String>)
    ensures
        r is Some,
        r matches Some(t) ==> t@ == decimal(u as int),
{
    serde_json::to_string(&u).ok()
}

/// Writes nodes as pretty JSON text into the string it holds.
pub struct SerWrapper(pub String);

impl SerWrapper {
    pub fn new() -> (r: SerWrapper)
        ensures
            r.0@ == Seq::<char>::empty(),
    {
        SerWrapper(String::new())
    }

    /// Everything written so far.
    pub fn into_string(self) -> (r: String)
        ensures
            r@ == self.0@,
    {
        self.0
    }

    fn put(&mut self, s: &str)
        ensures
            final(self).0@ == old(self).0@ + s@,
    {
        self.0.append(s);
    }

    fn indent(&mut self, n: usize)
        ensures
            final(self).0@ == old(self).0@ + spaces(n as nat),
    {
        let ghost start = self.0@;
        let mut k: usize = 0;
        while k < n
            invariant
                k <= n,
                self.0@ == start + spaces(k as nat),
            decreases n - k,
        {
            proof {
                reveal_strlit(" ");
                assert(spaces(k as nat) + seq![' '] =~= spaces((k + 1) as nat));
                assert(start + spaces(k as nat) + seq![' '] =~= start + spaces((k + 1) as nat));
            }
            self.put(" ");
            k = k + 1;
        }
    }

    fn scalar(&mut self, s: &Scalar) -> (r: Result<(), QueryError>)
        ensures
            r is Ok,
            final(self).0@ == old(self).0@ + atom_text(s.view()),
    {
        match s {
            Scalar::Null => {
                proof {
                    reveal_strlit("null");
                }
                self.put("null");
            },
            Scalar::Bool(b) => {
                if *b {
                    proof {
                        reveal_strlit("true");
                    }
                    self.put("true");
                } else {
                    proof {
                        reveal_strlit("false");
                    }
                    self.put("false");
                }
            },
            Scalar::I64(i) => match signed_text(*i) {
                Some(t) => self.put(t.as_str()),
                None => return Err(QueryError::Sink),
            },
            Scalar::U64(u) => match unsigned_text(*u) {
                Some(t) => self.put(t.as_str()),
                None => return Err(QueryError::Sink),
            },
            Scalar::Float(t) => self.put(t.as_str()),
            Scalar::Str(t) => match quote(t.as_str()) {
                Some(q) => self.put(q.as_str()),
                None => return Err(QueryError::Sink),
            },
        }
        Ok(())
    }

    /// Writes `n` as pretty JSON starting at indentation `ind`. Fails only
    /// where the deepest indentation would not fit in a `usize`.
    pub fn write_node(&mut self, n: &Node, ind: usize) -> (r: Result<(), QueryError>)
        ensures
            ind as nat + 2 * depth(n.view()) <= usize::MAX ==> r is Ok,
            r matches Ok(_) ==> final(self).0@ == old(self).0@ + pretty(n.view(), ind as nat),
            r matches Err(e) ==> e == QueryError::Sink,
        decreases n,
    {
        let ghost start = self.0@;
        match n {
            Node::Scalar(s) => self.scalar(s),
            Node::Array(v) => {
                let ghost xs = array_view(v@);
                proof {
                    lemma_array_view(v@);
                    lemma_items_depth(xs);
                    assert(n.view() == Doc::Array(xs));
                }
                if v.len() == 0 {
                    proof {
                        reveal_strlit("[]");
                    }
                    self.put("[]");
                    return Ok(());
                }
                if ind > usize::MAX - 2 {
                    return Err(QueryError::Sink);
                }
                let inner = ind + 2;
                proof {
                    reveal_strlit("[");
                }
                self.put("[");
                let mut j: usize = 0;
                while j < v.len()
                    invariant
                        j <= v@.len(),
                        inner == ind + 2,
                        *n == Node::Array(*v),
                        xs == array_view(v@),
                        xs.len() == v@.len(),
                        xs.len() > 0,
                        n.view() == Doc::Array(xs),
                        forall|x: int| 0 <= x < v@.len() ==> #[trigger] xs[x] == v@[x].view(),
                        forall|x: int| 0 <= x < xs.len() ==> depth(#[trigger] xs[x]) <= items_depth(xs),
                        self.0@ == start + seq!['['] + items_text(xs.take(j as int), inner as nat),
                    decreases v@.len() - j,
                {
                    proof {
                        vstd::std_specs::vec::axiom_vec_index_decreases(*v, j as int);
                        assert(decreases_to!(*n => n->Array_0));
                        assert(xs.take(j + 1).subrange(0, j as int) =~= xs.take(j as int));
                    }
                    if j == 0 {
                        proof {
                            reveal_strlit("\n");
                        }
                        self.put("\n");
                    } else {
                        proof {
                            reveal_strlit(",\n");
                        }
                        self.put(",\n");
                    }
                    self.indent(inner);
                    match self.write_node(&v[j], inner) {
                        Ok(()) => {},
                        Err(e) => return Err(e),
                    }
                    proof {
                        assert(self.0@ =~= start + seq!['['] + items_text(
                            xs.take(j + 1),
                            inner as nat,
                        ));
                    }
                    j = j + 1;
                }
                proof {
                    assert(xs.take(j as int) =~= xs);
                    reveal_strlit("\n");
                    reveal_strlit("]");
                }
                self.put("\n");
                self.indent(ind);
                self.put("]");
                proof {
                    assert(self.0@ =~= start + pretty(n.view(), ind as nat));
                }
                Ok(())
            },
            Node::Object(v) => {
                let ghost es = object_view(v@);
                proof {
                    lemma_object_view(v@);
                    lemma_entries_depth(es);
                    assert(n.view() == Doc::Object(es));
                }
                if v.len() == 0 {
                    proof {
                        reveal_strlit("{}");
                    }
                    self.put("{}");
                    return Ok(());
                }
                if ind > usize::MAX - 2 {
                    return Err(QueryError::Sink);
                }
                let inner = ind + 2;
                proof {
                    reveal_strlit("{");
                }
                self.put("{");
                let mut j: usize = 0;
                while j < v.len()
                    invariant
                        j <= v@.len(),
                        inner == ind + 2,
                        *n == Node::Object(*v),
                        es == object_view(v@),
                        es.len() == v@.len(),
                        es.len() > 0,
                        n.view() == Doc::Object(es),
                        forall|x: int| 0 <= x < es.len() ==> depth(#[trigger] es[x].1) <= entries_depth(es),
                        forall|x: int|
                            0 <= x < v@.len() ==> #[trigger] es[x] == (v@[x].0@, v@[x].1.view()),
                        self.0@ == start + seq!['{'] + entries_text(es.take(j as int), inner as nat),
                    decreases v@.len() - j,
                {
                    proof {
                        vstd::std_specs::vec::axiom_vec_index_decreases(*v, j as int);
                        assert(decreases_to!(*n => n->Object_0));
                        assert(decreases_to!(v[j as int] => v[j as int].1));
                        assert(es.take(j + 1).subrange(0, j as int) =~= es.take(j as int));
                    }
                    if j == 0 {
                        proof {
                            reveal_strlit("\n");
                        }
                        self.put("\n");
                    } else {
                        proof {
                            reveal_strlit(",\n");
                        }
                        self.put(",\n");
                    }
                    self.indent(inner);
                    match quote(v[j].0.as_str()) {
                        Some(k) => self.put(k.as_str()),
                        None => return Err(QueryError::Sink),
                    }
                    proof {
                        reveal_strlit(": ");
                    }
                    self.put(": ");
                    match self.write_node(&v[j].1, inner) {
                        Ok(()) => {},
                        Err(e) => return Err(e),
                    }
                    proof {
                        assert(self.0@ =~= start + seq!['{'] + entries_text(
                            es.take(j + 1),
                            inner as nat,
                        ));
                    }
                    j = j + 1;
                }
                proof {
                    assert(es.take(j as int) =~= es);
                    reveal_strlit("\n");
                    reveal_strlit("}");
                }
                self.put("\n");
                self.indent(ind);
                self.put("}");
                proof {
                    assert(self.0@ =~= start + pretty(n.view(), ind as nat));
                }
                Ok(())
            },
        }
    }
}

} // verus!
