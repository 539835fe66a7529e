use vstd::prelude::*;

verus! {

/// The mathematical value of a scalar: integers lose the machine width
/// they were read with, other scalars keep their text.
pub enum Atom {
    Null,
    Bool(bool),
    Int(int),
    Float(Seq<char>),
    Str(Seq<char>),
}

/// The mathematical value of a document node.
pub enum Doc {
    Scalar(Atom),
    Array(Seq<Doc>),
    Object(Seq<(Seq<char>, Doc)>),
}

/// A leaf of a document, in the width the parser gave it.
/// A number that is neither a signed nor an unsigned 64-bit integer is
/// kept as the literal text the source gave for it.
#[derive(Clone, Debug)]
pub enum Scalar {
    Null,
    Bool(bool),
    I64(i64),
    U64(u64),
    Float(String),
    Str(String),
}

/// One node of a document. An object keeps its entries in source order,
/// repeated keys included, so that a lookup can notice a repeat.
#[derive(Debug)]
pub enum Node {
    Scalar(Scalar),
    Array(Vec<Node>),
    Object(Vec<(String, Node)>),
}

impl Scalar {
    pub open spec fn view(&self) -> Atom {
        match self {
            Scalar::Null => Atom::Null,
            Scalar::Bool(b) => Atom::Bool(*b),
            Scalar::I64(i) => Atom::Int(*i as int),
            Scalar::U64(u) => Atom::Int(*u as int),
            Scalar::Float(t) => Atom::Float(t@),
            Scalar::Str(s) => Atom::Str(s@),
        }
    }
}

impl Node {
    pub open spec fn view(&self) -> Doc
        decreases self,
    {
        match self {
            Node::Scalar(s) => Doc::Scalar(s.view()),
            Node::Array(v) => Doc::Array(array_view(v@)),
            Node::Object(v) => Doc::Object(object_view(v@)),
        }
    }
}

/// The values of a run of nodes.
pub open spec fn array_view(s: Seq<Node>) -> Seq<Doc>
    decreases s,
{
    if s.len() == 0 {
        Seq::empty()
    } else {
        array_view(s.subrange(0, s.len() - 1)).push(s[s.len() - 1].view())
    }
}

/// The values of a run of object entries, keys as character sequences.
pub open spec fn object_view(s: Seq<(String, Node)>) -> Seq<(Seq<char>, Doc)>
    decreases s,
{
    if s.len() == 0 {
        Seq::empty()
    } else {
        object_view(s.subrange(0, s.len() - 1)).push(
            (s[s.len() - 1].0@, s[s.len() - 1].1.view()),
        )
    }
}

pub proof fn lemma_array_view(s: Seq<Node>)
    ensures
        array_view(s).len() == s.len(),
        forall|i: int| 0 <= i < s.len() ==> #[trigger] array_view(s)[i] == s[i].view(),
    decreases s.len(),
{
    if s.len() > 0 {
        lemma_array_view(s.subrange(0, s.len() - 1));
    }
}

pub proof fn lemma_object_view(s: Seq<(String, Node)>)
    ensures
        object_view(s).len() == s.len(),
        forall|i: int|
            0 <= i < s.len() ==> #[trigger] object_view(s)[i] == (s[i].0@, s[i].1.view()),
    decreases s.len(),
{
    if s.len() > 0 {
        lemma_object_view(s.subrange(0, s.len() - 1));
    }
}

pub proof fn lemma_array_view_push(s: Seq<Node>, x: Node)
    ensures
        array_view(s.push(x)) == array_view(s).push(x.view()),
{
    assert(s.push(x).subrange(0, s.len() as int) =~= s);
}

pub proof fn lemma_object_view_push(s: Seq<(String, Node)>, x: (String, Node))
    ensures
        object_view(s.push(x)) == object_view(s).push((x.0@, x.1.view())),
{
    assert(s.push(x).subrange(0, s.len() as int) =~= s);
}

impl Scalar {
    /// An independent copy.
    pub fn copy(&self) -> (r: Scalar)
        ensures
            r.view() == self.view(),
    {
        match self {
            Scalar::Null => Scalar::Null,
            Scalar::Bool(b) => Scalar::Bool(*b),
            Scalar::I64(i) => Scalar::I64(*i),
            Scalar::U64(u) => Scalar::U64(*u),
            Scalar::Float(t) => Scalar::Float(t.clone()),
            Scalar::Str(t) => Scalar::Str(t.clone()),
        }
    }
}

impl Node {
    /// An independent copy of the whole subtree.
    pub fn copy(&self) -> (r: Node)
        ensures
            r.view() == self.view(),
        decreases self,
    {
        match self {
            Node::Scalar(s) => Node::Scalar(s.copy()),
            Node::Array(v) => {
                let mut out: Vec<Node> = Vec::new();
                let mut i: usize = 0;
                while i < v.len()
                    invariant
                        i <= v@.len(),
                        *self == Node::Array(*v),
                        array_view(out@) == array_view(v@.subrange(0, i as int)),
                    decreases v@.len() - i,
                {
                    proof {
                        vstd::std_specs::vec::axiom_vec_index_decreases(*v, i as int);
                        assert(decreases_to!(*self => self->Array_0));
                    }
                    let c = v[i].copy();
                    proof {
                        lemma_array_view_push(out@, c);
                        assert(v@.subrange(0, i + 1).subrange(0, i as int) =~= v@.subrange(0, i as int));
                    }
                    out.push(c);
                    i = i + 1;
                }
                assert(v@.subrange(0, v@.len() as int) =~= v@);
                Node::Array(out)
            },
            Node::Object(v) => {
                let mut out: Vec<(String, Node)> = Vec::new();
                let mut i: usize = 0;
                while i < v.len()
                    invariant
                        i <= v@.len(),
                        *self == Node::Object(*v),
                        object_view(out@) == object_view(v@.subrange(0, i as int)),
                    decreases v@.len() - i,
                {
                    proof {
                        vstd::std_specs::vec::axiom_vec_index_decreases(*v, i as int);
                        assert(decreases_to!(*self => self->Object_0));
                        assert(decreases_to!(v[i as int] => v[i as int].1));
                    }
                    let e = (v[i].0.clone(), v[i].1.copy());
                    proof {
                        lemma_object_view_push(out@, e);
                        assert(v@.subrange(0, i + 1).subrange(0, i as int) =~= v@.subrange(0, i as int));
                    }
                    out.push(e);
                    i = i + 1;
                }
                assert(v@.subrange(0, v@.len() as int) =~= v@);
                Node::Object(out)
            },
        }
    }
}

} // verus!
