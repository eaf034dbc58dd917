use vstd::prelude::*;

verus! {

/// The kinds of syntax elements that the layout rules tell apart.
#[derive(Clone, Copy, Debug, PartialEq, Eq, Structural)]
pub enum Kind {
    Root,
    AttrSet,
    KeyValue,
    Key,
    Inherit,
    InheritFrom,
    IdentNode,
    OtherNode,
    Rec,
    CurlyOpen,
    CurlyClose,
    Comment,
    Whitespace,
    Ident,
    OtherToken,
}

/// An element of a lossless syntax tree: an inner node with its children in
/// source order, or a token with its source text.

pub enum Element {
    Node(Kind, Vec<Element>),
    Token(Kind, Vec<char>),
}

impl Element {
    pub open spec fn kind(&self) -> Kind {
        match self {
            Element::Node(k, _) => *k,
            Element::Token(k, _) => *k,
        }
    }

    pub fn get_kind(&self) -> (r: Kind)
        ensures
            r == self.kind(),
    {
        match self {
            Element::Node(k, _) => *k,
            Element::Token(k, _) => *k,
        }
    }

    pub open spec fn is_token(&self) -> bool {
        self is Token
    }
}

/// The source text of an element: the texts of its tokens in order.
pub open spec fn text(e: Element) -> Seq<char>
    decreases e,
{
    match e {
        Element::Token(_, t) => t@,
        Element::Node(_, cs) => texts(cs@),
    }
}

/// The source texts of a sequence of elements, one after the other.
pub open spec fn texts(cs: Seq<Element>) -> Seq<char>
    decreases cs,
{
    if cs.len() == 0 {
        Seq::empty()
    } else {
        texts(cs.drop_last()) + text(cs.last())
    }
}

/// The number of elements in a tree.
pub open spec fn size(e: Element) -> nat
    decreases e,
{
    match e {
        Element::Token(_, _) => 1,
        Element::Node(_, cs) => 1 + sizes(cs@),
    }
}

/// The number of elements in a sequence of trees.
pub open spec fn sizes(cs: Seq<Element>) -> nat
    decreases cs,
{
    if cs.len() == 0 {
        0
    } else {
        sizes(cs.drop_last()) + size(cs.last())
    }
}

/// Each tree of a sequence is smaller than the sequence's total.
pub proof fn lemma_size_child(cs: Seq<Element>, i: int)
    requires
        0 <= i < cs.len(),
    ensures
        size(cs[i]) <= sizes(cs),
    decreases cs.len(),
{
    if i < cs.len() - 1 {
        lemma_size_child(cs.drop_last(), i);
    }
}

/// Whether a token is a comment or whitespace.
pub open spec fn is_trivia(e: Element) -> bool {
    e is Token && (e.kind() == Kind::Comment || e.kind() == Kind::Whitespace)
}

/// Returns the source text of an element.
pub fn element_text(e: &Element) -> (r: Vec<char>)
    ensures
        r@ == text(*e),
    decreases size(*e),
{
    match e {
        Element::Token(_, t) => t.clone(),
        Element::Node(_, cs) => {
            let mut out: Vec<char> = Vec::new();
            let mut i: usize = 0;
            while i < cs.len()
                invariant
                    i <= cs.len(),
                    size(*e) == 1 + sizes(cs@),
                    out@ == texts(cs@.take(i as int)),
                decreases cs.len() - i,
            {
                proof {
                    lemma_size_child(cs@, i as int);
                    assert(size(cs@[i as int]) < size(*e));
                }
                let mut t = element_text(&cs[i]);
                assert(cs@.take(i as int + 1).drop_last() == cs@.take(i as int));
                out.append(&mut t);
                i = i + 1;
            }
            assert(cs@.take(cs.len() as int) == cs@);
            out
        }
    }
}

} // verus!
