use vstd::prelude::*;
use crate::tree::{is_trivia, Element, Kind};

verus! {

/// A token of whitespace whose text holds a line break.
pub open spec fn is_newline_space(e: Element) -> bool {
    match e {
        Element::Token(Kind::Whitespace, t) => t@.contains('\n'),
        _ => false,
    }
}

/// A read-only cursor over the children of one node.
pub struct Children {
    pub pos: usize,
}

impl Children {
    pub fn new() -> (r: Children)
        ensures
            r.pos == 0,
    {
        Children { pos: 0 }
    }

    /// The next unconsumed child, if any, without advancing.
    pub fn peek_next<'a>(&self, cs: &'a Vec<Element>) -> (r: Option<&'a Element>)
        ensures
            self.pos < cs.len() ==> r == Some(&cs@[self.pos as int]),
            self.pos >= cs.len() ==> r is None,
    {
        if self.pos < cs.len() {
            Some(&cs[self.pos])
        } else {
            None
        }
    }

    /// Advances past the next child, if any.
    pub fn move_next(&mut self, cs: &Vec<Element>)
        ensures
            final(self).pos == if old(self).pos < cs.len() {
                old(self).pos + 1
            } else {
                old(self).pos as int
            },
    {
        if self.pos < cs.len() {
            self.pos = self.pos + 1;
        }
    }

    /// Whether a comment lies among the children not yet consumed.
    pub fn has_comments(&self, cs: &Vec<Element>) -> (r: bool)
        ensures
            r == exists|i: int| self.pos <= i < cs.len() && (#[trigger] cs@[i]).kind() == Kind::Comment,
    {
        let mut i: usize = self.pos;
        while i < cs.len()
            invariant
                self.pos <= i,
                forall|j: int| self.pos <= j < i ==> (#[trigger] cs@[j]).kind() != Kind::Comment,
            decreases cs.len() - i,
        {
            if cs[i].get_kind() == Kind::Comment {
                return true;
            }
            i = i + 1;
        }
        false
    }

    /// Whether a line break lies among the children not yet consumed.
    pub fn has_newlines(&self, cs: &Vec<Element>) -> (r: bool)
        ensures
            r == exists|i: int| self.pos <= i < cs.len() && is_newline_space(#[trigger] cs@[i]),
    {
        let mut i: usize = self.pos;
        while i < cs.len()
            invariant
                self.pos <= i,
                forall|j: int| self.pos <= j < i ==> !is_newline_space(#[trigger] cs@[j]),
            decreases cs.len() - i,
        {
            if let Element::Token(Kind::Whitespace, t) = &cs[i] {
                let mut k: usize = 0;
                while k < t.len()
                    invariant
                        self.pos <= i < cs.len(),
                        cs@[i as int] == Element::Token(Kind::Whitespace, *t),
                        forall|j: int| self.pos <= j < i ==> !is_newline_space(#[trigger] cs@[j]),
                        forall|m: int| 0 <= m < k ==> t@[m] != '\n',
                    decreases t.len() - k,
                {
                    if t[k] == '\n' {
                        assert(t@[k as int] == '\n');
                        assert(t@.contains('\n'));
                        assert(is_newline_space(cs@[i as int]));
                        return true;
                    }
                    k = k + 1;
                }
            }
            i = i + 1;
        }
        false
    }

    /// Consumes the comments and whitespace ahead, stopping at the first
    /// other child.
    pub fn drain_trivia(&mut self, cs: &Vec<Element>)
        ensures
            final(self).pos == first_non_trivia(cs@, old(self).pos as int),
    {
        while self.pos < cs.len() && is_trivia_element(&cs[self.pos])
            invariant
                first_non_trivia(cs@, old(self).pos as int) == first_non_trivia(cs@, self.pos as int),
            decreases cs.len() - self.pos,
        {
            self.pos = self.pos + 1;
        }
    }
}

/// Whether an element is a comment or whitespace token.
pub fn is_trivia_element(e: &Element) -> (r: bool)
    ensures
        r == is_trivia(*e),
{
    match e {
        Element::Token(k, _) => *k == Kind::Comment || *k == Kind::Whitespace,
        Element::Node(_, _) => false,
    }
}

/// The first position at or after `i` that holds no comment or whitespace;
/// the length where there is none.
pub open spec fn first_non_trivia(cs: Seq<Element>, i: int) -> int
    decreases cs.len() - i,
{
    if i < 0 || i >= cs.len() {
        i
    } else if is_trivia(cs[i]) {
        first_non_trivia(cs, i + 1)
    } else {
        i
    }
}

} // verus!
