use vstd::prelude::*;
pub use crate::config::FormattingOptions;
use crate::builder::{build, rendered, well_formed, BuildCtx, FormatError};
use crate::tree::{size, text, texts, Element, Kind};

verus! {

/// Possible results after formatting.
#[derive(Clone)]
pub enum Status {
    /// An error occurred, and its reason.
    Error(String),
    /// Formatting succeeded; the text changed or not according to the flag.
    Changed(bool),
}

/// One event of a preorder walk over a parsed tree: entering or leaving a
/// node or a token.
pub struct WalkStep {
    /// The name of the element's syntax kind, as the parser spells it.
    pub kind: String,
    /// The text of a token; empty for a node.
    pub text: Vec<char>,
    pub enter: bool,
    pub token: bool,
}

pub open spec fn walk_view(w: Seq<WalkStep>) -> Seq<(Seq<char>, Seq<char>, bool, bool)> {
    w.map_values(|s: WalkStep| (s.kind@, s.text@, s.enter, s.token))
}

/// What the Nix parser makes of a source text: its first error, or the
/// preorder walk of the syntax tree.
pub uninterp spec fn nix_parse(source: Seq<char>) -> Result<
    Seq<(Seq<char>, Seq<char>, bool, bool)>,
    Seq<char>,
>;

/// Relies on rnix::parse, rnix::AST::errors and rowan's
/// SyntaxNode::preorder_with_tokens: the first parse error, or the walk of
/// the tree, each a function of the source text alone.
#[verifier::external_body]
fn parse_walk(content: &String) -> (r: Result<Vec<WalkStep>, String>)
    ensures
        r is Ok ==> nix_parse(content@) == Ok::<_, Seq<char>>(walk_view(r->Ok_0@)),
        r is Err ==> nix_parse(content@) == Err::<Seq<(Seq<char>, Seq<char>, bool, bool)>, _>(
            r->Err_0@,
        ),
{
    let ast = rnix::parse(content);
    match ast.errors().first() {
        Some(error) => Err(error.to_string()),
        None => Ok(ast.node().preorder_with_tokens().map(|event| {
            let (el, enter) = match event {
                rnix::WalkEvent::Enter(el) => (el, true),
                rnix::WalkEvent::Leave(el) => (el, false),
            };
            let text = el.as_token().map_or(Vec::new(), |t| t.text().chars().collect());
            WalkStep { kind: format!("{:?}", el.kind()), token: el.as_token().is_some(), text, enter }
        }).collect()),
    }
}

/// Relies on str::chars: the characters of a string in order.
#[verifier::external_body]
fn chars_of(s: &String) -> (r: Vec<char>)
    ensures
        r@ == s@,
{
    s.chars().collect()
}

/// Relies on String's FromIterator<&char>: a string of the given characters.
#[verifier::external_body]
fn string_of(v: &Vec<char>) -> (r: String)
    ensures
        r@ == v@,
{
    v.iter().collect()
}

fn is_name(name: &String, lit: &str) -> (r: bool)
    ensures
        r == (name@ == lit@),
{
    *name == lit.to_owned()
}

/// The kind that a parser's kind name stands for; names that the layout
/// rules do not tell apart map to the catch-all kinds.
pub open spec fn kind_named(name: Seq<char>, token: bool) -> Kind {
    if token {
        if name == "TOKEN_REC"@ {
            Kind::Rec
        } else if name == "TOKEN_CURLY_B_OPEN"@ {
            Kind::CurlyOpen
        } else if name == "TOKEN_CURLY_B_CLOSE"@ {
            Kind::CurlyClose
        } else if name == "TOKEN_COMMENT"@ {
            Kind::Comment
        } else if name == "TOKEN_WHITESPACE"@ {
            Kind::Whitespace
        } else if name == "TOKEN_IDENT"@ {
            Kind::Ident
        } else {
            Kind::OtherToken
        }
    } else if name == "NODE_ROOT"@ {
        Kind::Root
    } else if name == "NODE_ATTR_SET"@ {
        Kind::AttrSet
    } else if name == "NODE_KEY_VALUE"@ {
        Kind::KeyValue
    } else if name == "NODE_KEY"@ {
        Kind::Key
    } else if name == "NODE_INHERIT"@ {
        Kind::Inherit
    } else if name == "NODE_INHERIT_FROM"@ {
        Kind::InheritFrom
    } else if name == "NODE_IDENT"@ {
        Kind::IdentNode
    } else {
        Kind::OtherNode
    }
}

/// The kind that a parser's kind name stands for.
fn kind_of_name(name: &String, token: bool) -> (r: Kind)
    ensures
        r == kind_named(name@, token),
{
    if token {
        if is_name(name, "TOKEN_REC") {
            Kind::Rec
        } else if is_name(name, "TOKEN_CURLY_B_OPEN") {
            Kind::CurlyOpen
        } else if is_name(name, "TOKEN_CURLY_B_CLOSE") {
            Kind::CurlyClose
        } else if is_name(name, "TOKEN_COMMENT") {
            Kind::Comment
        } else if is_name(name, "TOKEN_WHITESPACE") {
            Kind::Whitespace
        } else if is_name(name, "TOKEN_IDENT") {
            Kind::Ident
        } else {
            Kind::OtherToken
        }
    } else if is_name(name, "NODE_ROOT") {
        Kind::Root
    } else if is_name(name, "NODE_ATTR_SET") {
        Kind::AttrSet
    } else if is_name(name, "NODE_KEY_VALUE") {
        Kind::KeyValue
    } else if is_name(name, "NODE_KEY") {
        Kind::Key
    } else if is_name(name, "NODE_INHERIT") {
        Kind::Inherit
    } else if is_name(name, "NODE_INHERIT_FROM") {
        Kind::InheritFrom
    } else if is_name(name, "NODE_IDENT") {
        Kind::IdentNode
    } else {
        Kind::OtherNode
    }
}

/// One event of a walk as the layout sees it: the kind entered, a token's
/// text, whether it enters, and whether it is a token. Leaving carries
/// nothing.
pub open spec fn walk_event(s: (Seq<char>, Seq<char>, bool, bool)) -> (Kind, Seq<char>, bool, bool) {
    if s.2 {
        (kind_named(s.0, s.3), if s.3 {
            s.1
        } else {
            Seq::empty()
        }, true, s.3)
    } else {
        leave_event()
    }
}

pub open spec fn leave_event() -> (Kind, Seq<char>, bool, bool) {
    (Kind::OtherToken, Seq::empty(), false, false)
}

/// A parser's walk as the layout sees it.
pub open spec fn walk_events(w: Seq<(Seq<char>, Seq<char>, bool, bool)>) -> Seq<
    (Kind, Seq<char>, bool, bool),
> {
    w.map_values(|s: (Seq<char>, Seq<char>, bool, bool)| walk_event(s))
}

/// The preorder walk of a tree: entering it, the walks of its children,
/// leaving it.
pub open spec fn walk_of(e: Element) -> Seq<(Kind, Seq<char>, bool, bool)>
    decreases e,
{
    match e {
        Element::Token(k, t) => seq![(k, t@, true, true), leave_event()],
        Element::Node(k, cs) => seq![(k, Seq::<char>::empty(), true, false)] + walks_of(cs@)
            + seq![leave_event()],
    }
}

/// The walks of a sequence of trees, one after the other.
pub open spec fn walks_of(cs: Seq<Element>) -> Seq<(Kind, Seq<char>, bool, bool)>
    decreases cs,
{
    if cs.len() == 0 {
        Seq::empty()
    } else {
        walks_of(cs.drop_last()) + walk_of(cs.last())
    }
}

/// Whether the walk `w` holds the walk of tree `t` from position `pos`.
pub open spec fn walk_has_at(w: Seq<WalkStep>, pos: int, t: Element) -> bool {
    &&& 0 <= pos
    &&& pos + walk_of(t).len() <= w.len()
    &&& walk_events(walk_view(w).subrange(pos, pos + walk_of(t).len())) == walk_of(t)
}

proof fn lemma_walk_shape(t: Element)
    ensures
        walk_of(t).len() >= 2,
        walk_of(t)[0].2,
        walk_of(t)[0].3 == (t is Token),
        walk_of(t).last() == leave_event(),
{
}

proof fn lemma_walks_split(cs: Seq<Element>, j: int)
    requires
        0 <= j <= cs.len(),
    ensures
        walks_of(cs) == walks_of(cs.take(j)) + walks_of(cs.skip(j)),
    decreases cs.len() - j,
{
    if j < cs.len() {
        lemma_walks_split(cs, j + 1);
        assert(cs.take(j + 1).drop_last() =~= cs.take(j));
        assert(cs.skip(j).len() > 0);
        lemma_walks_first(cs.skip(j));
        assert(cs.skip(j).drop_first() =~= cs.skip(j + 1));
    } else {
        assert(cs.take(j) =~= cs);
        assert(walks_of(cs.skip(j)) =~= Seq::empty()) by {
            assert(cs.skip(j).len() == 0);
        }
    }
}

proof fn lemma_walks_first(cs: Seq<Element>)
    requires
        cs.len() > 0,
    ensures
        walks_of(cs) == walk_of(cs[0]) + walks_of(cs.drop_first()),
    decreases cs.len(),
{
    if cs.len() == 1 {
        assert(cs.drop_last() =~= Seq::<Element>::empty());
        assert(cs.drop_first() =~= Seq::<Element>::empty());
    } else {
        lemma_walks_first(cs.drop_last());
        assert(cs.drop_last().drop_first() =~= cs.drop_first().drop_last());
        assert(cs.drop_first().last() == cs.last());
    }
}

proof fn lemma_child_at(w: Seq<WalkStep>, pos: int, t: Element, j: int)
    requires
        walk_has_at(w, pos, t),
        t is Node,
        0 <= j <= t->Node_1@.len(),
    ensures
        j < t->Node_1@.len() ==> walk_has_at(
            w,
            pos + 1 + walks_of(t->Node_1@.take(j)).len(),
            t->Node_1@[j],
        ) && walks_of(t->Node_1@.take(j + 1)).len() == walks_of(t->Node_1@.take(j)).len()
            + walk_of(t->Node_1@[j]).len(),
        j < t->Node_1@.len() ==> pos + 1 + walks_of(t->Node_1@.take(j)).len() < w.len() && w[pos
            + 1 + walks_of(t->Node_1@.take(j)).len()].enter,
        j == t->Node_1@.len() ==> pos + 1 + walks_of(t->Node_1@.take(j)).len() < w.len()
            && !w[pos + 1 + walks_of(t->Node_1@.take(j)).len()].enter && pos + 2 + walks_of(
            t->Node_1@.take(j),
        ).len() == pos + walk_of(t).len(),
{
    let scs = t->Node_1@;
    let wt = walk_of(t);
    let big = walk_events(walk_view(w).subrange(pos, pos + wt.len()));
    let a = walks_of(scs.take(j));
    let p = pos + 1 + a.len();
    lemma_walks_split(scs, j);
    assert(wt == seq![(t->Node_0, Seq::<char>::empty(), true, false)] + walks_of(scs) + seq![
        leave_event(),
    ]);
    if j < scs.len() {
        lemma_walks_first(scs.skip(j));
        assert(scs.skip(j)[0] == scs[j]);
        let lj = walk_of(scs[j]).len() as int;
        assert(walk_events(walk_view(w).subrange(p, p + lj)) =~= big.subrange(p - pos, p - pos + lj));
        assert(wt.subrange(1 + a.len() as int, 1 + a.len() as int + lj as int) =~= walk_of(scs[j]));
        assert(scs.take(j + 1).drop_last() =~= scs.take(j));
        lemma_walk_shape(scs[j]);
        let small = walk_events(walk_view(w).subrange(p, p + lj));
        assert(small[0] == walk_event(walk_view(w)[p]));
    } else {
        assert(scs.take(j) =~= scs);
        assert(big[wt.len() - 1] == leave_event());
        assert(big[wt.len() - 1] == walk_event(walk_view(w)[p]));
    }
}

/// The texts of the tokens entered in `[from, to)` of a walk, in order.
pub open spec fn walk_text(w: Seq<WalkStep>, from: int, to: int) -> Seq<char>
    decreases to - from,
{
    if to <= from {
        Seq::empty()
    } else {
        walk_text(w, from, to - 1) + if w[to - 1].enter && w[to - 1].token {
            w[to - 1].text@
        } else {
            Seq::empty()
        }
    }
}

proof fn lemma_walk_text_split(w: Seq<WalkStep>, a: int, b: int, c: int)
    requires
        a <= b <= c,
    ensures
        walk_text(w, a, c) == walk_text(w, a, b) + walk_text(w, b, c),
    decreases c - b,
{
    if b < c {
        lemma_walk_text_split(w, a, b, c - 1);
        assert(walk_text(w, a, c) =~= walk_text(w, a, b) + walk_text(w, b, c));
    } else {
        assert(walk_text(w, b, c) =~= Seq::<char>::empty());
        assert(walk_text(w, a, c) =~= walk_text(w, a, b) + walk_text(w, b, c));
    }
}

/// Reads the element whose walk starts at `pos`, and returns it with the
/// position just past its walk.
fn read_element(walk: &Vec<WalkStep>, pos: usize, Ghost(shape): Ghost<Element>) -> (r: Option<
    (Element, usize),
>)
    ensures
        walk_has_at(walk@, pos as int, shape) ==> (r matches Some((_, next)) && next == pos
            + walk_of(shape).len()),
        r matches Some((e, next)) ==> pos < next <= walk.len() && text(e) == walk_text(
            walk@,
            pos as int,
            next as int,
        ) && e.kind() == kind_named(walk@[pos as int].kind@, walk@[pos as int].token)
            && e.is_token() == walk@[pos as int].token && walk_of(e) == walk_events(
            walk_view(walk@).subrange(pos as int, next as int),
        ),
    decreases walk.len() - pos,
{
    proof {
        if walk_has_at(walk@, pos as int, shape) {
            lemma_walk_shape(shape);
            let big = walk_events(walk_view(walk@).subrange(pos as int, pos + walk_of(shape).len()));
            assert(big[0] == walk_event(walk_view(walk@)[pos as int]));
            if shape is Token {
                assert(big[1] == walk_event(walk_view(walk@)[pos + 1]));
            }
        }
    }
    if pos >= walk.len() || !walk[pos].enter {
        return None;
    }
    let kind = kind_of_name(&walk[pos].kind, walk[pos].token);
    if walk[pos].token {
        if pos + 1 < walk.len() && !walk[pos + 1].enter {
            assert(walk_text(walk@, pos as int, pos as int) =~= Seq::<char>::empty());
            assert(walk_text(walk@, pos as int, pos + 1) =~= walk@[pos as int].text@);
            assert(walk_text(walk@, pos as int, pos + 2) =~= walk@[pos as int].text@);
            assert(walk_events(walk_view(walk@).subrange(pos as int, pos + 2)) =~= seq![
                (kind, walk@[pos as int].text@, true, true),
                leave_event(),
            ]);
            return Some((Element::Token(kind, walk[pos].text.clone()), pos + 2));
        }
        return None;
    }
    let mut children: Vec<Element> = Vec::new();
    let mut p: usize = pos + 1;
    let ghost mut j: int = 0;
    let ghost found = walk_has_at(walk@, pos as int, shape);
    proof {
        if found {
            assert(shape->Node_1@.take(0) =~= Seq::<Element>::empty());
        }
    }
    assert(walk_text(walk@, pos + 1, pos + 1) =~= Seq::<char>::empty());
    assert(walks_of(children@) =~= Seq::empty());
    assert(walk_events(walk_view(walk@).subrange(pos + 1, pos + 1)) =~= Seq::empty());
    assert(texts(children@) =~= Seq::<char>::empty());
    while p < walk.len() && walk[p].enter
        invariant
            pos < p <= walk.len(),
            texts(children@) == walk_text(walk@, pos + 1, p as int),
            walks_of(children@) == walk_events(walk_view(walk@).subrange(pos + 1, p as int)),
            found == walk_has_at(walk@, pos as int, shape),
            found ==> shape is Node && 0 <= j <= shape->Node_1@.len() && p == pos + 1 + walks_of(
                shape->Node_1@.take(j),
            ).len(),
        decreases walk.len() - p,
    {
        let ghost child_shape = if found && j < shape->Node_1@.len() {
            shape->Node_1@[j]
        } else {
            shape
        };
        proof {
            if found {
                lemma_child_at(walk@, pos as int, shape, j);
            }
        }
        match read_element(walk, p, Ghost(child_shape)) {
            Some((child, next)) => {
                let ghost before = children@;
                children.push(child);
                proof {
                    assert(children@.drop_last() == before);
                    lemma_walk_text_split(walk@, pos + 1, p as int, next as int);
                    assert(walk_events(walk_view(walk@).subrange(pos + 1, next as int))
                        =~= walk_events(walk_view(walk@).subrange(pos + 1, p as int))
                        + walk_events(walk_view(walk@).subrange(p as int, next as int)));
                }
                p = next;
                proof {
                    j = j + 1;
                }
            },
            None => {
                return None;
            },
        }
    }
    proof {
        if found {
            lemma_child_at(walk@, pos as int, shape, j);
        }
    }
    if p < walk.len() {
        proof {
            lemma_walk_text_split(walk@, pos as int, pos + 1, p as int);
            lemma_walk_text_split(walk@, pos as int, p as int, p + 1);
            assert(walk_text(walk@, pos as int, pos as int) =~= Seq::<char>::empty());
            assert(walk_text(walk@, pos as int, pos + 1) =~= Seq::<char>::empty());
            assert(walk_text(walk@, p as int, p as int) =~= Seq::<char>::empty());
            assert(walk_text(walk@, p as int, p + 1) =~= Seq::<char>::empty());
            assert(walk_events(walk_view(walk@).subrange(pos as int, p + 1)) =~= seq![
                (kind, Seq::<char>::empty(), true, false),
            ] + walk_events(walk_view(walk@).subrange(pos + 1, p as int)) + seq![leave_event()]);
        }
        Some((Element::Node(kind, children), p + 1))
    } else {
        None
    }
}

/// Rebuilds a syntax tree from its preorder walk; `None` where the walk is
/// not the walk of a single tree. The tree's text is the text of the tokens
/// of the walk, in order.
pub fn tree_from_walk(walk: &Vec<WalkStep>) -> (r: Option<Element>)
    ensures
        r matches Some(root) ==> text(root) == walk_text(walk@, 0, walk.len() as int) && walk_of(
            root,
        ) == walk_events(walk_view(walk@)),
        (exists|t: Element| walk_of(t) == walk_events(walk_view(walk@))) ==> r is Some,
{
    let ghost shape = choose|t: Element| walk_of(t) == walk_events(walk_view(walk@));
    proof {
        if walk_of(shape) == walk_events(walk_view(walk@)) {
            assert(walk_view(walk@).subrange(0, walk_of(shape).len() as int) =~= walk_view(walk@));
        }
    }
    match read_element(walk, 0, Ghost(shape)) {
        Some((root, end)) => {
            if end == walk.len() {
                assert(walk_view(walk@).subrange(0, end as int) =~= walk_view(walk@));
                Some(root)
            } else {
                None
            }
        },
        None => None,
    }
}

/// Formats a syntax tree from a fresh context: no indentation, no layout
/// asked of the root. A tree whose sets all have their braces is formatted
/// without error, and the result is its rendering.
pub fn format_tree(path: String, root: &Element, options: FormattingOptions) -> (r: Result<
    Vec<char>,
    FormatError,
>)
    ensures
        well_formed(*root) && size(*root) <= usize::MAX ==> r is Ok,
        r is Ok ==> r->Ok_0@ == rendered(*root, 0, options),
{
    let mut ctx = BuildCtx { indentation: 0, vertical: false, path, options };
    build(&mut ctx, root)
}

/// Whether two texts are the same.
fn same_text(a: &Vec<char>, b: &Vec<char>) -> (r: bool)
    ensures
        r == (a@ == b@),
{
    if a.len() != b.len() {
        return false;
    }
    let mut i: usize = 0;
    while i < a.len()
        invariant
            a.len() == b.len(),
            i <= a.len(),
            forall|j: int| 0 <= j < i ==> a@[j] == b@[j],
        decreases a.len() - i,
    {
        if a[i] != b[i] {
            return false;
        }
        i = i + 1;
    }
    assert(a@ =~= b@);
    true
}

/// The outcome of formatting `before` into `after`.
pub fn status_of(before: &Vec<char>, after: &Vec<char>) -> (r: Status)
    ensures
        r == Status::Changed(before@ != after@),
{
    Status::Changed(!same_text(before, after))
}

/// Whether a file has to be written back after formatting: only where the
/// caller asked for it and formatting changed the text.
pub fn needs_write(status: &Status, in_place: bool) -> (r: bool)
    ensures
        r == (in_place && status matches Status::Changed(true)),
{
    match status {
        Status::Changed(changed) => in_place && *changed,
        Status::Error(_) => false,
    }
}

/// Formats the content of `content` in memory, naming `path` in messages.
/// A parse error comes back with the text unchanged. Otherwise the text is
/// the rendering of the tree that the parser walked, and the status says
/// whether it differs from the input. The walk fails to rebuild only where no
/// tree has it, and the layout engine fails only on a tree with an attribute
/// set that lacks a brace, or one too large to indent.
pub fn in_memory(path: String, content: String, options: FormattingOptions) -> (r: (
    Status,
    String,
))
    ensures
        nix_parse(content@) is Err ==> r.0 is Error && r.0->Error_0@ == nix_parse(content@)->Err_0
            && r.1@ == content@,
        r.0 is Changed ==> nix_parse(content@) is Ok && r.0->Changed_0 == (r.1@ != content@)
            && exists|t: Element|
            walk_of(t) == walk_events(nix_parse(content@)->Ok_0) && r.1@ == rendered(
                t,
                0,
                options,
            ),
        r.0 is Error ==> r.1@ == content@,
        nix_parse(content@) is Ok && r.0 is Error ==> r.0->Error_0@ == "the parser produced no single tree"@
            || r.0->Error_0@ == "the layout engine met a malformed tree"@,
        nix_parse(content@) is Ok && r.0 is Error && r.0->Error_0@
            == "the parser produced no single tree"@ ==> !exists|t: Element|
            walk_of(t) == walk_events(nix_parse(content@)->Ok_0),
        nix_parse(content@) is Ok && r.0 is Error && r.0->Error_0@
            == "the layout engine met a malformed tree"@ ==> exists|t: Element|
            walk_of(t) == walk_events(nix_parse(content@)->Ok_0) && !(well_formed(t) && size(t)
                <= usize::MAX),
{
    let walk = match parse_walk(&content) {
        Ok(walk) => walk,
        Err(message) => {
            return (Status::Error(message), content);
        },
    };
    let root = match tree_from_walk(&walk) {
        Some(root) => {
            proof {
                reveal_strlit("the parser produced no single tree");
                reveal_strlit("the layout engine met a malformed tree");
                assert("the parser produced no single tree"@[4] != "the layout engine met a malformed tree"@[4]);
            }
            root
        },
        None => {
            proof {
                reveal_strlit("the parser produced no single tree");
                reveal_strlit("the layout engine met a malformed tree");
                assert("the parser produced no single tree"@[4] != "the layout engine met a malformed tree"@[4]);
            }
            return (Status::Error("the parser produced no single tree".to_owned()), content);
        },
    };
    let before = chars_of(&content);
    match format_tree(path, &root, options) {
        Ok(after) => (status_of(&before, &after), string_of(&after)),
        Err(_) => (Status::Error("the layout engine met a malformed tree".to_owned()), content),
    }
}

} // verus!
