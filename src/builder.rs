use vstd::prelude::*;
use crate::attr_set::{lemma_set_steps_ok, set_is_complete, set_is_vertical, set_order, set_steps};
use crate::config::FormattingOptions;
use crate::tree::{lemma_size_child, size, sizes, text, Element, Kind};

verus! {

/// One layout instruction produced by a rule. `Format` and `FormatWider`
/// name a child of the node being laid out by its position.
pub enum Step {
    /// Render the child with the current context.
    Format(usize),
    /// Render the child and let it choose its own layout.
    FormatWider(usize),
    NewLine,
    /// Indentation whitespace: two spaces for each level.
    Pad,
    Indent,
    Dedent,
    /// A single space.
    Whitespace,
    /// The comment at a child position, verbatim.
    Comment(usize),
}

/// An internal contract violation of the layout engine.
#[derive(Clone, Copy, Debug, PartialEq, Eq, Structural)]
pub enum FormatError {
    /// A node lacks a child that its rule needs.
    MalformedNode,
    /// A step names a child that the node does not have.
    MissingChild,
    /// A `Dedent` below level zero, or an `Indent` past the largest level.
    UnbalancedIndentation,
}

/// The context threaded through one formatting run.
pub struct BuildCtx {
    /// The current nesting depth.
    pub indentation: usize,
    /// Whether an ancestor committed to a multi-line layout.
    pub vertical: bool,
    /// A label for diagnostics.
    pub path: String,
    pub options: FormattingOptions,
}

pub open spec fn step_delta(s: Step) -> int {
    match s {
        Step::Indent => 1,
        Step::Dedent => -1,
        _ => 0,
    }
}

/// The net change of indentation of a sequence of steps.
pub open spec fn depth_delta(steps: Seq<Step>) -> int
    decreases steps.len(),
{
    if steps.len() == 0 {
        0
    } else {
        depth_delta(steps.drop_last()) + step_delta(steps.last())
    }
}

/// Appends a step.
pub fn push_step(steps: &mut Vec<Step>, s: Step)
    ensures
        final(steps)@ == old(steps)@.push(s),
        depth_delta(final(steps)@) == depth_delta(old(steps)@) + step_delta(s),
        final(steps)@.contains(Step::Indent) == (old(steps)@.contains(Step::Indent) || s
            == Step::Indent),
{
    let ghost prev = steps@;
    steps.push(s);
    proof {
        assert(steps@.drop_last() == prev);
        if prev.contains(Step::Indent) {
            let j = choose|j: int| 0 <= j < prev.len() && prev[j] == Step::Indent;
            assert(steps@[j] == Step::Indent);
        }
        if steps@.contains(Step::Indent) && !prev.contains(Step::Indent) {
            let j = choose|j: int| 0 <= j < steps@.len() && steps@[j] == Step::Indent;
            if j < prev.len() {
                assert(prev[j] == Step::Indent);
            }
        }
        if s == Step::Indent {
            assert(steps@[prev.len() as int] == Step::Indent);
        }
    }
}

/// Indentation whitespace for a level: two spaces each.
pub open spec fn indent_text(level: int) -> Seq<char> {
    Seq::new((2 * level) as nat, |i: int| ' ')
}

/// The steps that lay out a node: an attribute set by its rule, any other
/// node by formatting each child in order.
pub open spec fn node_steps(k: Kind, cs: Seq<Element>, options: FormattingOptions) -> Seq<Step> {
    if k == Kind::AttrSet {
        set_steps(cs, set_is_vertical(cs), set_order(cs, options))
    } else {
        Seq::new(cs.len(), |i: int| Step::Format(i as usize))
    }
}

/// How an element renders at indentation `level`: a token as its text, a
/// node as the text of its layout steps.
pub open spec fn rendered(e: Element, level: int, options: FormattingOptions) -> Seq<char>
    decreases size(e), 0nat,
{
    match e {
        Element::Token(_, t) => t@,
        Element::Node(k, cs) => steps_rendered(cs@, node_steps(k, cs@, options), level, options),
    }
}

/// The text that a sequence of steps over the children `cs` emits from
/// indentation `level`, each named child rendered in turn.
pub open spec fn steps_rendered(
    cs: Seq<Element>,
    steps: Seq<Step>,
    level: int,
    options: FormattingOptions,
) -> Seq<char>
    decreases sizes(cs), steps.len(),
{
    if steps.len() == 0 {
        Seq::empty()
    } else {
        let lv = level + depth_delta(steps.drop_last());
        steps_rendered(cs, steps.drop_last(), level, options) + match steps.last() {
            Step::Format(i) => if i < cs.len() && size(cs[i as int]) <= sizes(cs) {
                rendered(cs[i as int], lv, options)
            } else {
                Seq::empty()
            },
            Step::FormatWider(i) => if i < cs.len() && size(cs[i as int]) <= sizes(cs) {
                rendered(cs[i as int], lv, options)
            } else {
                Seq::empty()
            },
            Step::NewLine => seq!['\n'],
            Step::Pad => indent_text(lv),
            Step::Whitespace => seq![' '],
            Step::Comment(i) => if i < cs.len() {
                text(cs[i as int])
            } else {
                Seq::empty()
            },
            _ => Seq::empty(),
        }
    }
}

/// Whether every attribute set in a tree has the children its layout needs.
pub open spec fn well_formed(e: Element) -> bool
    decreases e,
{
    match e {
        Element::Token(_, _) => true,
        Element::Node(k, cs) => (k == Kind::AttrSet ==> set_is_complete(cs@)) && all_well_formed(
            cs@,
        ),
    }
}

/// Whether every tree of a sequence is well formed.
pub open spec fn all_well_formed(cs: Seq<Element>) -> bool
    decreases cs,
{
    if cs.len() == 0 {
        true
    } else {
        all_well_formed(cs.drop_last()) && well_formed(cs.last())
    }
}

pub proof fn lemma_well_formed_child(cs: Seq<Element>, i: int)
    requires
        0 <= i < cs.len(),
        all_well_formed(cs),
    ensures
        well_formed(cs[i]),
    decreases cs.len(),
{
    if i < cs.len() - 1 {
        lemma_well_formed_child(cs.drop_last(), i);
    }
}

/// Whether a step can run at indentation `level` over the children `cs`:
/// a child it names exists, is well formed and fits below the largest
/// level; an `Indent` has room and a `Dedent` has a level to leave.
pub open spec fn step_ok(cs: Seq<Element>, s: Step, level: int) -> bool {
    &&& 0 <= level
    &&& match s {
        Step::Format(c) => c < cs.len() && well_formed(cs[c as int]) && level + size(cs[c as int])
            <= usize::MAX,
        Step::FormatWider(c) => c < cs.len() && well_formed(cs[c as int]) && level + size(
            cs[c as int],
        ) <= usize::MAX,
        Step::Comment(c) => c < cs.len(),
        Step::Indent => level < usize::MAX,
        Step::Dedent => level >= 1,
        _ => true,
    }
}

/// Whether each step of a sequence can run at the level it is reached at.
#[verifier::opaque]
pub open spec fn steps_ok(cs: Seq<Element>, steps: Seq<Step>, level: int) -> bool {
    forall|i: int|
        0 <= i < steps.len() ==> step_ok(cs, #[trigger] steps[i], level + depth_delta(steps.take(i)))
}

pub proof fn lemma_delta_concat(a: Seq<Step>, b: Seq<Step>)
    ensures
        depth_delta(a + b) == depth_delta(a) + depth_delta(b),
    decreases b.len(),
{
    if b.len() > 0 {
        lemma_delta_concat(a, b.drop_last());
        assert((a + b).drop_last() =~= a + b.drop_last());
    } else {
        assert(a + b =~= a);
    }
}

pub proof fn lemma_ok_concat(cs: Seq<Element>, a: Seq<Step>, b: Seq<Step>, level: int)
    requires
        steps_ok(cs, a, level),
        steps_ok(cs, b, level + depth_delta(a)),
    ensures
        steps_ok(cs, a + b, level),
{
    reveal(steps_ok);
    assert forall|i: int| 0 <= i < (a + b).len() implies step_ok(
        cs,
        #[trigger] (a + b)[i],
        level + depth_delta((a + b).take(i)),
    ) by {
        if i < a.len() {
            assert((a + b).take(i) =~= a.take(i));
            assert((a + b)[i] == a[i]);
        } else {
            let k = i - a.len();
            assert((a + b).take(i) =~= a + b.take(k));
            lemma_delta_concat(a, b.take(k));
            assert((a + b)[i] == b[k]);
        }
    }
}

pub proof fn lemma_single_delta(s: Step)
    ensures
        depth_delta(seq![s]) == step_delta(s),
{
    assert(seq![s].drop_last() =~= Seq::<Step>::empty());
    assert(depth_delta(Seq::<Step>::empty()) == 0);
}

/// A sequence of at most one step can run where its step can.
pub proof fn lemma_short_ok(cs: Seq<Element>, s: Seq<Step>, level: int)
    requires
        s.len() <= 1,
        s.len() == 1 ==> step_ok(cs, s[0], level),
    ensures
        steps_ok(cs, s, level),
{
    reveal(steps_ok);
    if s.len() == 1 {
        assert(s.take(0) =~= Seq::<Step>::empty());
    }
}

pub open spec fn is_flat(s: Step) -> bool {
    s != Step::Indent && s != Step::Dedent
}

pub proof fn lemma_flat_delta(s: Seq<Step>)
    requires
        forall|i: int| 0 <= i < s.len() ==> is_flat(#[trigger] s[i]),
    ensures
        depth_delta(s) == 0,
    decreases s.len(),
{
    if s.len() > 0 {
        lemma_flat_delta(s.drop_last());
    }
}

/// Steps that leave the level alone can each run at that level.
pub proof fn lemma_flat_ok(cs: Seq<Element>, s: Seq<Step>, level: int)
    requires
        forall|i: int| 0 <= i < s.len() ==> is_flat(#[trigger] s[i]) && step_ok(cs, s[i], level),
    ensures
        steps_ok(cs, s, level),
{
    reveal(steps_ok);
    assert forall|i: int| 0 <= i < s.len() implies step_ok(
        cs,
        #[trigger] s[i],
        level + depth_delta(s.take(i)),
    ) by {
        lemma_flat_delta(s.take(i));
    }
}

/// Formats each child in order.
fn format_all(n: usize) -> (r: Vec<Step>)
    ensures
        r@ == Seq::new(n as nat, |i: int| Step::Format(i as usize)),
{
    let mut r: Vec<Step> = Vec::new();
    let mut i: usize = 0;
    while i < n
        invariant
            i <= n,
            r@ == Seq::new(i as nat, |j: int| Step::Format(j as usize)),
        decreases n - i,
    {
        r.push(Step::Format(i));
        i = i + 1;
        assert(r@ =~= Seq::new(i as nat, |j: int| Step::Format(j as usize)));
    }
    r
}

proof fn lemma_format_all_ok(cs: Seq<Element>, level: int)
    requires
        0 <= level,
        cs.len() <= usize::MAX,
        all_well_formed(cs),
        level + sizes(cs) <= usize::MAX,
    ensures
        steps_ok(cs, Seq::new(cs.len(), |i: int| Step::Format(i as usize)), level),
{
    let s = Seq::new(cs.len(), |i: int| Step::Format(i as usize));
    assert forall|i: int| 0 <= i < s.len() implies is_flat(#[trigger] s[i]) && step_ok(
        cs,
        s[i],
        level,
    ) by {
        lemma_well_formed_child(cs, i);
        lemma_size_child(cs, i);
    }
    lemma_flat_ok(cs, s, level);
}

/// Renders an element: a token as its text, a node by executing the steps
/// of its layout.
pub fn build(ctx: &mut BuildCtx, e: &Element) -> (r: Result<Vec<char>, FormatError>)
    ensures
        final(ctx).options == old(ctx).options,
        r is Ok ==> final(ctx).indentation == old(ctx).indentation && final(ctx).vertical
            == old(ctx).vertical,
        well_formed(*e) && old(ctx).indentation + size(*e) <= usize::MAX ==> r is Ok,
        r is Ok ==> r->Ok_0@ == rendered(*e, old(ctx).indentation as int, old(ctx).options),
    decreases size(*e), 1nat,
{
    match e {
        Element::Token(_, t) => Ok(t.clone()),
        Element::Node(k, cs) => {
            let n = cs.len();
            proof {
                assert(size(*e) == 1 + sizes(cs@));
                assert(cs@.len() == n);
            }
            let steps = if *k == Kind::AttrSet {
                match crate::attr_set::rule(ctx, cs) {
                    Ok(steps) => steps,
                    Err(err) => {
                        return Err(err);
                    },
                }
            } else {
                format_all(n)
            };
            proof {
                if *k != Kind::AttrSet {
                    assert forall|i: int| 0 <= i < steps@.len() implies is_flat(
                        #[trigger] steps@[i],
                    ) by {}
                    lemma_flat_delta(steps@);
                }
                if well_formed(*e) && ctx.indentation + size(*e) <= usize::MAX {
                    if *k == Kind::AttrSet {
                        lemma_set_steps_ok(
                            cs@,
                            set_is_vertical(cs@),
                            set_order(cs@, ctx.options),
                            ctx.indentation as int,
                        );
                    } else {
                        lemma_format_all_ok(cs@, ctx.indentation as int);
                    }
                }
            }
            run_steps(ctx, cs, &steps)
        },
    }
}

/// Executes the steps of a rule over the children `cs` of the node it laid
/// out, and returns the rendered text.
pub fn run_steps(ctx: &mut BuildCtx, cs: &Vec<Element>, steps: &Vec<Step>) -> (r: Result<
    Vec<char>,
    FormatError,
>)
    ensures
        final(ctx).options == old(ctx).options,
        r is Ok ==> final(ctx).indentation == old(ctx).indentation + depth_delta(steps@)
            && final(ctx).vertical == old(ctx).vertical,
        steps_ok(cs@, steps@, old(ctx).indentation as int) ==> r is Ok,
        r is Ok ==> r->Ok_0@ == steps_rendered(
            cs@,
            steps@,
            old(ctx).indentation as int,
            old(ctx).options,
        ),
    decreases sizes(cs@), 2nat,
{
    let ghost start = *ctx;
    let mut out: Vec<char> = Vec::new();
    let mut i: usize = 0;
    while i < steps.len()
        invariant
            i <= steps.len(),
            ctx.options == start.options,
            ctx.vertical == start.vertical,
            start == *old(ctx),
            ctx.indentation == start.indentation + depth_delta(steps@.take(i as int)),
            out@ == steps_rendered(
                cs@,
                steps@.take(i as int),
                start.indentation as int,
                start.options,
            ),
        decreases steps.len() - i,
    {
        assert(steps@.take(i as int + 1).drop_last() == steps@.take(i as int));
        let ghost before = out@;
        let ghost level = ctx.indentation as int;
        proof {
            reveal(steps_ok);
        }
        assert(steps_ok(cs@, steps@, start.indentation as int) ==> step_ok(
            cs@,
            steps@[i as int],
            level,
        ));
        match &steps[i] {
            Step::Format(c) => {
                if *c >= cs.len() {
                    return Err(FormatError::MissingChild);
                }
                proof {
                    lemma_size_child(cs@, *c as int);
                }
                match build(ctx, &cs[*c]) {
                    Ok(mut t) => out.append(&mut t),
                    Err(err) => {
                        return Err(err);
                    },
                }
            },
            Step::FormatWider(c) => {
                if *c >= cs.len() {
                    return Err(FormatError::MissingChild);
                }
                proof {
                    lemma_size_child(cs@, *c as int);
                }
                let vertical = ctx.vertical;
                ctx.vertical = false;
                let res = build(ctx, &cs[*c]);
                ctx.vertical = vertical;
                match res {
                    Ok(mut t) => out.append(&mut t),
                    Err(err) => {
                        return Err(err);
                    },
                }
            },
            Step::NewLine => out.push('\n'),
            Step::Pad => {
                let mut k: usize = 0;
                while k < ctx.indentation
                    invariant
                        k <= ctx.indentation,
                        out@ == before + indent_text(k as int),
                    decreases ctx.indentation - k,
                {
                    out.push(' ');
                    out.push(' ');
                    k = k + 1;
                    assert(out@ =~= before + indent_text(k as int));
                }
            },
            Step::Indent => {
                if ctx.indentation == usize::MAX {
                    return Err(FormatError::UnbalancedIndentation);
                }
                ctx.indentation = ctx.indentation + 1;
            },
            Step::Dedent => {
                if ctx.indentation == 0 {
                    return Err(FormatError::UnbalancedIndentation);
                }
                ctx.indentation = ctx.indentation - 1;
            },
            Step::Whitespace => out.push(' '),
            Step::Comment(c) => {
                if *c >= cs.len() {
                    return Err(FormatError::MissingChild);
                }
                let mut t = crate::tree::element_text(&cs[*c]);
                out.append(&mut t);
            },
        }
        assert(steps@.take(i as int + 1).last() == steps@[i as int]);
        i = i + 1;
    }
    assert(steps@.take(steps.len() as int) == steps@);
    Ok(out)
}

} // verus!
