use vstd::prelude::*;
use crate::builder::{
    all_well_formed, depth_delta, is_flat, lemma_delta_concat, lemma_flat_delta, lemma_flat_ok,
    lemma_ok_concat, lemma_short_ok, lemma_single_delta, lemma_well_formed_child, push_step, step_ok, steps_ok, BuildCtx, FormatError,
    Step,
};
use crate::tree::{lemma_size_child, sizes};
use crate::children::{first_non_trivia, is_newline_space, is_trivia_element, Children};
use crate::config::FormattingOptions;
use crate::sort::{
    attr_keys, entry_order, is_permutation, is_stable_key_order, sort_attr_set_entries,
};
use crate::tree::{is_trivia, Element, Kind};

verus! {

/// A member of an attribute set that counts toward its layout: a binding,
/// an inherit clause or a comment.
pub open spec fn is_member(e: Element) -> bool {
    e.kind() == Kind::KeyValue || e.kind() == Kind::Inherit || e.kind() == Kind::InheritFrom
        || e.kind() == Kind::Comment
}

/// The number of members among the children of an attribute set.
pub open spec fn member_count(cs: Seq<Element>) -> nat
    decreases cs.len(),
{
    if cs.len() == 0 {
        0
    } else {
        member_count(cs.drop_last()) + if is_member(cs.last()) {
            1nat
        } else {
            0nat
        }
    }
}

/// Whether an attribute set with children `cs` is laid out one entry per
/// line: it has more than one member, a comment or a line break. A set with
/// at most one member and neither stays on one line, whatever its ancestors
/// chose.
pub open spec fn set_is_vertical(cs: Seq<Element>) -> bool {
    ||| member_count(cs) > 1
    ||| (exists|i: int| 0 <= i < cs.len() && (#[trigger] cs[i]).kind() == Kind::Comment)
    ||| (exists|i: int| 0 <= i < cs.len() && is_newline_space(#[trigger] cs[i]))
}

/// An entry that the set lays out: a binding or an inherit clause.
pub open spec fn is_entry(e: Element) -> bool {
    e.kind() == Kind::KeyValue || e.kind() == Kind::Inherit
}

pub open spec fn has_rec(cs: Seq<Element>) -> bool {
    cs.len() > 0 && cs[0].kind() == Kind::Rec
}

/// The position after the `rec` marker, if any.
pub open spec fn after_rec(cs: Seq<Element>) -> int {
    if has_rec(cs) {
        1
    } else {
        0
    }
}

/// The position of the open brace: the first child past `rec` and trivia.
pub open spec fn open_pos(cs: Seq<Element>) -> int {
    first_non_trivia(cs, after_rec(cs))
}

/// The first close brace at or after `i`; the length where there is none.
pub open spec fn close_from(cs: Seq<Element>, i: int) -> int
    decreases cs.len() - i,
{
    if i < 0 || i >= cs.len() {
        i
    } else if cs[i].kind() == Kind::CurlyClose {
        i
    } else {
        close_from(cs, i + 1)
    }
}

pub open spec fn close_pos(cs: Seq<Element>) -> int {
    close_from(cs, open_pos(cs) + 1)
}

/// The positions of the entries in `[from, to)`.
pub open spec fn entries_in(cs: Seq<Element>, from: int, to: int) -> Seq<usize>
    decreases to - from,
{
    if to <= from {
        Seq::empty()
    } else if is_entry(cs[to - 1]) {
        entries_in(cs, from, to - 1).push((to - 1) as usize)
    } else {
        entries_in(cs, from, to - 1)
    }
}

/// The positions of the entries between the braces, in source order.
pub open spec fn set_entries(cs: Seq<Element>) -> Seq<usize> {
    entries_in(cs, open_pos(cs) + 1, close_pos(cs))
}

/// The steps for the `rec` marker and the separator after it.
pub open spec fn rec_steps(cs: Seq<Element>) -> Seq<Step> {
    if !has_rec(cs) {
        Seq::empty()
    } else if is_trivia(cs[1]) {
        seq![Step::Format(0), Step::NewLine, Step::Pad]
    } else {
        seq![Step::Format(0), Step::Whitespace]
    }
}

/// Each comment in `[from, to)` on a line of its own.
pub open spec fn comment_steps(cs: Seq<Element>, from: int, to: int) -> Seq<Step>
    decreases to - from,
{
    if to <= from {
        Seq::empty()
    } else if cs[to - 1].kind() == Kind::Comment {
        comment_steps(cs, from, to - 1) + seq![
            Step::Comment((to - 1) as usize),
            Step::NewLine,
            Step::Pad,
        ]
    } else {
        comment_steps(cs, from, to - 1)
    }
}

/// Each comment in `[from, to)` between the braces, on a line of its own at
/// the inner indentation.
pub open spec fn interior_steps(cs: Seq<Element>, from: int, to: int) -> Seq<Step>
    decreases to - from,
{
    if to <= from {
        Seq::empty()
    } else if cs[to - 1].kind() == Kind::Comment {
        interior_steps(cs, from, to - 1) + seq![
            Step::NewLine,
            Step::Pad,
            Step::Comment((to - 1) as usize),
        ]
    } else {
        interior_steps(cs, from, to - 1)
    }
}

/// The steps for the first `n` entries emitted in `order`: one per line when
/// vertical, separated by single spaces otherwise.
pub open spec fn entry_steps(positions: Seq<usize>, order: Seq<usize>, n: int, vertical: bool) -> Seq<Step>
    decreases n,
{
    if n <= 0 {
        Seq::empty()
    } else {
        let at = positions[order[n - 1] as int];
        entry_steps(positions, order, n - 1, vertical) + if vertical {
            seq![Step::NewLine, Step::Pad, Step::FormatWider(at)]
        } else if n > 1 {
            seq![Step::Whitespace, Step::Format(at)]
        } else {
            seq![Step::Format(at)]
        }
    }
}

/// The layout up to and including the open brace and the indentation.
pub open spec fn set_head(cs: Seq<Element>, vertical: bool) -> Seq<Step> {
    rec_steps(cs) + comment_steps(cs, after_rec(cs), open_pos(cs)) + seq![
        Step::Format(open_pos(cs) as usize),
    ] + (if vertical {
        seq![Step::Indent]
    } else {
        Seq::empty()
    })
}

/// The complete layout of a set whose entries are emitted in `order`.
pub open spec fn set_steps(cs: Seq<Element>, vertical: bool, order: Seq<usize>) -> Seq<Step> {
    set_head(cs, vertical) + interior_steps(cs, open_pos(cs) + 1, close_pos(cs)) + entry_steps(
        set_entries(cs),
        order,
        order.len() as int,
        vertical,
    ) + set_close(cs, vertical)
}

/// The orders in which the entries at `positions` may be emitted: sorted
/// stably by key when sorting is enabled, the source order otherwise.
pub open spec fn allowed_order(
    cs: Seq<Element>,
    positions: Seq<usize>,
    order: Seq<usize>,
    options: FormattingOptions,
) -> bool {
    &&& is_permutation(order, positions.len())
    &&& options.sort_attrs ==> is_stable_key_order(
        attr_keys(cs, positions),
        order,
        options.keep_self_first,
    )
    &&& !options.sort_attrs ==> forall|i: int| 0 <= i < order.len() ==> order[i] == i
}

/// The order in which a set's entries are emitted under the options.
pub open spec fn set_order(cs: Seq<Element>, options: FormattingOptions) -> Seq<usize> {
    entry_order(attr_keys(cs, set_entries(cs)), options)
}

/// Whether the set has what its layout needs: a child after `rec`, an open
/// brace position and a close brace after it.
pub open spec fn set_is_complete(cs: Seq<Element>) -> bool {
    &&& has_rec(cs) ==> cs.len() > 1
    &&& open_pos(cs) < cs.len()
    &&& close_pos(cs) < cs.len()
}

/// Whether a sequence of steps breaks no line and pads nothing.
pub open spec fn is_inline(steps: Seq<Step>) -> bool {
    forall|i: int| 0 <= i < steps.len() ==> steps[i] != Step::NewLine && steps[i] != Step::Pad
}

/// A set with more than one member is laid out one entry per line.
pub proof fn lemma_many_members_vertical(cs: Seq<Element>)
    requires
        member_count(cs) > 1,
    ensures
        set_is_vertical(cs),
{
}

/// A comment among the children of a set forces the vertical layout, whatever
/// the number of entries.
pub proof fn lemma_comment_forces_vertical(cs: Seq<Element>, i: int)
    requires
        0 <= i < cs.len(),
        cs[i].kind() == Kind::Comment,
    ensures
        set_is_vertical(cs),
{
}

proof fn lemma_vertical_entries_len(positions: Seq<usize>, order: Seq<usize>, n: int)
    requires
        0 <= n,
    ensures
        entry_steps(positions, order, n, true).len() == 3 * n,
    decreases n,
{
    if n > 0 {
        lemma_vertical_entries_len(positions, order, n - 1);
    }
}

/// In a vertical layout every entry stands on a line of its own, padded to
/// the inner indentation: the steps for entry `j` are a line break, the
/// padding and the entry.
pub proof fn lemma_vertical_entry_lines(positions: Seq<usize>, order: Seq<usize>, n: int, j: int)
    requires
        0 <= j < n,
        0 <= order[j] < positions.len(),
    ensures
        entry_steps(positions, order, n, true).len() == 3 * n,
        entry_steps(positions, order, n, true)[3 * j] == Step::NewLine,
        entry_steps(positions, order, n, true)[3 * j + 1] == Step::Pad,
        entry_steps(positions, order, n, true)[3 * j + 2] == Step::FormatWider(
            positions[order[j] as int],
        ),
    decreases n,
{
    lemma_vertical_entries_len(positions, order, n);
    lemma_vertical_entries_len(positions, order, n - 1);
    if j < n - 1 {
        lemma_vertical_entry_lines(positions, order, n - 1, j);
    }
}

proof fn lemma_no_comment_steps(cs: Seq<Element>, from: int, to: int)
    requires
        forall|i: int| 0 <= i < cs.len() ==> (#[trigger] cs[i]).kind() != Kind::Comment,
        0 <= from,
        to <= cs.len(),
    ensures
        comment_steps(cs, from, to) == Seq::<Step>::empty(),
    decreases to - from,
{
    if to > from {
        lemma_no_comment_steps(cs, from, to - 1);
    }
}

proof fn lemma_no_interior_steps(cs: Seq<Element>, from: int, to: int)
    requires
        forall|i: int| 0 <= i < cs.len() ==> (#[trigger] cs[i]).kind() != Kind::Comment,
        0 <= from,
        to <= cs.len(),
    ensures
        interior_steps(cs, from, to) == Seq::<Step>::empty(),
    decreases to - from,
{
    if to > from {
        lemma_no_interior_steps(cs, from, to - 1);
    }
}

proof fn lemma_inline_entries(positions: Seq<usize>, order: Seq<usize>, n: int)
    ensures
        is_inline(entry_steps(positions, order, n, false)),
    decreases n,
{
    if n > 0 {
        lemma_inline_entries(positions, order, n - 1);
    }
}

/// A set without `rec`, with at most one member, no comment and no line
/// break is laid out on one line: its
/// steps break no line and pad nothing.
pub proof fn lemma_small_set_inline(cs: Seq<Element>, order: Seq<usize>)
    requires
        !has_rec(cs),
        member_count(cs) <= 1,
        forall|i: int| 0 <= i < cs.len() ==> (#[trigger] cs[i]).kind() != Kind::Comment,
        forall|i: int| 0 <= i < cs.len() ==> !is_newline_space(#[trigger] cs[i]),
        set_is_complete(cs),
    ensures
        !set_is_vertical(cs),
        is_inline(set_steps(cs, false, order)),
{
    lemma_first_non_trivia_bounds(cs, 0);
    lemma_close_from_bounds(cs, open_pos(cs) + 1);
    lemma_no_comment_steps(cs, 0, open_pos(cs));
    lemma_no_interior_steps(cs, open_pos(cs) + 1, close_pos(cs));
    lemma_inline_entries(set_entries(cs), order, order.len() as int);
    let tail = seq![Step::Format(close_pos(cs) as usize)];
    let entries = entry_steps(set_entries(cs), order, order.len() as int, false);
    assert(set_steps(cs, false, order) =~= seq![Step::Format(open_pos(cs) as usize)] + entries
        + tail);
}

proof fn lemma_comment_in_steps(cs: Seq<Element>, from: int, to: int, i: int)
    requires
        from <= i < to,
        0 <= i <= usize::MAX,
        cs[i].kind() == Kind::Comment,
    ensures
        comment_steps(cs, from, to).contains(Step::Comment(i as usize)),
    decreases to - from,
{
    let s = comment_steps(cs, from, to);
    if i < to - 1 {
        lemma_comment_in_steps(cs, from, to - 1, i);
        let prev = comment_steps(cs, from, to - 1);
        let k = choose|k: int| 0 <= k < prev.len() && prev[k] == Step::Comment(i as usize);
        if cs[to - 1].kind() == Kind::Comment {
            assert(s[k] == prev[k]);
        } else {
            assert(s[k] == prev[k]);
        }
    } else {
        let prev = comment_steps(cs, from, to - 1);
        assert(s[prev.len() as int] == Step::Comment(i as usize));
    }
}

/// Every comment between a set's `rec` marker and its open brace is kept:
/// the set's layout emits it, verbatim, on a line of its own.
pub proof fn lemma_leading_comment_kept(cs: Seq<Element>, vertical: bool, order: Seq<usize>, i: int)
    requires
        after_rec(cs) <= i < open_pos(cs),
        i <= usize::MAX,
        cs[i].kind() == Kind::Comment,
    ensures
        set_steps(cs, vertical, order).contains(Step::Comment(i as usize)),
{
    let a = rec_steps(cs);
    let b = comment_steps(cs, after_rec(cs), open_pos(cs));
    lemma_comment_in_steps(cs, after_rec(cs), open_pos(cs), i);
    let k = choose|k: int| 0 <= k < b.len() && b[k] == Step::Comment(i as usize);
    let all = set_steps(cs, vertical, order);
    assert(all[a.len() + k] == Step::Comment(i as usize));
}

proof fn lemma_interior_in_steps(cs: Seq<Element>, from: int, to: int, i: int)
    requires
        from <= i < to,
        0 <= i <= usize::MAX,
        cs[i].kind() == Kind::Comment,
    ensures
        interior_steps(cs, from, to).contains(Step::Comment(i as usize)),
    decreases to - from,
{
    let s = interior_steps(cs, from, to);
    let prev = interior_steps(cs, from, to - 1);
    if i < to - 1 {
        lemma_interior_in_steps(cs, from, to - 1, i);
        let k = choose|k: int| 0 <= k < prev.len() && prev[k] == Step::Comment(i as usize);
        assert(s[k] == prev[k]);
    } else {
        assert(s[prev.len() as int + 2] == Step::Comment(i as usize));
    }
}

/// Every comment between a set's braces is kept: the set's layout emits
/// it, verbatim, on a line of its own.
pub proof fn lemma_interior_comment_kept(cs: Seq<Element>, order: Seq<usize>, i: int)
    requires
        open_pos(cs) < i < close_pos(cs),
        i <= usize::MAX,
        cs[i].kind() == Kind::Comment,
    ensures
        set_steps(cs, set_is_vertical(cs), order).contains(Step::Comment(i as usize)),
{
    let v = set_is_vertical(cs);
    let hd = set_head(cs, v);
    let m = interior_steps(cs, open_pos(cs) + 1, close_pos(cs));
    lemma_interior_in_steps(cs, open_pos(cs) + 1, close_pos(cs), i);
    let k = choose|k: int| 0 <= k < m.len() && m[k] == Step::Comment(i as usize);
    let all = set_steps(cs, v, order);
    assert(all[hd.len() as int + k] == Step::Comment(i as usize));
}

proof fn lemma_close_from_bounds(cs: Seq<Element>, i: int)
    requires
        0 <= i,
    ensures
        i <= close_from(cs, i),
    decreases cs.len() - i,
{
    if i < cs.len() && cs[i].kind() != Kind::CurlyClose {
        lemma_close_from_bounds(cs, i + 1);
    }
}

proof fn lemma_entries_in_bounds(cs: Seq<Element>, from: int, to: int)
    requires
        0 <= from,
        to <= usize::MAX,
    ensures
        forall|k: int|
            0 <= k < entries_in(cs, from, to).len() ==> from <= #[trigger] entries_in(cs, from, to)[k]
                < to,
    decreases to - from,
{
    if to > from {
        lemma_entries_in_bounds(cs, from, to - 1);
        let prev = entries_in(cs, from, to - 1);
        let cur = entries_in(cs, from, to);
        assert forall|k: int| 0 <= k < cur.len() implies from <= #[trigger] cur[k] < to by {
            if k < prev.len() {
                assert(cur[k] == prev[k]);
            }
        }
    }
}

proof fn lemma_child_ok(cs: Seq<Element>, c: usize, level: int)
    requires
        c < cs.len(),
        0 <= level,
        all_well_formed(cs),
        level + sizes(cs) <= usize::MAX,
    ensures
        step_ok(cs, Step::Format(c as usize), level),
        step_ok(cs, Step::FormatWider(c as usize), level),
{
    lemma_well_formed_child(cs, c as int);
    lemma_size_child(cs, c as int);
}

proof fn lemma_comment_steps_ok(cs: Seq<Element>, from: int, to: int, level: int)
    requires
        0 <= level,
        0 <= from,
        to <= cs.len(),
    ensures
        forall|i: int|
            0 <= i < comment_steps(cs, from, to).len() ==> is_flat(
                #[trigger] comment_steps(cs, from, to)[i],
            ) && step_ok(cs, comment_steps(cs, from, to)[i], level),
    decreases to - from,
{
    if to > from {
        lemma_comment_steps_ok(cs, from, to - 1, level);
        let prev = comment_steps(cs, from, to - 1);
        if cs[to - 1].kind() == Kind::Comment {
            let s = comment_steps(cs, from, to);
            assert forall|i: int| 0 <= i < s.len() implies is_flat(#[trigger] s[i]) && step_ok(
                cs,
                s[i],
                level,
            ) by {
                if i < prev.len() {
                    assert(s[i] == prev[i]);
                }
            }
        }
    }
}

proof fn lemma_interior_steps_ok(cs: Seq<Element>, from: int, to: int, level: int)
    requires
        0 <= level,
        0 <= from,
        to <= cs.len(),
    ensures
        forall|i: int|
            0 <= i < interior_steps(cs, from, to).len() ==> is_flat(
                #[trigger] interior_steps(cs, from, to)[i],
            ) && step_ok(cs, interior_steps(cs, from, to)[i], level),
    decreases to - from,
{
    if to > from {
        lemma_interior_steps_ok(cs, from, to - 1, level);
        let prev = interior_steps(cs, from, to - 1);
        if cs[to - 1].kind() == Kind::Comment {
            let s = interior_steps(cs, from, to);
            assert forall|i: int| 0 <= i < s.len() implies is_flat(#[trigger] s[i]) && step_ok(
                cs,
                s[i],
                level,
            ) by {
                if i < prev.len() {
                    assert(s[i] == prev[i]);
                }
            }
        }
    }
}

proof fn lemma_entry_steps_ok(
    cs: Seq<Element>,
    positions: Seq<usize>,
    order: Seq<usize>,
    n: int,
    vertical: bool,
    level: int,
)
    requires
        0 <= level,
        n <= order.len(),
        forall|j: int| 0 <= j < order.len() ==> order[j] < positions.len(),
        forall|k: int| 0 <= k < positions.len() ==> positions[k] < cs.len(),
        all_well_formed(cs),
        level + sizes(cs) <= usize::MAX,
    ensures
        forall|i: int|
            0 <= i < entry_steps(positions, order, n, vertical).len() ==> is_flat(
                #[trigger] entry_steps(positions, order, n, vertical)[i],
            ) && step_ok(cs, entry_steps(positions, order, n, vertical)[i], level),
    decreases n,
{
    if n > 0 {
        lemma_entry_steps_ok(cs, positions, order, n - 1, vertical, level);
        let at = positions[order[n - 1] as int];
        lemma_child_ok(cs, at, level);
        let prev = entry_steps(positions, order, n - 1, vertical);
        let s = entry_steps(positions, order, n, vertical);
        assert forall|i: int| 0 <= i < s.len() implies is_flat(#[trigger] s[i]) && step_ok(
            cs,
            s[i],
            level,
        ) by {
            if i < prev.len() {
                assert(s[i] == prev[i]);
            }
        }
    }
}

/// The part of a set's layout up to the open brace and the indentation.
proof fn lemma_set_head_ok(cs: Seq<Element>, vertical: bool, level: int)
    requires
        0 <= level,
        cs.len() <= usize::MAX,
        set_is_complete(cs),
        all_well_formed(cs),
        level + 1 + sizes(cs) <= usize::MAX,
    ensures
        steps_ok(cs, set_head(cs, vertical), level),
        depth_delta(set_head(cs, vertical)) == if vertical {
            1int
        } else {
            0int
        },
{
    lemma_first_non_trivia_bounds(cs, after_rec(cs));
    lemma_close_from_bounds(cs, open_pos(cs) + 1);
    lemma_entries_in_bounds(cs, open_pos(cs) + 1, close_pos(cs));
    let a = rec_steps(cs);
    if has_rec(cs) {
        lemma_child_ok(cs, 0, level);
    }
    assert forall|i: int| 0 <= i < a.len() implies is_flat(#[trigger] a[i]) && step_ok(
        cs,
        a[i],
        level,
    ) by {}
    lemma_flat_ok(cs, a, level);
    lemma_flat_delta(a);
    lemma_first_non_trivia_bounds(cs, after_rec(cs));
    let b = comment_steps(cs, after_rec(cs), open_pos(cs));
    lemma_comment_steps_ok(cs, after_rec(cs), open_pos(cs), level);
    lemma_flat_ok(cs, b, level);
    lemma_flat_delta(b);
    lemma_ok_concat(cs, a, b, level);
    lemma_delta_concat(a, b);
    let c = seq![Step::Format(open_pos(cs) as usize)];
    lemma_child_ok(cs, open_pos(cs) as usize, level);
    lemma_short_ok(cs, c, level);
    lemma_ok_concat(cs, a + b, c, level);
    lemma_flat_delta(c);
    lemma_delta_concat(a + b, c);
    let d: Seq<Step> = if vertical {
        seq![Step::Indent]
    } else {
        Seq::empty()
    };
    lemma_short_ok(cs, d, level);
    assert(depth_delta(d.take(0)) == 0);
    lemma_single_delta(Step::Indent);
    lemma_ok_concat(cs, a + b + c, d, level);
    lemma_delta_concat(a + b + c, d);
    assert(set_head(cs, vertical) =~= a + b + c + d);
}

/// The closing part of a set's layout: leaving the inner level, and the
/// close brace.
pub open spec fn set_close(cs: Seq<Element>, vertical: bool) -> Seq<Step> {
    (if vertical {
        seq![Step::Dedent, Step::NewLine, Step::Pad]
    } else {
        Seq::empty()
    }) + seq![Step::Format(close_pos(cs) as usize)]
}

proof fn lemma_set_close_ok(cs: Seq<Element>, vertical: bool, level: int)
    requires
        0 <= level,
        cs.len() <= usize::MAX,
        set_is_complete(cs),
        all_well_formed(cs),
        level + 1 + sizes(cs) <= usize::MAX,
    ensures
        steps_ok(cs, set_close(cs, vertical), if vertical { level + 1 } else { level }),
        depth_delta(set_close(cs, vertical)) == if vertical {
            -1int
        } else {
            0int
        },
{
    lemma_first_non_trivia_bounds(cs, after_rec(cs));
    lemma_close_from_bounds(cs, open_pos(cs) + 1);
    let h = seq![Step::Format(close_pos(cs) as usize)];
    lemma_child_ok(cs, close_pos(cs) as usize, level);
    lemma_short_ok(cs, h, level);
    assert forall|i: int| 0 <= i < h.len() implies is_flat(#[trigger] h[i]) by {}
    lemma_flat_delta(h);
    if vertical {
        let dd = seq![Step::Dedent];
        let g = seq![Step::NewLine, Step::Pad];
        lemma_single_delta(Step::Dedent);
        lemma_short_ok(cs, dd, level + 1);
        assert forall|i: int| 0 <= i < g.len() implies is_flat(#[trigger] g[i]) && step_ok(
            cs,
            g[i],
            level,
        ) by {}
        lemma_flat_ok(cs, g, level);
        lemma_flat_delta(g);
        lemma_ok_concat(cs, dd, g, level + 1);
        lemma_delta_concat(dd, g);
        assert(dd + g =~= seq![Step::Dedent, Step::NewLine, Step::Pad]);
        lemma_ok_concat(cs, dd + g, h, level + 1);
        lemma_delta_concat(dd + g, h);
    } else {
        assert(set_close(cs, vertical) =~= h);
    }
}

proof fn lemma_set_body_ok(cs: Seq<Element>, vertical: bool, order: Seq<usize>, inner: int)
    requires
        0 <= inner,
        cs.len() <= usize::MAX,
        set_is_complete(cs),
        all_well_formed(cs),
        inner + sizes(cs) <= usize::MAX,
        forall|j: int| 0 <= j < order.len() ==> order[j] < set_entries(cs).len(),
    ensures
        steps_ok(
            cs,
            interior_steps(cs, open_pos(cs) + 1, close_pos(cs)) + entry_steps(
                set_entries(cs),
                order,
                order.len() as int,
                vertical,
            ),
            inner,
        ),
        depth_delta(
            interior_steps(cs, open_pos(cs) + 1, close_pos(cs)) + entry_steps(
                set_entries(cs),
                order,
                order.len() as int,
                vertical,
            ),
        ) == 0,
{
    let entries = set_entries(cs);
    lemma_first_non_trivia_bounds(cs, after_rec(cs));
    lemma_close_from_bounds(cs, open_pos(cs) + 1);
    lemma_entries_in_bounds(cs, open_pos(cs) + 1, close_pos(cs));
    let m = interior_steps(cs, open_pos(cs) + 1, close_pos(cs));
    lemma_interior_steps_ok(cs, open_pos(cs) + 1, close_pos(cs), inner);
    lemma_flat_ok(cs, m, inner);
    lemma_flat_delta(m);
    let e = entry_steps(entries, order, order.len() as int, vertical);
    lemma_entry_steps_ok(cs, entries, order, order.len() as int, vertical, inner);
    lemma_flat_ok(cs, e, inner);
    lemma_flat_delta(e);
    lemma_ok_concat(cs, m, e, inner);
    lemma_delta_concat(m, e);
}

/// The layout of a complete set over well-formed children can run from any
/// level that leaves room for one more level and for the children.
pub proof fn lemma_set_steps_ok(cs: Seq<Element>, vertical: bool, order: Seq<usize>, level: int)
    requires
        0 <= level,
        cs.len() <= usize::MAX,
        set_is_complete(cs),
        all_well_formed(cs),
        level + 1 + sizes(cs) <= usize::MAX,
        forall|j: int| 0 <= j < order.len() ==> order[j] < set_entries(cs).len(),
    ensures
        steps_ok(cs, set_steps(cs, vertical, order), level),
{
    let inner = if vertical {
        level + 1
    } else {
        level
    };
    let hd = set_head(cs, vertical);
    let body = interior_steps(cs, open_pos(cs) + 1, close_pos(cs)) + entry_steps(
        set_entries(cs),
        order,
        order.len() as int,
        vertical,
    );
    let cl = set_close(cs, vertical);
    lemma_set_head_ok(cs, vertical, level);
    lemma_set_body_ok(cs, vertical, order, inner);
    lemma_set_close_ok(cs, vertical, level);
    lemma_ok_concat(cs, hd, body, level);
    lemma_delta_concat(hd, body);
    lemma_ok_concat(cs, hd + body, cl, level);
    assert(set_steps(cs, vertical, order) =~= hd + body + cl);
}

proof fn lemma_first_non_trivia_bounds(cs: Seq<Element>, i: int)
    requires
        0 <= i <= cs.len(),
    ensures
        i <= first_non_trivia(cs, i) <= cs.len(),
    decreases cs.len() - i,
{
    if i < cs.len() && is_trivia(cs[i]) {
        lemma_first_non_trivia_bounds(cs, i + 1);
    }
}

fn count_members(cs: &Vec<Element>) -> (r: usize)
    ensures
        r == member_count(cs@),
{
    let mut n: usize = 0;
    let mut i: usize = 0;
    while i < cs.len()
        invariant
            i <= cs.len(),
            n == member_count(cs@.take(i as int)),
            n <= i,
        decreases cs.len() - i,
    {
        assert(cs@.take(i as int + 1).drop_last() == cs@.take(i as int));
        let k = cs[i].get_kind();
        if k == Kind::KeyValue || k == Kind::Inherit || k == Kind::InheritFrom || k == Kind::Comment {
            n = n + 1;
        }
        i = i + 1;
    }
    assert(cs@.take(cs.len() as int) == cs@);
    n
}

/// Appends the steps for the `rec` marker; false where nothing follows it.
fn push_rec(cs: &Vec<Element>, steps: &mut Vec<Step>) -> (ok: bool)
    ensures
        ok == (has_rec(cs@) ==> cs.len() > 1),
        ok ==> final(steps)@ == old(steps)@ + rec_steps(cs@),
        ok ==> depth_delta(final(steps)@) == depth_delta(old(steps)@),
        ok ==> final(steps)@.contains(Step::Indent) == old(steps)@.contains(Step::Indent),
{
    let ghost before = steps@;
    if cs.len() > 0 && cs[0].get_kind() == Kind::Rec {
        if cs.len() < 2 {
            return false;
        }
        push_step(steps, Step::Format(0));
        if is_trivia_element(&cs[1]) {
            push_step(steps, Step::NewLine);
            push_step(steps, Step::Pad);
        } else {
            push_step(steps, Step::Whitespace);
        }
    }
    assert(steps@ =~= before + rec_steps(cs@));
    true
}

/// Appends each comment in `[start, open)` on a line of its own.
fn push_comments(cs: &Vec<Element>, start: usize, open: usize, steps: &mut Vec<Step>)
    requires
        start <= open <= cs.len(),
    ensures
        final(steps)@ == old(steps)@ + comment_steps(cs@, start as int, open as int),
        depth_delta(final(steps)@) == depth_delta(old(steps)@),
        final(steps)@.contains(Step::Indent) == old(steps)@.contains(Step::Indent),
{
    let ghost base = steps@;
    let mut t: usize = start;
    assert(comment_steps(cs@, start as int, start as int) =~= Seq::<Step>::empty());
    assert(steps@ =~= base + Seq::<Step>::empty());
    while t < open
        invariant
            start <= t <= open,
            open <= cs.len(),
            steps@ == base + comment_steps(cs@, start as int, t as int),
            depth_delta(steps@) == depth_delta(base),
            steps@.contains(Step::Indent) == base.contains(Step::Indent),
        decreases open - t,
    {
        let ghost before = steps@;
        if cs[t].get_kind() == Kind::Comment {
            push_step(steps, Step::Comment(t));
            push_step(steps, Step::NewLine);
            push_step(steps, Step::Pad);
            assert(steps@ =~= before + seq![Step::Comment(t), Step::NewLine, Step::Pad]);
        }
        assert(steps@ =~= base + comment_steps(cs@, start as int, t + 1));
        t = t + 1;
    }
}

/// Appends each comment in `[from, to)` on a line of its own.
fn push_interior(cs: &Vec<Element>, from: usize, to: usize, steps: &mut Vec<Step>)
    requires
        from <= to <= cs.len(),
    ensures
        final(steps)@ == old(steps)@ + interior_steps(cs@, from as int, to as int),
        depth_delta(final(steps)@) == depth_delta(old(steps)@),
        final(steps)@.contains(Step::Indent) == old(steps)@.contains(Step::Indent),
{
    let ghost base = steps@;
    let mut t: usize = from;
    assert(interior_steps(cs@, from as int, from as int) =~= Seq::<Step>::empty());
    assert(steps@ =~= base + Seq::<Step>::empty());
    while t < to
        invariant
            from <= t <= to,
            to <= cs.len(),
            steps@ == base + interior_steps(cs@, from as int, t as int),
            depth_delta(steps@) == depth_delta(base),
            steps@.contains(Step::Indent) == base.contains(Step::Indent),
        decreases to - t,
    {
        let ghost before = steps@;
        if cs[t].get_kind() == Kind::Comment {
            push_step(steps, Step::NewLine);
            push_step(steps, Step::Pad);
            push_step(steps, Step::Comment(t));
            assert(steps@ =~= before + seq![Step::NewLine, Step::Pad, Step::Comment(t)]);
        }
        assert(steps@ =~= base + interior_steps(cs@, from as int, t + 1));
        t = t + 1;
    }
}

/// The positions of the entries from `first` up to the first close brace,
/// and the position of that brace (the length where there is none).
fn collect_entries(cs: &Vec<Element>, first: usize) -> (r: (Vec<usize>, usize))
    requires
        first <= cs.len(),
    ensures
        r.0@ == entries_in(cs@, first as int, r.1 as int),
        r.1 == close_from(cs@, first as int),
        forall|i: int| 0 <= i < r.0.len() ==> r.0@[i] < cs.len(),
{
    let mut positions: Vec<usize> = Vec::new();
    let mut pos = first;
    assert(entries_in(cs@, first as int, first as int) =~= Seq::<usize>::empty());
    while pos < cs.len()
        invariant
            first <= pos <= cs.len(),
            positions@ == entries_in(cs@, first as int, pos as int),
            close_from(cs@, first as int) == close_from(cs@, pos as int),
            forall|i: int| 0 <= i < positions.len() ==> positions@[i] < cs.len(),
        ensures
            first <= pos <= cs.len(),
            positions@ == entries_in(cs@, first as int, pos as int),
            close_from(cs@, first as int) == close_from(cs@, pos as int),
            forall|i: int| 0 <= i < positions.len() ==> positions@[i] < cs.len(),
            pos < cs.len() ==> cs@[pos as int].kind() == Kind::CurlyClose,
        decreases cs.len() - pos,
    {
        let k = cs[pos].get_kind();
        if k == Kind::CurlyClose {
            break;
        }
        if k == Kind::KeyValue || k == Kind::Inherit {
            positions.push(pos);
        }
        pos = pos + 1;
    }
    (positions, pos)
}

/// Appends the steps for the entries at `positions`, emitted in `order`.
fn push_entries(positions: &Vec<usize>, order: &Vec<usize>, vertical: bool, steps: &mut Vec<Step>)
    requires
        order.len() == positions.len(),
        forall|i: int| 0 <= i < order.len() ==> order@[i] < positions.len(),
    ensures
        final(steps)@ == old(steps)@ + entry_steps(positions@, order@, order.len() as int, vertical),
        depth_delta(final(steps)@) == depth_delta(old(steps)@),
        final(steps)@.contains(Step::Indent) == old(steps)@.contains(Step::Indent),
{
    let ghost base = steps@;
    let mut j: usize = 0;
    assert(entry_steps(positions@, order@, 0, vertical) =~= Seq::<Step>::empty());
    assert(steps@ =~= base + Seq::<Step>::empty());
    while j < order.len()
        invariant
            order.len() == positions.len(),
            forall|i: int| 0 <= i < order.len() ==> order@[i] < positions.len(),
            j <= order.len(),
            steps@ == base + entry_steps(positions@, order@, j as int, vertical),
            depth_delta(steps@) == depth_delta(base),
            steps@.contains(Step::Indent) == base.contains(Step::Indent),
        decreases order.len() - j,
    {
        let ghost before = steps@;
        let at = positions[order[j]];
        if vertical {
            push_step(steps, Step::NewLine);
            push_step(steps, Step::Pad);
            push_step(steps, Step::FormatWider(at));
            assert(steps@ =~= before + seq![Step::NewLine, Step::Pad, Step::FormatWider(at)]);
        } else if j > 0 {
            push_step(steps, Step::Whitespace);
            push_step(steps, Step::Format(at));
            assert(steps@ =~= before + seq![Step::Whitespace, Step::Format(at)]);
        } else {
            push_step(steps, Step::Format(at));
            assert(steps@ =~= before + seq![Step::Format(at)]);
        }
        assert(steps@ =~= base + entry_steps(positions@, order@, j + 1, vertical));
        j = j + 1;
    }
}

/// The layout steps of an attribute set with children `cs`: an optional
/// `rec`, the comments ahead of the open brace, the entries (bindings and
/// inherit clauses) in the order that sorting gives, and the close brace.
/// Vertical sets put each entry on its own line, one level deeper.
#[verifier::rlimit(80)]
pub fn rule(ctx: &BuildCtx, cs: &Vec<Element>) -> (r: Result<Vec<Step>, FormatError>)
    ensures
        r is Ok <==> set_is_complete(cs@),
        r is Ok ==> r->Ok_0@ == set_steps(
            cs@,
            set_is_vertical(cs@),
            set_order(cs@, ctx.options),
        ),
        r is Ok ==> allowed_order(cs@, set_entries(cs@), set_order(cs@, ctx.options), ctx.options),
        r is Ok ==> depth_delta(r->Ok_0@) == 0,
        r is Ok ==> r->Ok_0@.contains(Step::Indent) == set_is_vertical(cs@),
{
    let mut steps: Vec<Step> = Vec::new();
    let mut children = Children::new();
    let items_count = count_members(cs);
    let vertical = items_count > 1 || children.has_comments(cs) || children.has_newlines(cs);
    assert(!steps@.contains(Step::Indent));

    // rec
    if !push_rec(cs, &mut steps) {
        return Err(FormatError::MalformedNode);
    }
    if cs.len() > 0 && cs[0].get_kind() == Kind::Rec {
        children.move_next(cs);
    }
    let start = children.pos;
    assert(start == after_rec(cs@));
    proof {
        lemma_first_non_trivia_bounds(cs@, start as int);
    }

    // comments ahead of the open brace
    children.drain_trivia(cs);
    let open = children.pos;
    assert(steps@ =~= rec_steps(cs@));
    push_comments(cs, start, open, &mut steps);
    let ghost prefix = steps@;
    assert(prefix == rec_steps(cs@) + comment_steps(cs@, after_rec(cs@), open_pos(cs@)));

    // {
    if open >= cs.len() {
        return Err(FormatError::MalformedNode);
    }
    push_step(&mut steps, Step::Format(open));
    if vertical {
        push_step(&mut steps, Step::Indent);
    }
    let ghost head = steps@;
    assert(head =~= prefix + seq![Step::Format(open_pos(cs@) as usize)] + (if vertical {
        seq![Step::Indent]
    } else {
        Seq::empty()
    }));

    // entries, up to the close brace
    let (positions, close) = collect_entries(cs, open + 1);
    let order = sort_attr_set_entries(cs, &positions, &ctx.options);
    assert(close == close_pos(cs@));
    assert(positions@ == set_entries(cs@));
    proof {
        lemma_close_from_bounds(cs@, open + 1);
    }
    let stop = if close < cs.len() { close } else { cs.len() };
    push_interior(cs, open + 1, stop, &mut steps);
    let ghost mid = steps@;
    push_entries(&positions, &order, vertical, &mut steps);
    let ghost body = steps@;
    assert(body == mid + entry_steps(set_entries(cs@), order@, order@.len() as int, vertical));

    // }
    if vertical {
        push_step(&mut steps, Step::Dedent);
        push_step(&mut steps, Step::NewLine);
        push_step(&mut steps, Step::Pad);
    }
    if close >= cs.len() {
        return Err(FormatError::MalformedNode);
    }
    push_step(&mut steps, Step::Format(close));
    assert(vertical == set_is_vertical(cs@));
    assert(allowed_order(cs@, set_entries(cs@), order@, ctx.options));
    assert(mid == head + interior_steps(cs@, open_pos(cs@) + 1, close_pos(cs@)));
    assert(steps@ =~= body + (if vertical {
        seq![Step::Dedent, Step::NewLine, Step::Pad]
    } else {
        Seq::empty()
    }) + seq![Step::Format(close_pos(cs@) as usize)]);
    assert(steps@ =~= set_steps(cs@, vertical, order@));
    Ok(steps)
}

} // verus!
