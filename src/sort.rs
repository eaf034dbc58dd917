use vstd::prelude::*;
use crate::config::FormattingOptions;
use crate::tree::{element_text, text, Element, Kind};

verus! {

/// The reserved key that may be kept ahead of all others.
pub open spec fn self_key() -> Seq<char> {
    seq!['s', 'e', 'l', 'f']
}

/// Codepoint-wise lexicographic order: `a` comes strictly before `b`.
pub open spec fn lex_lt(a: Seq<char>, b: Seq<char>) -> bool
    decreases a.len(),
{
    if a.len() == 0 {
        b.len() > 0
    } else if b.len() == 0 {
        false
    } else if a[0] != b[0] {
        a[0] < b[0]
    } else {
        lex_lt(a.drop_first(), b.drop_first())
    }
}

/// The order of entry keys: `self` first when asked for, then codepoint order.
pub open spec fn key_before(a: Seq<char>, b: Seq<char>, self_first: bool) -> bool {
    if self_first && a == self_key() {
        b != self_key()
    } else if self_first && b == self_key() {
        false
    } else {
        lex_lt(a, b)
    }
}

/// The first child that names a key: a `Key` node for a binding, an
/// identifier for an inherit clause.
pub open spec fn first_key_text(cs: Seq<Element>, binding: bool) -> Seq<char>
    decreases cs.len(),
{
    if cs.len() == 0 {
        Seq::empty()
    } else if is_key_part(cs[0], binding) {
        text(cs[0])
    } else {
        first_key_text(cs.drop_first(), binding)
    }
}

pub open spec fn is_key_part(e: Element, binding: bool) -> bool {
    if binding {
        e.kind() == Kind::Key
    } else {
        e.kind() == Kind::Ident || e.kind() == Kind::IdentNode
    }
}

/// The sort key of an attribute-set entry: the text of a binding's key, the
/// first name of an inherit clause, and the empty text for anything else.
pub open spec fn attr_key(e: Element) -> Seq<char> {
    match e {
        Element::Node(Kind::KeyValue, cs) => first_key_text(cs@, true),
        Element::Node(Kind::Inherit, cs) => first_key_text(cs@, false),
        _ => Seq::empty(),
    }
}

proof fn lemma_lex_irreflexive(a: Seq<char>)
    ensures
        !lex_lt(a, a),
    decreases a.len(),
{
    if a.len() > 0 {
        lemma_lex_irreflexive(a.drop_first());
    }
}

proof fn lemma_lex_transitive(a: Seq<char>, b: Seq<char>, c: Seq<char>)
    requires
        lex_lt(a, b),
        lex_lt(b, c),
    ensures
        lex_lt(a, c),
    decreases a.len(),
{
    if a.len() > 0 && b.len() > 0 && c.len() > 0 && a[0] == b[0] && b[0] == c[0] {
        lemma_lex_transitive(a.drop_first(), b.drop_first(), c.drop_first());
    }
}

proof fn lemma_lex_total(a: Seq<char>, b: Seq<char>)
    ensures
        a == b || lex_lt(a, b) || lex_lt(b, a),
    decreases a.len(),
{
    if a.len() > 0 && b.len() > 0 && a[0] == b[0] {
        lemma_lex_total(a.drop_first(), b.drop_first());
        if a.drop_first() == b.drop_first() {
            assert forall|i: int| 0 <= i < a.len() implies a[i] == b[i] by {
                if i > 0 {
                    assert(a[i] == a.drop_first()[i - 1]);
                    assert(b[i] == b.drop_first()[i - 1]);
                }
            }
            assert(a.len() == a.drop_first().len() + 1);
            assert(b.len() == b.drop_first().len() + 1);
            assert(a =~= b);
        }
    } else if a.len() == 0 && b.len() == 0 {
        assert(a =~= b);
    }
}

/// The key order is a strict weak order in which only equal keys tie.
pub proof fn lemma_key_order(a: Seq<char>, b: Seq<char>, c: Seq<char>, self_first: bool)
    ensures
        !key_before(a, a, self_first),
        key_before(a, b, self_first) && key_before(b, c, self_first) ==> key_before(
            a,
            c,
            self_first,
        ),
        a == b || key_before(a, b, self_first) || key_before(b, a, self_first),
{
    lemma_lex_irreflexive(a);
    lemma_lex_total(a, b);
    if lex_lt(a, b) && lex_lt(b, c) {
        lemma_lex_transitive(a, b, c);
    }
}

/// Whether a key is the reserved `self`.
fn is_self_key(a: &Vec<char>) -> (r: bool)
    ensures
        r == (a@ == self_key()),
{
    let r = a.len() == 4 && a[0] == 's' && a[1] == 'e' && a[2] == 'l' && a[3] == 'f';
    if r {
        assert(a@ == self_key());
    }
    r
}

/// Codepoint-wise lexicographic comparison.
fn lex_less(a: &Vec<char>, b: &Vec<char>) -> (r: bool)
    ensures
        r == lex_lt(a@, b@),
{
    let mut i: usize = 0;
    assert(a@.skip(0) == a@ && b@.skip(0) == b@);
    while i < a.len() && i < b.len() && a[i] == b[i]
        invariant
            i <= a.len(),
            i <= b.len(),
            lex_lt(a@, b@) == lex_lt(a@.skip(i as int), b@.skip(i as int)),
        decreases a.len() - i,
    {
        assert(a@.skip(i as int).drop_first() == a@.skip(i as int + 1));
        assert(b@.skip(i as int).drop_first() == b@.skip(i as int + 1));
        i = i + 1;
    }
    if i == a.len() {
        i < b.len()
    } else if i == b.len() {
        false
    } else {
        a[i] < b[i]
    }
}

/// Whether key `a` sorts strictly before key `b`.
pub fn key_less(a: &Vec<char>, b: &Vec<char>, self_first: bool) -> (r: bool)
    ensures
        r == key_before(a@, b@, self_first),
{
    if self_first && is_self_key(a) {
        !is_self_key(b)
    } else if self_first && is_self_key(b) {
        false
    } else {
        lex_less(a, b)
    }
}

fn key_text_of(cs: &Vec<Element>, binding: bool) -> (r: Vec<char>)
    ensures
        r@ == first_key_text(cs@, binding),
{
    let mut i: usize = 0;
    assert(cs@.skip(0) == cs@);
    while i < cs.len()
        invariant
            i <= cs.len(),
            first_key_text(cs@, binding) == first_key_text(cs@.skip(i as int), binding),
        decreases cs.len() - i,
    {
        assert(cs@.skip(i as int).drop_first() == cs@.skip(i as int + 1));
        let k = cs[i].get_kind();
        let hit = if binding {
            k == Kind::Key
        } else {
            k == Kind::Ident || k == Kind::IdentNode
        };
        if hit {
            return element_text(&cs[i]);
        }
        i = i + 1;
    }
    Vec::new()
}

/// Returns the sort key of an attribute-set entry.
pub fn get_attr_key(element: &Element) -> (r: Vec<char>)
    ensures
        r@ == attr_key(*element),
{
    match element {
        Element::Node(Kind::KeyValue, cs) => key_text_of(cs, true),
        Element::Node(Kind::Inherit, cs) => key_text_of(cs, false),
        _ => Vec::new(),
    }
}

/// `r` lists each position below `n` exactly once.
pub open spec fn is_permutation(r: Seq<usize>, n: nat) -> bool {
    &&& r.len() == n
    &&& forall|i: int| 0 <= i < r.len() ==> r[i] < n
    &&& forall|i: int, j: int| 0 <= i < j < r.len() ==> r[i] != r[j]
}

/// `r` orders the entries by key, and entries with equal keys keep their order.
pub open spec fn is_stable_key_order(keys: Seq<Seq<char>>, r: Seq<usize>, self_first: bool) -> bool {
    &&& forall|i: int, j: int|
        0 <= i < j < r.len() ==> !key_before(keys[r[j] as int], keys[r[i] as int], self_first)
    &&& forall|i: int, j: int|
        0 <= i < j < r.len() && keys[r[i] as int] == keys[r[j] as int] ==> r[i] < r[j]
}

/// Where entry `k` goes among the already ordered entries `r[..p]`: after
/// every entry whose key it does not come strictly before.
pub open spec fn insert_pos(keys: Seq<Seq<char>>, r: Seq<usize>, k: int, p: int, self_first: bool) -> int
    decreases p,
{
    if p > 0 && key_before(keys[k], keys[r[p - 1] as int], self_first) {
        insert_pos(keys, r, k, p - 1, self_first)
    } else {
        p
    }
}

/// The first `n` entries in stable key order, each inserted after the
/// entries that do not sort strictly after it.
pub open spec fn insertion_order(keys: Seq<Seq<char>>, n: int, self_first: bool) -> Seq<usize>
    decreases n,
{
    if n <= 0 {
        Seq::empty()
    } else {
        let r = insertion_order(keys, n - 1, self_first);
        r.insert(insert_pos(keys, r, n - 1, r.len() as int, self_first), (n - 1) as usize)
    }
}

/// The order in which entries with these keys are emitted.
pub open spec fn entry_order(keys: Seq<Seq<char>>, options: FormattingOptions) -> Seq<usize> {
    if options.sort_attrs {
        insertion_order(keys, keys.len() as int, options.keep_self_first)
    } else {
        Seq::new(keys.len(), |i: int| i as usize)
    }
}

/// The keys of the entries found at `positions` among the children `cs`.
pub open spec fn attr_keys(cs: Seq<Element>, positions: Seq<usize>) -> Seq<Seq<char>> {
    positions.map_values(|p: usize| attr_key(cs[p as int]))
}

/// The order in which the entries of an attribute set are emitted. The
/// entries are the children at `positions`; the result lists indices into
/// `positions`: sorted stably by key when sorting is enabled, in source
/// order otherwise.
pub fn sort_attr_set_entries(
    cs: &Vec<Element>,
    positions: &Vec<usize>,
    options: &FormattingOptions,
) -> (r: Vec<usize>)
    requires
        forall|i: int| 0 <= i < positions.len() ==> positions@[i] < cs.len(),
    ensures
        r@ == entry_order(attr_keys(cs@, positions@), *options),
        is_permutation(r@, positions@.len()),
        options.sort_attrs ==> is_stable_key_order(
            attr_keys(cs@, positions@),
            r@,
            options.keep_self_first,
        ),
        !options.sort_attrs ==> forall|i: int| 0 <= i < r@.len() ==> r@[i] == i,
{
    let n = positions.len();
    let mut keys: Vec<Vec<char>> = Vec::new();
    let mut i: usize = 0;
    while i < n
        invariant
            n == positions.len(),
            forall|j: int| 0 <= j < positions.len() ==> positions@[j] < cs.len(),
            i <= n,
            keys.len() == i,
            forall|j: int| 0 <= j < i ==> (#[trigger] keys@[j])@ == attr_key(cs@[positions@[j] as int]),
        decreases n - i,
    {
        keys.push(get_attr_key(&cs[positions[i]]));
        i = i + 1;
    }
    let ghost ks = attr_keys(cs@, positions@);
    assert(forall|j: int| 0 <= j < n ==> (#[trigger] keys@[j])@ == ks[j]);
    let self_first = options.keep_self_first;
    let mut r: Vec<usize> = Vec::new();
    let mut k: usize = 0;
    while k < n
        invariant
            n == positions.len(),
            k <= n,
            keys.len() == n,
            ks == attr_keys(cs@, positions@),
            forall|j: int| 0 <= j < n ==> (#[trigger] keys@[j])@ == ks[j],
            r.len() == k,
            forall|i: int| 0 <= i < r.len() ==> r@[i] < k,
            forall|i: int, j: int| 0 <= i < j < r.len() ==> r@[i] != r@[j],
            options.sort_attrs ==> is_stable_key_order(ks, r@, self_first),
            !options.sort_attrs ==> forall|i: int| 0 <= i < r@.len() ==> r@[i] == i,
            options.sort_attrs ==> r@ == insertion_order(ks, k as int, self_first),
            self_first == options.keep_self_first,
        decreases n - k,
    {
        if !options.sort_attrs {
            r.push(k);
        } else {
            let mut p: usize = k;
            while p > 0 && key_less(&keys[k], &keys[r[p - 1]], self_first)
                invariant
                    p <= k,
                    k < n,
                    r.len() == k,
                    keys.len() == n,
                    forall|i: int| 0 <= i < r.len() ==> r@[i] < k,
                    forall|j: int| 0 <= j < n ==> (#[trigger] keys@[j])@ == ks[j],
                    forall|q: int|
                        p <= q < k ==> key_before(ks[k as int], ks[r@[q] as int], self_first),
                    insert_pos(ks, r@, k as int, p as int, self_first) == insert_pos(
                        ks,
                        r@,
                        k as int,
                        k as int,
                        self_first,
                    ),
                decreases p,
            {
                p = p - 1;
            }
            let ghost old_r = r@;
            assert(insert_pos(ks, old_r, k as int, p as int, self_first) == p);
            r.insert(p, k);
            assert(r@ == old_r.insert(p as int, k));
            assert forall|i: int, j: int| 0 <= i < j < r.len() implies !key_before(
                ks[r@[j] as int],
                ks[r@[i] as int],
                self_first,
            ) by {
                if i < p && j == p {
                    if p > 0 {
                        lemma_key_order(ks[k as int], ks[old_r[p - 1] as int], ks[old_r[i] as int], self_first);
                        lemma_key_order(ks[old_r[p - 1] as int], ks[old_r[i] as int], ks[k as int], self_first);
                        lemma_key_order(ks[k as int], ks[old_r[i] as int], ks[old_r[p - 1] as int], self_first);
                    }
                } else if i == p && j > p {
                    lemma_key_order(ks[k as int], ks[old_r[j - 1] as int], ks[k as int], self_first);
                }
            }
            assert forall|i: int, j: int|
                0 <= i < j < r.len() && ks[r@[i] as int] == ks[r@[j] as int] implies r@[i] < r@[j] by {
                if i == p {
                    lemma_key_order(ks[k as int], ks[k as int], ks[k as int], self_first);
                }
            }
        }
        k = k + 1;
    }
    proof {
        if !options.sort_attrs {
            assert(r@ =~= Seq::new(n as nat, |i: int| i as usize));
        }
    }
    r
}

} // verus!
