//! Sort keys and a stable sort by key.
//!
//! A sort key is a sequence of atoms, each a small rank and a text.  Keys are
//! compared lexicographically, atoms by rank first and then by text, texts
//! character by character.  Every order the library sorts by is such a key:
//! a path's components, a name's lowercase form, or a leaf name followed by
//! the path.
use vstd::prelude::*;

verus! {

/// One element of a sort key: a rank that orders kinds of elements, then a text.
pub struct Atom {
    pub rank: u8,
    pub text: Vec<char>,
}

impl View for Atom {
    type V = (u8, Seq<char>);

    open spec fn view(&self) -> (u8, Seq<char>) {
        (self.rank, self.text@)
    }
}

/// The mathematical value of a key held in a vector of atoms.
pub open spec fn key_view(key: Seq<Atom>) -> Seq<(u8, Seq<char>)> {
    key.map_values(|a: Atom| a@)
}

/// Strict lexicographic order of texts: at the first differing character the
/// smaller character comes first, and a proper prefix comes before the longer text.
pub open spec fn text_lt(a: Seq<char>, b: Seq<char>) -> bool
    decreases a.len(),
{
    if a.len() == 0 {
        b.len() > 0
    } else if b.len() == 0 {
        false
    } else if a[0] != b[0] {
        (a[0] as int) < (b[0] as int)
    } else {
        text_lt(a.drop_first(), b.drop_first())
    }
}

/// Strict order of atoms: by rank, then by text.
pub open spec fn atom_lt(a: (u8, Seq<char>), b: (u8, Seq<char>)) -> bool {
    a.0 < b.0 || (a.0 == b.0 && text_lt(a.1, b.1))
}

/// Strict lexicographic order of keys, atom by atom.
pub open spec fn key_lt(a: Seq<(u8, Seq<char>)>, b: Seq<(u8, Seq<char>)>) -> bool
    decreases a.len(),
{
    if a.len() == 0 {
        b.len() > 0
    } else if b.len() == 0 {
        false
    } else if a[0] != b[0] {
        atom_lt(a[0], b[0])
    } else {
        key_lt(a.drop_first(), b.drop_first())
    }
}

/// No text comes before itself.
pub proof fn lemma_text_lt_irreflexive(a: Seq<char>)
    ensures
        !text_lt(a, a),
    decreases a.len(),
{
    if a.len() > 0 {
        lemma_text_lt_irreflexive(a.drop_first());
    }
}

/// The order of texts is transitive.
pub proof fn lemma_text_lt_transitive(a: Seq<char>, b: Seq<char>, c: Seq<char>)
    requires
        text_lt(a, b),
        text_lt(b, c),
    ensures
        text_lt(a, c),
    decreases a.len(),
{
    if a.len() > 0 && b.len() > 0 && c.len() > 0 && a[0] == b[0] && b[0] == c[0] {
        lemma_text_lt_transitive(a.drop_first(), b.drop_first(), c.drop_first());
    }
}

/// Any two different texts are ordered one way or the other.
pub proof fn lemma_text_lt_total(a: Seq<char>, b: Seq<char>)
    ensures
        a == b || text_lt(a, b) || text_lt(b, a),
    decreases a.len(),
{
    if a.len() > 0 && b.len() > 0 && a[0] == b[0] {
        lemma_text_lt_total(a.drop_first(), b.drop_first());
        if a.drop_first() == b.drop_first() {
            assert(a =~= seq![a[0]] + a.drop_first());
            assert(b =~= seq![b[0]] + b.drop_first());
        }
    } else if a.len() > 0 && b.len() > 0 {
        assert((a[0] as int) != (b[0] as int));
    } else if a.len() == 0 && b.len() == 0 {
        assert(a =~= b);
    }
}

/// Texts are ordered at their first differing character from the start: with
/// a common beginning `p`, the text going on with the smaller character comes
/// first, whatever follows.
pub proof fn lemma_text_lt_first_difference(p: Seq<char>, c: char, d: char, x: Seq<char>, y: Seq<char>)
    requires
        (c as int) < (d as int),
    ensures
        text_lt(p.push(c) + x, p.push(d) + y),
    decreases p.len(),
{
    let a = p.push(c) + x;
    let b = p.push(d) + y;
    if p.len() == 0 {
        assert(a[0] == c && b[0] == d);
    } else {
        assert(a[0] == p[0] && b[0] == p[0]);
        assert(a.drop_first() =~= p.drop_first().push(c) + x);
        assert(b.drop_first() =~= p.drop_first().push(d) + y);
        lemma_text_lt_first_difference(p.drop_first(), c, d, x, y);
    }
}

/// A proper beginning of a text comes before it.
pub proof fn lemma_text_lt_prefix(p: Seq<char>, x: Seq<char>)
    requires
        x.len() > 0,
    ensures
        text_lt(p, p + x),
    decreases p.len(),
{
    if p.len() > 0 {
        assert((p + x)[0] == p[0]);
        assert((p + x).drop_first() =~= p.drop_first() + x);
        lemma_text_lt_prefix(p.drop_first(), x);
    }
}

/// No atom comes before itself.
pub proof fn lemma_atom_lt_irreflexive(a: (u8, Seq<char>))
    ensures
        !atom_lt(a, a),
{
    lemma_text_lt_irreflexive(a.1);
}

/// The order of atoms is transitive.
pub proof fn lemma_atom_lt_transitive(a: (u8, Seq<char>), b: (u8, Seq<char>), c: (u8, Seq<char>))
    requires
        atom_lt(a, b),
        atom_lt(b, c),
    ensures
        atom_lt(a, c),
{
    if a.0 == b.0 && b.0 == c.0 {
        lemma_text_lt_transitive(a.1, b.1, c.1);
    }
}

/// Any two different atoms are ordered one way or the other.
pub proof fn lemma_atom_lt_total(a: (u8, Seq<char>), b: (u8, Seq<char>))
    ensures
        a == b || atom_lt(a, b) || atom_lt(b, a),
{
    lemma_text_lt_total(a.1, b.1);
}

/// No key comes before itself.
pub proof fn lemma_key_lt_irreflexive(a: Seq<(u8, Seq<char>)>)
    ensures
        !key_lt(a, a),
    decreases a.len(),
{
    if a.len() > 0 {
        lemma_key_lt_irreflexive(a.drop_first());
    }
}

/// The order of keys is transitive.
pub proof fn lemma_key_lt_transitive(
    a: Seq<(u8, Seq<char>)>,
    b: Seq<(u8, Seq<char>)>,
    c: Seq<(u8, Seq<char>)>,
)
    requires
        key_lt(a, b),
        key_lt(b, c),
    ensures
        key_lt(a, c),
    decreases a.len(),
{
    if a.len() > 0 && b.len() > 0 && c.len() > 0 {
        if a[0] == b[0] && b[0] == c[0] {
            lemma_key_lt_transitive(a.drop_first(), b.drop_first(), c.drop_first());
        } else if a[0] != b[0] && b[0] != c[0] {
            lemma_atom_lt_transitive(a[0], b[0], c[0]);
            if a[0] == c[0] {
                lemma_atom_lt_irreflexive(a[0]);
            }
        }
    }
}

/// Any two different keys are ordered one way or the other.
pub proof fn lemma_key_lt_total(a: Seq<(u8, Seq<char>)>, b: Seq<(u8, Seq<char>)>)
    ensures
        a == b || key_lt(a, b) || key_lt(b, a),
    decreases a.len(),
{
    if a.len() > 0 && b.len() > 0 && a[0] == b[0] {
        lemma_key_lt_total(a.drop_first(), b.drop_first());
        if a.drop_first() == b.drop_first() {
            assert(a =~= seq![a[0]] + a.drop_first());
            assert(b =~= seq![b[0]] + b.drop_first());
        }
    } else if a.len() > 0 && b.len() > 0 {
        lemma_atom_lt_total(a[0], b[0]);
    } else if a.len() == 0 && b.len() == 0 {
        assert(a =~= b);
    }
}

/// Keys are ordered at their first differing atom from the start, atoms by
/// rank and then by text: with a common beginning `p`, the key going on with
/// the smaller atom comes first, whatever follows.
pub proof fn lemma_key_lt_first_difference(
    p: Seq<(u8, Seq<char>)>,
    a: (u8, Seq<char>),
    b: (u8, Seq<char>),
    x: Seq<(u8, Seq<char>)>,
    y: Seq<(u8, Seq<char>)>,
)
    requires
        a.0 < b.0 || (a.0 == b.0 && text_lt(a.1, b.1)),
    ensures
        key_lt(p.push(a) + x, p.push(b) + y),
    decreases p.len(),
{
    let ka = p.push(a) + x;
    let kb = p.push(b) + y;
    if p.len() == 0 {
        assert(ka[0] == a && kb[0] == b);
        lemma_text_lt_irreflexive(a.1);
    } else {
        assert(ka[0] == p[0] && kb[0] == p[0]);
        assert(ka.drop_first() =~= p.drop_first().push(a) + x);
        assert(kb.drop_first() =~= p.drop_first().push(b) + y);
        lemma_key_lt_first_difference(p.drop_first(), a, b, x, y);
    }
}

/// A proper beginning of a key comes before it.
pub proof fn lemma_key_lt_prefix(p: Seq<(u8, Seq<char>)>, x: Seq<(u8, Seq<char>)>)
    requires
        x.len() > 0,
    ensures
        key_lt(p, p + x),
    decreases p.len(),
{
    if p.len() > 0 {
        assert((p + x)[0] == p[0]);
        assert((p + x).drop_first() =~= p.drop_first() + x);
        lemma_key_lt_prefix(p.drop_first(), x);
    }
}

/// Keys never out of order: `a` does not come after `b` and `b` not after `c`,
/// so `a` does not come after `c`.
pub proof fn lemma_key_le_transitive(
    a: Seq<(u8, Seq<char>)>,
    b: Seq<(u8, Seq<char>)>,
    c: Seq<(u8, Seq<char>)>,
)
    requires
        !key_lt(b, a),
        !key_lt(c, b),
    ensures
        !key_lt(c, a),
{
    lemma_key_lt_total(a, b);
    lemma_key_lt_total(b, c);
    if key_lt(c, a) {
        if a == b {
        } else if b == c {
        } else {
            lemma_key_lt_transitive(a, b, c);
            lemma_key_lt_transitive(a, c, a);
            lemma_key_lt_irreflexive(a);
        }
    }
}

/// Whether text `a` comes strictly before text `b`.
pub fn text_less(a: &Vec<char>, b: &Vec<char>) -> (r: bool)
    ensures
        r == text_lt(a@, b@),
{
    let mut i: usize = 0;
    assert(a@.skip(0) =~= a@);
    assert(b@.skip(0) =~= b@);
    while i < a.len() && i < b.len()
        invariant
            i <= a.len(),
            i <= b.len(),
            text_lt(a@, b@) == text_lt(a@.skip(i as int), b@.skip(i as int)),
        decreases a.len() - i,
    {
        if a[i] != b[i] {
            return a[i] < b[i];
        }
        assert(a@.skip(i as int).drop_first() =~= a@.skip(i + 1));
        assert(b@.skip(i as int).drop_first() =~= b@.skip(i + 1));
        i = i + 1;
    }
    a.len() < b.len()
}

/// Whether two texts are the same.
pub fn text_equal(a: &Vec<char>, b: &Vec<char>) -> (r: bool)
    ensures
        r == (a@ == b@),
{
    if a.len() != b.len() {
        return false;
    }
    let mut i: usize = 0;
    while i < a.len()
        invariant
            i <= a.len(),
            a.len() == b.len(),
            a@.take(i as int) == b@.take(i as int),
        decreases a.len() - i,
    {
        if a[i] != b[i] {
            assert(a@[i as int] != b@[i as int]);
            return false;
        }
        assert(a@.take(i + 1) =~= a@.take(i as int).push(a@[i as int]));
        assert(b@.take(i + 1) =~= b@.take(i as int).push(b@[i as int]));
        i = i + 1;
    }
    assert(a@ =~= a@.take(i as int));
    assert(b@ =~= b@.take(i as int));
    true
}

fn atom_less(a: &Atom, b: &Atom) -> (r: bool)
    ensures
        r == atom_lt(a@, b@),
{
    if a.rank != b.rank {
        a.rank < b.rank
    } else {
        text_less(&a.text, &b.text)
    }
}

fn atom_equal(a: &Atom, b: &Atom) -> (r: bool)
    ensures
        r == (a@ == b@),
{
    a.rank == b.rank && text_equal(&a.text, &b.text)
}

/// Whether key `a` comes strictly before key `b`.
pub fn key_less(a: &Vec<Atom>, b: &Vec<Atom>) -> (r: bool)
    ensures
        r == key_lt(key_view(a@), key_view(b@)),
{
    let ghost ka = key_view(a@);
    let ghost kb = key_view(b@);
    let mut i: usize = 0;
    assert(ka.skip(0) =~= ka);
    assert(kb.skip(0) =~= kb);
    while i < a.len() && i < b.len()
        invariant
            i <= a.len(),
            i <= b.len(),
            ka == key_view(a@),
            kb == key_view(b@),
            key_lt(ka, kb) == key_lt(ka.skip(i as int), kb.skip(i as int)),
        decreases a.len() - i,
    {
        if !atom_equal(&a[i], &b[i]) {
            assert(ka.skip(i as int)[0] == a@[i as int]@);
            assert(kb.skip(i as int)[0] == b@[i as int]@);
            return atom_less(&a[i], &b[i]);
        }
        assert(ka.skip(i as int).drop_first() =~= ka.skip(i + 1));
        assert(kb.skip(i as int).drop_first() =~= kb.skip(i + 1));
        i = i + 1;
    }
    a.len() < b.len()
}

/// Position `p` occurs in `order`.
pub open spec fn lists(order: Seq<int>, p: int) -> bool {
    exists|i: int| 0 <= i < order.len() && order[i] == p
}

spec fn lists_index(order: Seq<usize>, p: int) -> bool {
    exists|i: int| 0 <= i < order.len() && order[i] == p
}

/// `order` lists the positions of `keys` once each, in an order in which the
/// keys never decrease, and positions whose keys are equal in increasing order:
/// the order of a stable sort.
pub open spec fn is_stable_order(order: Seq<int>, keys: Seq<Seq<(u8, Seq<char>)>>) -> bool {
    &&& order.len() == keys.len()
    &&& forall|i: int| 0 <= i < order.len() ==> 0 <= #[trigger] order[i] < keys.len()
    &&& forall|p: int| 0 <= p < keys.len() ==> #[trigger] lists(order, p)
    &&& forall|i: int, j: int|
        0 <= i < j < order.len() ==> #[trigger] order[i] != #[trigger] order[j]
    &&& forall|i: int, j: int|
        0 <= i < j < order.len() ==> !key_lt(keys[#[trigger] order[j]], keys[#[trigger] order[i]])
    &&& forall|i: int, j: int|
        0 <= i < j < order.len() && keys[#[trigger] order[i]] == keys[#[trigger] order[j]]
            ==> order[i] < order[j]
}

/// `out` is `items` sorted stably by the given keys (`keys[k]` is the key of `items[k]`).
pub open spec fn is_stable_sort<A>(out: Seq<A>, items: Seq<A>, keys: Seq<Seq<(u8, Seq<char>)>>) -> bool {
    exists|order: Seq<int>|
        #[trigger] is_stable_order(order, keys) && out.len() == order.len() && forall|i: int|
            0 <= i < out.len() ==> out[i] == items[#[trigger] order[i]]
}

proof fn lemma_stable_orders_agree(
    o1: Seq<int>,
    o2: Seq<int>,
    keys: Seq<Seq<(u8, Seq<char>)>>,
    k: int,
)
    requires
        is_stable_order(o1, keys),
        is_stable_order(o2, keys),
        0 <= k < o1.len(),
    ensures
        o1[k] == o2[k],
    decreases k,
{
    assert forall|m: int| 0 <= m < k implies o1[m] == o2[m] by {
        lemma_stable_orders_agree(o1, o2, keys, m);
    }
    let a = o1[k];
    let b = o2[k];
    if a != b {
        assert(0 <= a < keys.len() && 0 <= b < keys.len());
        assert(lists(o2, a));
        let m = choose|m: int| 0 <= m < o2.len() && o2[m] == a;
        assert(lists(o1, b));
        let n = choose|n: int| 0 <= n < o1.len() && o1[n] == b;
        if m < k {
            assert(o1[m] == o2[m]);
        } else if n < k {
            assert(o1[n] == o2[n]);
        } else {
            assert(!key_lt(keys[o2[m]], keys[o2[k]]));
            assert(!key_lt(keys[o1[n]], keys[o1[k]]));
            lemma_key_lt_total(keys[a], keys[b]);
        }
    }
}

/// A stable sort has one outcome: any two stable sorts of the same items by
/// the same keys are the same sequence.
pub proof fn lemma_stable_sort_unique<A>(
    out1: Seq<A>,
    out2: Seq<A>,
    items: Seq<A>,
    keys: Seq<Seq<(u8, Seq<char>)>>,
)
    requires
        is_stable_sort(out1, items, keys),
        is_stable_sort(out2, items, keys),
    ensures
        out1 == out2,
{
    let o1 = choose|order: Seq<int>|
        #[trigger] is_stable_order(order, keys) && out1.len() == order.len() && forall|i: int|
            0 <= i < out1.len() ==> out1[i] == items[#[trigger] order[i]];
    let o2 = choose|order: Seq<int>|
        #[trigger] is_stable_order(order, keys) && out2.len() == order.len() && forall|i: int|
            0 <= i < out2.len() ==> out2[i] == items[#[trigger] order[i]];
    assert forall|i: int| 0 <= i < out1.len() implies out1[i] == out2[i] by {
        lemma_stable_orders_agree(o1, o2, keys, i);
        assert(out1[i] == items[o1[i]]);
        assert(out2[i] == items[o2[i]]);
    }
    assert(out1 =~= out2);
}

/// The positions of `keys` in the order of a stable sort.
pub fn stable_order(keys: &Vec<Vec<Atom>>) -> (order: Vec<usize>)
    ensures
        is_stable_order(order@.map_values(|p: usize| p as int), keys@.map_values(|k: Vec<Atom>| key_view(k@))),
{
    let ghost kv = keys@.map_values(|k: Vec<Atom>| key_view(k@));
    let mut order: Vec<usize> = Vec::new();
    let mut n: usize = 0;
    while n < keys.len()
        invariant
            n <= keys.len(),
            kv == keys@.map_values(|k: Vec<Atom>| key_view(k@)),
            order.len() == n,
            forall|i: int| 0 <= i < n ==> #[trigger] order@[i] < n,
            forall|p: int| 0 <= p < n ==> #[trigger] lists_index(order@, p),
            forall|i: int, j: int| 0 <= i < j < n ==> #[trigger] order@[i] != #[trigger] order@[j],
            forall|i: int, j: int|
                0 <= i < j < n ==> !key_lt(kv[#[trigger] order@[j] as int], kv[#[trigger] order@[i] as int]),
            forall|i: int, j: int|
                0 <= i < j < n && kv[#[trigger] order@[i] as int] == kv[#[trigger] order@[j] as int]
                    ==> order@[i] < order@[j],
        decreases keys.len() - n,
    {
        let mut pos: usize = n;
        while pos > 0 && key_less(&keys[n], &keys[order[pos - 1]])
            invariant
                pos <= n,
                n < keys.len(),
                order.len() == n,
                kv == keys@.map_values(|k: Vec<Atom>| key_view(k@)),
                forall|i: int| 0 <= i < n ==> #[trigger] order@[i] < n,
                forall|k: int| pos <= k < n ==> key_lt(kv[n as int], kv[#[trigger] order@[k] as int]),
            decreases pos,
        {
            pos = pos - 1;
        }
        let ghost old_order = order@;
        proof {
            if pos > 0 {
                lemma_key_lt_total(kv[n as int], kv[order@[pos - 1] as int]);
            }
        }
        order.insert(pos, n);
        proof {
            assert forall|i: int, j: int| 0 <= i < j < n + 1 implies !key_lt(
                kv[#[trigger] order@[j] as int],
                kv[#[trigger] order@[i] as int],
            ) by {
                if j < pos {
                    assert(order@[i] == old_order[i] && order@[j] == old_order[j]);
                } else if j == pos {
                    assert(order@[i] == old_order[i]);
                    if i < pos - 1 {
                        lemma_key_le_transitive(kv[old_order[i] as int], kv[old_order[pos - 1] as int], kv[n as int]);
                    }
                } else if i == pos {
                    assert(order@[j] == old_order[j - 1]);
                    lemma_key_lt_irreflexive(kv[n as int]);
                    if key_lt(kv[old_order[j - 1] as int], kv[n as int]) {
                        lemma_key_lt_transitive(kv[n as int], kv[old_order[j - 1] as int], kv[n as int]);
                    }
                } else if i < pos {
                    assert(order@[i] == old_order[i] && order@[j] == old_order[j - 1]);
                } else {
                    assert(order@[i] == old_order[i - 1] && order@[j] == old_order[j - 1]);
                }
            }
            assert forall|i: int, j: int|
                0 <= i < j < n + 1 && kv[#[trigger] order@[i] as int] == kv[#[trigger] order@[j] as int]
                implies order@[i] < order@[j] by {
                if j < pos {
                    assert(order@[i] == old_order[i] && order@[j] == old_order[j]);
                } else if j == pos {
                    assert(order@[i] == old_order[i]);
                } else if i == pos {
                    assert(order@[j] == old_order[j - 1]);
                    lemma_key_lt_irreflexive(kv[n as int]);
                } else if i < pos {
                    assert(order@[i] == old_order[i] && order@[j] == old_order[j - 1]);
                } else {
                    assert(order@[i] == old_order[i - 1] && order@[j] == old_order[j - 1]);
                }
            }
            assert forall|i: int, j: int| 0 <= i < j < n + 1 implies #[trigger] order@[i] != #[trigger] order@[j] by {
                if j < pos {
                    assert(order@[i] == old_order[i] && order@[j] == old_order[j]);
                } else if j == pos {
                    assert(order@[i] == old_order[i]);
                } else if i == pos {
                    assert(order@[j] == old_order[j - 1]);
                } else if i < pos {
                    assert(order@[i] == old_order[i] && order@[j] == old_order[j - 1]);
                } else {
                    assert(order@[i] == old_order[i - 1] && order@[j] == old_order[j - 1]);
                }
            }
            assert forall|p: int| 0 <= p < n + 1 implies #[trigger] lists_index(order@, p) by {
                if p == n {
                    assert(order@[pos as int] == p);
                } else {
                    assert(lists_index(old_order, p));
                    let k = choose|k: int| 0 <= k < n && old_order[k] == p;
                    if k < pos {
                        assert(order@[k] == p);
                    } else {
                        assert(order@[k + 1] == p);
                    }
                }
            }
            assert forall|i: int| 0 <= i < n + 1 implies #[trigger] order@[i] < n + 1 by {
                if i < pos {
                    assert(order@[i] == old_order[i]);
                } else if i > pos {
                    assert(order@[i] == old_order[i - 1]);
                }
            }
        }
        n = n + 1;
    }
    let ghost ov = order@.map_values(|p: usize| p as int);
    assert forall|i: int| 0 <= i < ov.len() implies 0 <= #[trigger] ov[i] < kv.len() by {
        assert(ov[i] == order@[i] as int);
    }
    assert forall|p: int| 0 <= p < kv.len() implies #[trigger] lists(ov, p) by {
        assert(lists_index(order@, p));
        let k = choose|k: int| 0 <= k < n && order@[k] == p;
        assert(ov[k] == p);
    }
    assert forall|i: int, j: int| 0 <= i < j < ov.len() implies #[trigger] ov[i] != #[trigger] ov[j] by {
        assert(ov[i] == order@[i] as int && ov[j] == order@[j] as int);
    }
    assert forall|i: int, j: int| 0 <= i < j < ov.len() implies !key_lt(kv[#[trigger] ov[j]], kv[#[trigger] ov[i]]) by {
        assert(ov[i] == order@[i] as int && ov[j] == order@[j] as int);
    }
    assert forall|i: int, j: int|
        0 <= i < j < ov.len() && kv[#[trigger] ov[i]] == kv[#[trigger] ov[j]] implies ov[i] < ov[j] by {
        assert(ov[i] == order@[i] as int && ov[j] == order@[j] as int);
    }
    order
}

/// `items` rearranged in the order of a stable sort by `keys`.
pub fn sort_by_keys(items: &Vec<String>, keys: &Vec<Vec<Atom>>) -> (out: Vec<String>)
    requires
        items.len() == keys.len(),
    ensures
        is_stable_sort(out.deep_view(), items.deep_view(), keys@.map_values(|k: Vec<Atom>| key_view(k@))),
{
    let ghost kv = keys@.map_values(|k: Vec<Atom>| key_view(k@));
    let order = stable_order(keys);
    let ghost ov = order@.map_values(|p: usize| p as int);
    let mut out: Vec<String> = Vec::new();
    let mut k: usize = 0;
    while k < order.len()
        invariant
            k <= order.len(),
            order.len() == items.len(),
            ov == order@.map_values(|p: usize| p as int),
            is_stable_order(ov, kv),
            kv.len() == items.len(),
            out.len() == k,
            forall|i: int| 0 <= i < k ==> out.deep_view()[i] == items.deep_view()[#[trigger] ov[i]],
        decreases order.len() - k,
    {
        assert(ov[k as int] == order@[k as int] as int);
        assert(0 <= ov[k as int] < kv.len());
        let item = items[order[k]].clone();
        out.push(item);
        assert forall|i: int| 0 <= i < k + 1 implies out.deep_view()[i] == items.deep_view()[#[trigger] ov[i]] by {
            if i == k {
                assert(out.deep_view()[i] == out@[i]@);
            } else {
                assert(out.deep_view()[i] == out@[i]@);
            }
        }
        k = k + 1;
    }
    assert(is_stable_order(ov, kv));
    out
}

} // verus!
