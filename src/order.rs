//! The stable insertion sort by (number, code points) keys that orders entries and
//! categories, with its laws: it permutes, it orders, and it commutes with maps.

use vstd::prelude::*;

verus! {

/// What entries are ordered by: a number first, then a text compared code point by code point.
pub type KeyView = (int, Seq<u32>);

/// Strict lexicographic order on code point sequences (a proper prefix comes first).
pub open spec fn lex_lt(a: Seq<u32>, b: Seq<u32>) -> bool
    decreases a.len(),
{
    if a.len() == 0 {
        b.len() > 0
    } else if b.len() == 0 {
        false
    } else if a[0] != b[0] {
        a[0] < b[0]
    } else {
        lex_lt(a.drop_first(), b.drop_first())
    }
}

/// `a` may stand before `b`.
pub open spec fn key_le(a: KeyView, b: KeyView) -> bool {
    a.0 < b.0 || (a.0 == b.0 && !lex_lt(b.1, a.1))
}

/// `x` placed into `s` after every item whose key is not greater than its own.
pub open spec fn insert_by<A>(s: Seq<A>, x: A, key: spec_fn(A) -> KeyView) -> Seq<A>
    decreases s.len(),
{
    if s.len() == 0 {
        seq![x]
    } else if key_le(key(s.last()), key(x)) {
        s.push(x)
    } else {
        insert_by(s.drop_last(), x, key).push(s.last())
    }
}

/// The stable sort of `s` by `key`: items with equal keys keep their order.
pub open spec fn sorted_by<A>(s: Seq<A>, key: spec_fn(A) -> KeyView) -> Seq<A>
    decreases s.len(),
{
    if s.len() == 0 {
        s
    } else {
        insert_by(sorted_by(s.drop_last(), key), s.last(), key)
    }
}

/// An ordering key as it is held at run time.
pub struct SortKey {
    pub num: u64,
    pub text: Vec<u32>,
}

impl View for SortKey {
    type V = KeyView;

    open spec fn view(&self) -> KeyView {
        (self.num as int, self.text@)
    }
}

proof fn lemma_lex_lt_skip(a: Seq<u32>, b: Seq<u32>, i: int)
    requires
        0 <= i < a.len(),
        i < b.len(),
        a[i] == b[i],
    ensures
        lex_lt(a.skip(i), b.skip(i)) == lex_lt(a.skip(i + 1), b.skip(i + 1)),
{
    assert(a.skip(i).drop_first() =~= a.skip(i + 1));
    assert(b.skip(i).drop_first() =~= b.skip(i + 1));
}

/// Whether `a` comes strictly before `b` in lexicographic order.
pub fn lex_less(a: &[u32], b: &[u32]) -> (r: bool)
    ensures
        r == lex_lt(a@, b@),
{
    let mut i: usize = 0;
    assert(a@.skip(0) =~= a@);
    assert(b@.skip(0) =~= b@);
    while i < a.len() && i < b.len() && a[i] == b[i]
        invariant
            i <= a@.len(),
            i <= b@.len(),
            lex_lt(a@, b@) == lex_lt(a@.skip(i as int), b@.skip(i as int)),
        decreases a@.len() - i,
    {
        proof {
            lemma_lex_lt_skip(a@, b@, i as int);
        }
        i += 1;
    }
    if i == a.len() {
        i < b.len()
    } else if i == b.len() {
        false
    } else {
        a[i] < b[i]
    }
}

/// Whether `a` may stand before `b`.
pub fn key_less_eq(a: &SortKey, b: &SortKey) -> (r: bool)
    ensures
        r == key_le(a@, b@),
{
    if a.num != b.num {
        a.num < b.num
    } else {
        !lex_less(b.text.as_slice(), a.text.as_slice())
    }
}

proof fn lemma_insert_by_at<A>(s: Seq<A>, x: A, key: spec_fn(A) -> KeyView, j: int)
    requires
        0 <= j <= s.len(),
        forall|m: int| j <= m < s.len() ==> !key_le(key(#[trigger] s[m]), key(x)),
        j == 0 || key_le(key(s[j - 1]), key(x)),
    ensures
        insert_by(s, x, key) == s.insert(j, x),
    decreases s.len(),
{
    if s.len() == 0 {
        assert(s.insert(j, x) =~= seq![x]);
    } else if key_le(key(s.last()), key(x)) {
        assert(j == s.len());
        assert(s.insert(j, x) =~= s.push(x));
    } else {
        lemma_insert_by_at(s.drop_last(), x, key, j);
        assert(s.drop_last().insert(j, x).push(s.last()) =~= s.insert(j, x));
    }
}

/// The items of keyed pairs, without their keys.
pub open spec fn payloads<A>(v: Seq<(SortKey, A)>) -> Seq<A> {
    v.map_values(|p: (SortKey, A)| p.1)
}

/// Sorts the items by their keys, keeping items with equal keys in their order.
pub fn sort_keyed<A>(items: Vec<(SortKey, A)>, Ghost(key): Ghost<spec_fn(A) -> KeyView>) -> (r: Vec<A>)
    requires
        forall|i: int| 0 <= i < items@.len() ==> (#[trigger] items@[i]).0@ == key(items@[i].1),
    ensures
        r@ == sorted_by(payloads(items@), key),
{
    let ghost all = payloads(items@);
    let ghost n = items@.len();
    let mut rest = items;
    let mut out: Vec<(SortKey, A)> = Vec::new();
    assert(all.take(0) =~= Seq::<A>::empty());
    assert(out@.map_values(|p: (SortKey, A)| p.1) =~= Seq::<A>::empty());
    while rest.len() > 0
        invariant
            n == all.len(),
            rest@.len() <= n,
            forall|i: int|
                0 <= i < rest@.len() ==> (#[trigger] rest@[i]).1 == all[n - rest@.len() + i],
            forall|i: int| 0 <= i < rest@.len() ==> (#[trigger] rest@[i]).0@ == key(rest@[i].1),
            forall|i: int| 0 <= i < out@.len() ==> (#[trigger] out@[i]).0@ == key(out@[i].1),
            out@.map_values(|p: (SortKey, A)| p.1) == sorted_by(all.take(n - rest@.len()), key),
        decreases rest@.len(),
    {
        let ghost done = n - rest@.len();
        let x = rest.remove(0);
        let mut j = out.len();
        while j > 0 && !key_less_eq(&out[j - 1].0, &x.0)
            invariant
                j <= out@.len(),
                x.0@ == key(x.1),
                forall|i: int| 0 <= i < out@.len() ==> (#[trigger] out@[i]).0@ == key(out@[i].1),
                forall|m: int| j <= m < out@.len() ==> !key_le(key((#[trigger] out@[m]).1), key(x.1)),
            decreases j,
        {
            j -= 1;
        }
        let ghost before = out@.map_values(|p: (SortKey, A)| p.1);
        proof {
            assert forall|m: int| j <= m < before.len() implies !key_le(key(#[trigger] before[m]), key(x.1)) by {
                assert(before[m] == out@[m].1);
            }
            if j > 0 {
                assert(before[j - 1] == out@[j - 1].1);
            }
            lemma_insert_by_at(before, x.1, key, j as int);
            assert(all.take(done + 1).drop_last() =~= all.take(done));
            assert(all.take(done + 1).last() == x.1);
        }
        out.insert(j, x);
        assert(out@.map_values(|p: (SortKey, A)| p.1) =~= before.insert(j as int, x.1));
    }
    assert(all.take(n as int) =~= all);
    let mut res: Vec<A> = Vec::new();
    let ghost sorted = out@.map_values(|p: (SortKey, A)| p.1);
    let ghost m = out@.len();
    while out.len() > 0
        invariant
            m == sorted.len(),
            out@.len() <= m,
            forall|i: int| 0 <= i < out@.len() ==> (#[trigger] out@[i]).1 == sorted[m - out@.len() + i],
            res@ == sorted.take(m - out@.len()),
        decreases out@.len(),
    {
        let (_, a) = out.remove(0);
        res.push(a);
        assert(res@ =~= sorted.take(m - out@.len()));
    }
    assert(res@ =~= sorted);
    res
}

proof fn lemma_insert_by_map<A, B>(t: Seq<A>, x: A, f: spec_fn(A) -> B, key: spec_fn(B) -> KeyView)
    ensures
        insert_by(t, x, |a: A| key(f(a))).map_values(f) == insert_by(t.map_values(f), f(x), key),
    decreases t.len(),
{
    let k = |a: A| key(f(a));
    if t.len() == 0 {
        assert(insert_by(t, x, k).map_values(f) =~= seq![f(x)]);
    } else {
        assert(t.map_values(f).last() == f(t.last()));
        assert(t.map_values(f).drop_last() =~= t.drop_last().map_values(f));
        if key_le(key(f(t.last())), key(f(x))) {
            assert(t.push(x).map_values(f) =~= t.map_values(f).push(f(x)));
        } else {
            lemma_insert_by_map(t.drop_last(), x, f, key);
            assert(insert_by(t.drop_last(), x, k).push(t.last()).map_values(f) =~= insert_by(
                t.drop_last(),
                x,
                k,
            ).map_values(f).push(f(t.last())));
        }
    }
}

/// Sorting by a key read through `f` and then applying `f` is applying `f` and then sorting.
pub proof fn lemma_sorted_by_map<A, B>(s: Seq<A>, f: spec_fn(A) -> B, key: spec_fn(B) -> KeyView)
    ensures
        sorted_by(s, |a: A| key(f(a))).map_values(f) == sorted_by(s.map_values(f), key),
    decreases s.len(),
{
    let k = |a: A| key(f(a));
    if s.len() == 0 {
        assert(s.map_values(f) =~= Seq::<B>::empty());
    } else {
        lemma_sorted_by_map(s.drop_last(), f, key);
        assert(s.map_values(f).drop_last() =~= s.drop_last().map_values(f));
        assert(s.map_values(f).last() == f(s.last()));
        lemma_insert_by_map(sorted_by(s.drop_last(), k), s.last(), f, key);
    }
}

proof fn lemma_insert_by_multiset<A>(s: Seq<A>, x: A, key: spec_fn(A) -> KeyView)
    ensures
        insert_by(s, x, key).to_multiset() == s.to_multiset().insert(x),
    decreases s.len(),
{
    broadcast use vstd::seq_lib::group_to_multiset_ensures;

    if s.len() > 0 && !key_le(key(s.last()), key(x)) {
        lemma_insert_by_multiset(s.drop_last(), x, key);
        assert(s.drop_last().push(s.last()) =~= s);
        assert(insert_by(s, x, key).to_multiset() =~= s.to_multiset().insert(x));
    }
}

/// Sorting keeps every item, as often as it occurs.
pub proof fn lemma_sorted_by_multiset<A>(s: Seq<A>, key: spec_fn(A) -> KeyView)
    ensures
        sorted_by(s, key).to_multiset() == s.to_multiset(),
    decreases s.len(),
{
    broadcast use vstd::seq_lib::group_to_multiset_ensures;

    if s.len() > 0 {
        lemma_sorted_by_multiset(s.drop_last(), key);
        lemma_insert_by_multiset(sorted_by(s.drop_last(), key), s.last(), key);
        assert(s.drop_last().push(s.last()) =~= s);
    }
}

// ---------------------------------------------------------------- the order is total

proof fn lemma_lex_lt_asym(a: Seq<u32>, b: Seq<u32>)
    ensures
        !(lex_lt(a, b) && lex_lt(b, a)),
    decreases a.len(),
{
    if a.len() > 0 && b.len() > 0 && a[0] == b[0] {
        lemma_lex_lt_asym(a.drop_first(), b.drop_first());
    }
}

proof fn lemma_lex_lt_trans(a: Seq<u32>, b: Seq<u32>, c: Seq<u32>)
    requires
        lex_lt(a, b),
        lex_lt(b, c),
    ensures
        lex_lt(a, c),
    decreases a.len(),
{
    if a.len() > 0 && a[0] == b[0] && b[0] == c[0] {
        lemma_lex_lt_trans(a.drop_first(), b.drop_first(), c.drop_first());
    }
}

proof fn lemma_lex_lt_total(a: Seq<u32>, b: Seq<u32>)
    requires
        a != b,
    ensures
        lex_lt(a, b) || lex_lt(b, a),
    decreases a.len(),
{
    if a.len() == 0 {
        assert(b.len() > 0) by {
            if b.len() == 0 {
                assert(a =~= b);
            }
        }
    } else if b.len() > 0 && a[0] == b[0] {
        assert(a.drop_first() != b.drop_first()) by {
            if a.drop_first() == b.drop_first() {
                assert(a.drop_first().len() == b.drop_first().len());
                assert(a.len() == b.len());
                assert(a =~= b) by {
                    assert forall|i: int| 0 <= i < a.len() implies a[i] == b[i] by {
                        if i > 0 {
                            assert(a[i] == a.drop_first()[i - 1]);
                            assert(b[i] == b.drop_first()[i - 1]);
                        }
                    }
                }
            }
        }
        lemma_lex_lt_total(a.drop_first(), b.drop_first());
    }
}

/// `key_le` is a total preorder.
pub proof fn lemma_key_le_order(a: KeyView, b: KeyView, c: KeyView)
    ensures
        key_le(a, b) || key_le(b, a),
        key_le(a, b) && key_le(b, c) ==> key_le(a, c),
{
    if a.1 != b.1 {
        lemma_lex_lt_total(a.1, b.1);
    }
    lemma_lex_lt_asym(a.1, b.1);
    if key_le(a, b) && key_le(b, c) && a.0 == b.0 && b.0 == c.0 && lex_lt(c.1, a.1) {
        if b.1 == c.1 {
        } else {
            lemma_lex_lt_total(b.1, c.1);
            if lex_lt(b.1, c.1) {
                lemma_lex_lt_trans(b.1, c.1, a.1);
            }
        }
    }
}

/// Each item's key is not greater than the next ones'.
pub open spec fn ordered_by<A>(s: Seq<A>, key: spec_fn(A) -> KeyView) -> bool {
    forall|i: int, j: int| 0 <= i < j < s.len() ==> key_le(key(#[trigger] s[i]), key(#[trigger] s[j]))
}

proof fn lemma_insert_by_ordered<A>(s: Seq<A>, x: A, key: spec_fn(A) -> KeyView)
    requires
        ordered_by(s, key),
    ensures
        ordered_by(insert_by(s, x, key), key),
    decreases s.len(),
{
    broadcast use vstd::seq_lib::group_to_multiset_ensures;

    if s.len() == 0 {
    } else if key_le(key(s.last()), key(x)) {
        let r = s.push(x);
        assert forall|i: int, j: int| 0 <= i < j < r.len() implies key_le(key(#[trigger] r[i]), key(
            #[trigger] r[j],
        )) by {
            if j == s.len() {
                if i < s.len() - 1 {
                    assert(key_le(key(s[i]), key(s[s.len() - 1])));
                    lemma_key_le_order(key(s[i]), key(s.last()), key(x));
                }
            } else {
                assert(r[i] == s[i] && r[j] == s[j]);
            }
        }
    } else {
        let d = s.drop_last();
        assert(ordered_by(d, key)) by {
            assert forall|i: int, j: int| 0 <= i < j < d.len() implies key_le(key(#[trigger] d[i]), key(
                #[trigger] d[j],
            )) by {
                assert(d[i] == s[i] && d[j] == s[j]);
            }
        }
        lemma_insert_by_ordered(d, x, key);
        lemma_insert_by_multiset(d, x, key);
        lemma_key_le_order(key(s.last()), key(x), key(x));
        let t = insert_by(d, x, key);
        let r = t.push(s.last());
        assert forall|i: int, j: int| 0 <= i < j < r.len() implies key_le(key(#[trigger] r[i]), key(
            #[trigger] r[j],
        )) by {
            if j == t.len() {
                let y = t[i];
                assert(t.to_multiset().count(y) > 0);
                if y != x {
                    assert(d.to_multiset().count(y) > 0);
                    let k = choose|k: int| 0 <= k < d.len() && d[k] == y;
                    assert(key_le(key(s[k]), key(s[s.len() - 1])));
                }
            } else {
                assert(r[i] == t[i] && r[j] == t[j]);
            }
        }
    }
}

/// The stable sort orders the items by their keys.
pub proof fn lemma_sorted_by_ordered<A>(s: Seq<A>, key: spec_fn(A) -> KeyView)
    ensures
        ordered_by(sorted_by(s, key), key),
    decreases s.len(),
{
    if s.len() > 0 {
        lemma_sorted_by_ordered(s.drop_last(), key);
        lemma_insert_by_ordered(sorted_by(s.drop_last(), key), s.last(), key);
    }
}

} // verus!
