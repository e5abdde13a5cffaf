//! Laws of writing and reading back: a written catalog reads back as itself, and running
//! again with nothing new changes nothing.

use vstd::prelude::*;

use crate::catalog::{
    add_key, body_of, demote, footer_count, footer_fields, info_prefix, is_empty_cat,
    is_field_sep, is_footer, is_number, key_index, keys_of, keys_unique, lemma_key_index,
    parse_catalog, scan_body, scan_line, sentinel, skipped_line, stray_keys, CatView, ContentsView,
    format_version,
};
use crate::laws::{files_entry, is_key_line, lemma_append_missing_keeps};
use crate::order::lemma_sorted_by_multiset;
use crate::merge::{append_missing, merge_category, merge_cats, merged};
use crate::render::{
    cat_key, decimal_text, digit_char, emit_cats, emit_entries, emitted_count, entry_line,
    footer_text, only_sentinel, rendered_body, rendered_lines, sorted_cats, unchanged,
};
use crate::strategy::{decimal_value, digit_value, is_digit};
use crate::text::{has_infix, is_blank, is_indent_char, is_indented, split_by, trim_start};

verus! {

// ---------------------------------------------------------------- conditions

/// The entries once each, in the order they first come.
pub open spec fn dedup(es: Seq<Seq<char>>) -> Seq<Seq<char>> {
    append_missing(Seq::empty(), es)
}

/// A category with each entry once.
pub open spec fn deduped(x: CatView) -> CatView {
    (x.0, dedup(x.1))
}

/// An entry that reads back as itself from an indented line: not empty and not starting with
/// indentation.
pub open spec fn clean_entry(e: Seq<char>) -> bool {
    e.len() > 0 && !is_indent_char(e[0])
}

/// A category that a catalog file carries unchanged: its key reads as a key line, it has
/// entries, and each entry reads back as itself, on a line that differs from the label.
pub open spec fn good_cat(x: CatView, label: Seq<char>) -> bool {
    &&& is_key_line(x.0, label)
    &&& x.1.len() > 0
    &&& forall|j: int|
        0 <= j < x.1.len() ==> clean_entry(#[trigger] x.1[j]) && entry_line(x.0, x.1[j]) != label
}

/// Two categories share no entry.
pub open spec fn apart(x: CatView, y: CatView) -> bool {
    forall|e: Seq<char>| x.1.contains(e) ==> !y.1.contains(e)
}

/// A catalog whose written form reads back as itself: unique keys, good categories, and no
/// entry under two keys.
pub open spec fn round_trippable(c: ContentsView) -> bool {
    &&& keys_unique(c.cats)
    &&& forall|i: int| 0 <= i < c.cats.len() ==> good_cat(#[trigger] c.cats[i], c.label)
    &&& forall|i: int, j: int|
        0 <= i < c.cats.len() && 0 <= j < c.cats.len() && i != j ==> apart(
            #[trigger] c.cats[i],
            #[trigger] c.cats[j],
        )
}

// ---------------------------------------------------------------- written lines

/// The entry lines a category is written as.
pub open spec fn cat_lines(x: CatView) -> Seq<Seq<char>> {
    dedup(x.1).map_values(|e: Seq<char>| entry_line(x.0, e))
}

/// The entry lines of all categories, in order.
pub open spec fn lines_of_cats(cats: Seq<CatView>) -> Seq<Seq<char>>
    decreases cats.len(),
{
    if cats.len() == 0 {
        Seq::empty()
    } else {
        lines_of_cats(cats.drop_last()) + cat_lines(cats.last())
    }
}

/// The lines a category is written as: blank line and key (where keys are written), entries.
pub open spec fn block(x: CatView, with_keys: bool) -> Seq<Seq<char>> {
    (if with_keys {
        seq![Seq::empty(), x.0]
    } else {
        Seq::empty()
    }) + cat_lines(x)
}

pub open spec fn blocks(cats: Seq<CatView>, with_keys: bool) -> Seq<Seq<char>>
    decreases cats.len(),
{
    if cats.len() == 0 {
        Seq::empty()
    } else {
        blocks(cats.drop_last(), with_keys) + block(cats.last(), with_keys)
    }
}

// ---------------------------------------------------------------- dedup

proof fn lemma_dedup_contains(es: Seq<Seq<char>>, e: Seq<char>)
    ensures
        dedup(es).contains(e) == es.contains(e),
    decreases es.len(),
{
    if es.contains(e) {
        lemma_append_missing_keeps(Seq::empty(), es, e);
    } else if es.len() > 0 {
        lemma_dedup_contains(es.drop_last(), e);
        let t = dedup(es.drop_last());
        assert(!es.drop_last().contains(e)) by {
            if es.drop_last().contains(e) {
                let j = choose|j: int| 0 <= j < es.drop_last().len() && es.drop_last()[j] == e;
                assert(es[j] == e);
            }
        }
        assert(es.last() != e) by {
            assert(es[es.len() - 1] == es.last());
        }
        if !t.contains(es.last()) {
            assert(!t.push(es.last()).contains(e)) by {
                if t.push(es.last()).contains(e) {
                    let j = choose|j: int| 0 <= j < t.len() + 1 && t.push(es.last())[j] == e;
                    if j < t.len() {
                        assert(t[j] == e);
                    }
                }
            }
        }
    }
}

proof fn lemma_dedup_no_duplicates(es: Seq<Seq<char>>)
    ensures
        dedup(es).no_duplicates(),
    decreases es.len(),
{
    if es.len() > 0 {
        lemma_dedup_no_duplicates(es.drop_last());
        let t = dedup(es.drop_last());
        if !t.contains(es.last()) {
            let u = t.push(es.last());
            assert forall|i: int, j: int| 0 <= i < u.len() && 0 <= j < u.len() && i != j implies u[i]
                != u[j] by {
                if i == t.len() {
                    assert(u[j] == t[j]);
                } else if j == t.len() {
                    assert(u[i] == t[i]);
                } else {
                    assert(u[i] == t[i] && u[j] == t[j]);
                }
            }
        }
    }
}

proof fn lemma_dedup_nonempty(es: Seq<Seq<char>>)
    requires
        es.len() > 0,
    ensures
        dedup(es).len() > 0,
{
    assert(es[0] == es[0]);
    lemma_dedup_contains(es, es[0]);
}

// ---------------------------------------------------------------- lines of entries

/// An indented clean entry is read back as the entry itself.
proof fn lemma_entry_line_reads_back(k: Seq<char>, e: Seq<char>, label: Seq<char>)
    requires
        k.len() > 0,
        clean_entry(e),
        entry_line(k, e) != label,
    ensures
        !skipped_line(entry_line(k, e), label),
        is_indented(entry_line(k, e)),
        trim_start(entry_line(k, e)) == e,
{
    let l = seq![' ', ' '] + e;
    assert(l == entry_line(k, e));
    assert(l[2] == e[0]);
    assert(!is_blank(l));
    assert(l.drop_first() =~= seq![' '] + e);
    assert(l.drop_first().drop_first() =~= e);
    assert(l.drop_first()[0] == ' ');
    assert(is_indented(l));
    assert(trim_start(l) == trim_start(l.drop_first()));
    assert(trim_start(l.drop_first()) == trim_start(l.drop_first().drop_first()));
    assert(trim_start(e) == e);
}

/// Lines of entries under the same non-empty key are equal only for equal entries.
proof fn lemma_entry_line_injective(k1: Seq<char>, e1: Seq<char>, k2: Seq<char>, e2: Seq<char>)
    requires
        k1.len() > 0,
        k2.len() > 0,
        entry_line(k1, e1) == entry_line(k2, e2),
    ensures
        e1 == e2,
{
    assert(e1 =~= entry_line(k1, e1).skip(2));
    assert(e2 =~= entry_line(k2, e2).skip(2));
}

// ---------------------------------------------------------------- writing

proof fn lemma_emit_entries(o: Seq<Seq<char>>, s: Seq<Seq<char>>, k: Seq<char>, es: Seq<Seq<char>>)
    requires
        k.len() > 0,
        forall|j: int| 0 <= j < es.len() ==> !s.contains(entry_line(k, #[trigger] es[j])),
    ensures
        emit_entries((o, s), k, es) == (
            o + dedup(es).map_values(|e: Seq<char>| entry_line(k, e)),
            s + dedup(es).map_values(|e: Seq<char>| entry_line(k, e)),
        ),
    decreases es.len(),
{
    let f = |e: Seq<char>| entry_line(k, e);
    if es.len() == 0 {
        assert(dedup(es).map_values(f) =~= Seq::<Seq<char>>::empty());
        assert(o + Seq::<Seq<char>>::empty() =~= o);
        assert(s + Seq::<Seq<char>>::empty() =~= s);
    } else {
        lemma_emit_entries(o, s, k, es.drop_last());
        let d = dedup(es.drop_last());
        let x = es.last();
        let l = entry_line(k, x);
        assert(x == es[es.len() - 1]);
        let st = emit_entries((o, s), k, es.drop_last());
        if d.contains(x) {
            let j = choose|j: int| 0 <= j < d.len() && d[j] == x;
            assert(d.map_values(f)[j] == l);
            assert((s + d.map_values(f))[s.len() + j] == l);
        } else {
            assert(!(s + d.map_values(f)).contains(l)) by {
                if (s + d.map_values(f)).contains(l) {
                    let j = choose|j: int| 0 <= j < s.len() + d.len() && (s + d.map_values(f))[j] == l;
                    if j < s.len() {
                        assert(s[j] == l);
                    } else {
                        assert(d.map_values(f)[j - s.len()] == l);
                        lemma_entry_line_injective(k, d[j - s.len()], k, x);
                        assert(d[j - s.len()] == x);
                    }
                }
            }
            assert(d.push(x).map_values(f) =~= d.map_values(f).push(l));
            assert(o + d.map_values(f).push(l) =~= (o + d.map_values(f)).push(l));
            assert(s + d.map_values(f).push(l) =~= (s + d.map_values(f)).push(l));
        }
    }
}

proof fn lemma_lines_of_cats_from(cats: Seq<CatView>, l: Seq<char>)
    requires
        lines_of_cats(cats).contains(l),
    ensures
        exists|u: int, e: Seq<char>|
            0 <= u < cats.len() && cats[u].1.contains(e) && l == #[trigger] entry_line(cats[u].0, e),
    decreases cats.len(),
{
    let prev = lines_of_cats(cats.drop_last());
    let x = cats.last();
    let j = choose|j: int| 0 <= j < lines_of_cats(cats).len() && lines_of_cats(cats)[j] == l;
    if j < prev.len() {
        assert(prev[j] == l);
        lemma_lines_of_cats_from(cats.drop_last(), l);
        let (u, e) = choose|u: int, e: Seq<char>|
            0 <= u < cats.drop_last().len() && cats.drop_last()[u].1.contains(e) && l
                == #[trigger] entry_line(cats.drop_last()[u].0, e);
        assert(cats[u] == cats.drop_last()[u]);
    } else {
        let e = dedup(x.1)[j - prev.len()];
        assert(cat_lines(x)[j - prev.len()] == l);
        assert(dedup(x.1).contains(e));
        lemma_dedup_contains(x.1, e);
        assert(cats[cats.len() - 1] == x);
    }
}

/// The conditions the categories written in order meet.
pub open spec fn writable(cats: Seq<CatView>, label: Seq<char>) -> bool {
    &&& keys_unique(cats)
    &&& forall|t: int| 0 <= t < cats.len() ==> good_cat(#[trigger] cats[t], label)
    &&& forall|t: int, u: int|
        0 <= t < cats.len() && 0 <= u < cats.len() && t != u ==> apart(#[trigger] cats[t], #[trigger] cats[u])
}

/// The conditions under which each entry line is written exactly once per entry.
pub open spec fn emittable(cats: Seq<CatView>, label: Seq<char>) -> bool {
    &&& keys_unique(cats)
    &&& forall|t: int|
        0 <= t < cats.len() ==> (#[trigger] cats[t]).0.len() > 0 && forall|j: int|
            0 <= j < cats[t].1.len() ==> entry_line(cats[t].0, #[trigger] cats[t].1[j]) != label
    &&& forall|t: int, u: int|
        0 <= t < cats.len() && 0 <= u < cats.len() && t != u ==> apart(#[trigger] cats[t], #[trigger] cats[u])
}

proof fn lemma_writable_emittable(cats: Seq<CatView>, label: Seq<char>)
    requires
        writable(cats, label),
    ensures
        emittable(cats, label),
{
    assert forall|t: int| 0 <= t < cats.len() implies (#[trigger] cats[t]).0.len() > 0 && forall|j: int|
        0 <= j < cats[t].1.len() ==> entry_line(cats[t].0, #[trigger] cats[t].1[j]) != label by {
        assert(good_cat(cats[t], label));
        lemma_key_nonempty(cats[t].0, label);
    }
}

proof fn lemma_emit_cats(label: Seq<char>, cats: Seq<CatView>, with_keys: bool)
    requires
        emittable(cats, label),
    ensures
        emit_cats((seq![label], seq![label]), cats, with_keys) == (
            seq![label] + blocks(cats, with_keys),
            seq![label] + lines_of_cats(cats),
        ),
    decreases cats.len(),
{
    if cats.len() == 0 {
        assert(seq![label] + Seq::<Seq<char>>::empty() =~= seq![label]);
    } else {
        let prev = cats.drop_last();
        assert forall|t: int| 0 <= t < prev.len() implies (#[trigger] prev[t]).0.len() > 0 && forall|j: int|
            0 <= j < prev[t].1.len() ==> entry_line(prev[t].0, #[trigger] prev[t].1[j]) != label by {
            assert(prev[t] == cats[t]);
        }
        assert forall|t: int, u: int| 0 <= t < prev.len() && 0 <= u < prev.len() && t != u implies apart(
            #[trigger] prev[t],
            #[trigger] prev[u],
        ) by {
            assert(prev[t] == cats[t] && prev[u] == cats[u]);
        }
        assert(keys_unique(prev)) by {
            assert forall|i: int, j: int| 0 <= i < j < prev.len() implies (#[trigger] prev[i]).0 != (
            #[trigger] prev[j]).0 by {
                assert(prev[i] == cats[i] && prev[j] == cats[j]);
            }
        }
        lemma_emit_cats(label, prev, with_keys);
        let x = cats.last();
        let n = cats.len() - 1;
        assert(cats[n] == x);
        let o = seq![label] + blocks(prev, with_keys);
        let s = seq![label] + lines_of_cats(prev);
        let o2 = if with_keys {
            o + seq![Seq::empty(), x.0]
        } else {
            o
        };
        assert forall|j: int| 0 <= j < x.1.len() implies !s.contains(entry_line(x.0, #[trigger] x.1[j])) by {
            let l = entry_line(x.0, x.1[j]);
            assert(cats[n].1[j] == x.1[j]);
            if s.contains(l) {
                let m = choose|m: int| 0 <= m < s.len() && s[m] == l;
                if m == 0 {
                    assert(s[0] == label);
                } else {
                    assert(lines_of_cats(prev)[m - 1] == l);
                    lemma_lines_of_cats_from(prev, l);
                    let (u, e) = choose|u: int, e: Seq<char>|
                        0 <= u < prev.len() && prev[u].1.contains(e) && l == #[trigger] entry_line(
                            prev[u].0,
                            e,
                        );
                    assert(prev[u] == cats[u]);
                    assert(cats[u].0.len() > 0);
                    lemma_entry_line_injective(cats[u].0, e, x.0, x.1[j]);
                    assert(apart(cats[u], cats[n]));
                    assert(x.1.contains(x.1[j]));
                }
            }
        }
        lemma_emit_entries(o2, s, x.0, x.1);
        assert(o2 + cat_lines(x) =~= seq![label] + blocks(cats, with_keys));
        assert(s + cat_lines(x) =~= seq![label] + lines_of_cats(cats));
    }
}

// ---------------------------------------------------------------- reading back

/// The state after reading `lines` from state `st`.
pub open spec fn scan_from(st: (Seq<CatView>, Seq<char>), lines: Seq<Seq<char>>, label: Seq<char>) -> (
    Seq<CatView>,
    Seq<char>,
)
    decreases lines.len(),
{
    if lines.len() == 0 {
        st
    } else {
        scan_line(scan_from(st, lines.drop_last(), label), lines.last(), label)
    }
}

proof fn lemma_scan_body_from(lines: Seq<Seq<char>>, label: Seq<char>)
    ensures
        scan_body(lines, label) == scan_from((Seq::empty(), sentinel()), lines, label),
    decreases lines.len(),
{
    if lines.len() > 0 {
        lemma_scan_body_from(lines.drop_last(), label);
    }
}

proof fn lemma_scan_concat(
    st: (Seq<CatView>, Seq<char>),
    a: Seq<Seq<char>>,
    b: Seq<Seq<char>>,
    label: Seq<char>,
)
    ensures
        scan_from(st, a + b, label) == scan_from(scan_from(st, a, label), b, label),
    decreases b.len(),
{
    if b.len() == 0 {
        assert(a + b =~= a);
    } else {
        lemma_scan_concat(st, a, b.drop_last(), label);
        assert((a + b).drop_last() =~= a + b.drop_last());
        assert((a + b).last() == b.last());
    }
}

/// Reading the entry lines of distinct clean entries under the open key `k` appends them.
proof fn lemma_scan_entries(
    d: Seq<CatView>,
    k: Seq<char>,
    p: Seq<Seq<char>>,
    ds: Seq<Seq<char>>,
    label: Seq<char>,
)
    requires
        k.len() > 0,
        ds.no_duplicates(),
        forall|j: int|
            0 <= j < ds.len() ==> clean_entry(#[trigger] ds[j]) && entry_line(k, ds[j]) != label
                && !p.contains(ds[j]),
    ensures
        scan_from((d.push((k, p)), k), ds.map_values(|e: Seq<char>| entry_line(k, e)), label) == (
            d.push((k, p + ds)),
            k,
        ),
    decreases ds.len(),
{
    let f = |e: Seq<char>| entry_line(k, e);
    if ds.len() == 0 {
        assert(p + ds =~= p);
    } else {
        let ds1 = ds.drop_last();
        assert forall|j: int| 0 <= j < ds1.len() implies clean_entry(#[trigger] ds1[j]) && entry_line(
            k,
            ds1[j],
        ) != label && !p.contains(ds1[j]) by {
            assert(ds1[j] == ds[j]);
        }
        assert(ds1.no_duplicates()) by {
            assert forall|i: int, j: int| 0 <= i < ds1.len() && 0 <= j < ds1.len() && i != j implies ds1[i]
                != ds1[j] by {
                assert(ds1[i] == ds[i] && ds1[j] == ds[j]);
            }
        }
        lemma_scan_entries(d, k, p, ds1, label);
        assert(ds.map_values(f).drop_last() =~= ds1.map_values(f));
        let e = ds.last();
        assert(e == ds[ds.len() - 1]);
        assert(ds.map_values(f).last() == entry_line(k, e));
        lemma_entry_line_reads_back(k, e, label);
        let q = p + ds1;
        let cats = d.push((k, q));
        assert(key_index(cats, k) == d.len());
        assert(!q.contains(e)) by {
            if q.contains(e) {
                let j = choose|j: int| 0 <= j < q.len() && q[j] == e;
                if j < p.len() {
                    assert(p[j] == e);
                } else {
                    assert(ds[j - p.len()] == e);
                }
            }
        }
        assert(ds1.push(e) =~= ds);
        assert(q.push(e) =~= p + ds);
        assert(cats.update(d.len() as int, (k, q.push(e))) =~= d.push((k, p + ds)));
    }
}

proof fn lemma_key_absent(d: Seq<CatView>, k: Seq<char>)
    requires
        forall|i: int| 0 <= i < d.len() ==> (#[trigger] d[i]).0 != k,
    ensures
        key_index(d, k) < 0,
{
    lemma_key_index(d, k);
}

proof fn lemma_dedup_of_good(x: CatView, label: Seq<char>)
    requires
        good_cat(x, label),
    ensures
        dedup(x.1).no_duplicates(),
        dedup(x.1).len() > 0,
        forall|j: int|
            0 <= j < dedup(x.1).len() ==> clean_entry(#[trigger] dedup(x.1)[j]) && entry_line(
                x.0,
                dedup(x.1)[j],
            ) != label,
{
    lemma_dedup_no_duplicates(x.1);
    lemma_dedup_nonempty(x.1);
    assert forall|j: int| 0 <= j < dedup(x.1).len() implies clean_entry(#[trigger] dedup(x.1)[j])
        && entry_line(x.0, dedup(x.1)[j]) != label by {
        let e = dedup(x.1)[j];
        assert(dedup(x.1).contains(e));
        lemma_dedup_contains(x.1, e);
        let m = choose|m: int| 0 <= m < x.1.len() && x.1[m] == e;
        assert(clean_entry(x.1[m]));
    }
}

proof fn lemma_key_nonempty(k: Seq<char>, label: Seq<char>)
    requires
        is_key_line(k, label),
    ensures
        k.len() > 0,
{
    if k.len() == 0 {
        assert(is_blank(k));
    }
}

/// Reading the written blocks back gives each category once, in order, with its entries once.
/// Categories that read back from their written blocks: unique keys, good categories.
pub open spec fn readable(cats: Seq<CatView>, label: Seq<char>) -> bool {
    &&& keys_unique(cats)
    &&& forall|t: int| 0 <= t < cats.len() ==> good_cat(#[trigger] cats[t], label)
}

proof fn lemma_scan_blocks(cats: Seq<CatView>, label: Seq<char>, with_keys: bool)
    requires
        readable(cats, label),
        with_keys || (cats.len() <= 1 && forall|t: int| 0 <= t < cats.len() ==> (#[trigger] cats[t]).0
            == sentinel()),
    ensures
        scan_from((Seq::empty(), sentinel()), blocks(cats, with_keys), label) == (
            cats.map_values(|x: CatView| deduped(x)),
            if cats.len() > 0 && with_keys {
                cats.last().0
            } else {
                sentinel()
            },
        ),
    decreases cats.len(),
{
    let init = (Seq::<CatView>::empty(), sentinel());
    if cats.len() == 0 {
        assert(cats.map_values(|x: CatView| deduped(x)) =~= Seq::<CatView>::empty());
    } else {
        let prev = cats.drop_last();
        let x = cats.last();
        let n = cats.len() - 1;
        assert(cats[n] == x);
        assert(good_cat(x, label));
        assert forall|t: int| 0 <= t < prev.len() implies good_cat(#[trigger] prev[t], label) by {
            assert(prev[t] == cats[t]);
        }
        assert(keys_unique(prev)) by {
            assert forall|i: int, j: int| 0 <= i < j < prev.len() implies (#[trigger] prev[i]).0 != (
            #[trigger] prev[j]).0 by {
                assert(prev[i] == cats[i] && prev[j] == cats[j]);
            }
        }
        lemma_scan_blocks(prev, label, with_keys);
        let d = prev.map_values(|x: CatView| deduped(x));
        let st = scan_from(init, blocks(prev, with_keys), label);
        lemma_scan_concat(init, blocks(prev, with_keys), block(x, with_keys), label);
        lemma_key_nonempty(x.0, label);
        lemma_dedup_of_good(x, label);
        let ds = dedup(x.1);
        let f = |e: Seq<char>| entry_line(x.0, e);
        assert(cat_lines(x) == ds.map_values(f));
        assert(cats.map_values(|x: CatView| deduped(x)) =~= d.push((x.0, ds)));
        if with_keys {
            let head = seq![Seq::<char>::empty(), x.0];
            assert(block(x, with_keys) == head + cat_lines(x));
            lemma_scan_concat(st, head, cat_lines(x), label);
            assert(head.drop_last() =~= seq![Seq::<char>::empty()]);
            assert(head.drop_last().drop_last() =~= Seq::<Seq<char>>::empty());
            assert(is_blank(Seq::<char>::empty()));
            assert forall|i: int| 0 <= i < d.len() implies (#[trigger] d[i]).0 != x.0 by {
                assert(d[i] == deduped(prev[i]));
                assert(prev[i] == cats[i]);
            }
            lemma_key_absent(d, x.0);
            assert(st.0 == d);
            assert(skipped_line(Seq::<char>::empty(), label));
            assert(scan_from(st, head.drop_last().drop_last(), label) == st);
            assert(head.drop_last().last() == Seq::<char>::empty());
            assert(scan_from(st, head.drop_last(), label) == st);
            assert(head.last() == x.0);
            assert(!skipped_line(x.0, label) && !is_indented(x.0));
            assert(add_key(d, x.0) == d.push((x.0, Seq::empty())));
            assert(scan_from(st, head, label) == (d.push((x.0, Seq::empty())), x.0));
            lemma_scan_entries(d, x.0, Seq::empty(), ds, label);
            assert(Seq::<Seq<char>>::empty() + ds =~= ds);
        } else {
            assert(prev.len() == 0);
            assert(d =~= Seq::<CatView>::empty());
            assert(x.0 == sentinel());
            assert(block(x, with_keys) =~= cat_lines(x));
            let l0 = ds.map_values(f).take(1);
            let rest = ds.drop_first();
            assert(ds.map_values(f) =~= l0 + rest.map_values(f));
            lemma_scan_concat(st, l0, rest.map_values(f), label);
            assert(l0.drop_last() =~= Seq::<Seq<char>>::empty());
            assert(ds[0] == ds[0]);
            lemma_entry_line_reads_back(x.0, ds[0], label);
            assert(l0.last() == entry_line(x.0, ds[0]));
            assert(key_index(Seq::<CatView>::empty(), x.0) == -1);
            assert(scan_from(st, l0, label) == (Seq::<CatView>::empty().push((x.0, seq![ds[0]])), x.0));
            assert forall|j: int| 0 <= j < rest.len() implies clean_entry(#[trigger] rest[j]) && entry_line(
                x.0,
                rest[j],
            ) != label && !seq![ds[0]].contains(rest[j]) by {
                assert(rest[j] == ds[j + 1]);
                if seq![ds[0]].contains(rest[j]) {
                    assert(seq![ds[0]][0] == rest[j]);
                }
            }
            assert(rest.no_duplicates()) by {
                assert forall|i: int, j: int| 0 <= i < rest.len() && 0 <= j < rest.len() && i != j implies rest[i]
                    != rest[j] by {
                    assert(rest[i] == ds[i + 1] && rest[j] == ds[j + 1]);
                }
            }
            lemma_scan_entries(Seq::empty(), x.0, seq![ds[0]], rest, label);
            assert(seq![ds[0]] + rest =~= ds);
        }
    }
}

// ---------------------------------------------------------------- the footer read back

proof fn lemma_digit_char(d: int)
    requires
        0 <= d < 10,
    ensures
        is_digit(digit_char(d)),
        digit_value(digit_char(d)) == d,
        !is_field_sep(digit_char(d)),
{
}

proof fn lemma_decimal_text(n: nat)
    ensures
        is_number(decimal_text(n)),
        decimal_value(decimal_text(n)) == n,
        forall|j: int| 0 <= j < decimal_text(n).len() ==> !is_field_sep(#[trigger] decimal_text(n)[j]),
    decreases n,
{
    if n < 10 {
        lemma_digit_char(n as int);
        assert(decimal_text(n).drop_last() =~= Seq::<char>::empty());
        assert(decimal_text(n).last() == digit_char(n as int));
        assert(decimal_value(Seq::<char>::empty()) == 0);
        assert(decimal_value(decimal_text(n)) == decimal_value(decimal_text(n).drop_last()) * 10
            + digit_value(decimal_text(n).last()));
    } else {
        lemma_decimal_text(n / 10);
        lemma_digit_char((n % 10) as int);
        let t = decimal_text(n / 10);
        assert(decimal_text(n).drop_last() =~= t);
        assert(decimal_text(n).last() == digit_char((n % 10) as int));
        assert(decimal_value(decimal_text(n)) == decimal_value(t) * 10 + digit_value(
            digit_char((n % 10) as int),
        ));
        assert((n / 10) * 10 + n % 10 == n);
        assert forall|j: int| 0 <= j < decimal_text(n).len() implies is_digit(#[trigger] decimal_text(n)[j])
            && !is_field_sep(decimal_text(n)[j]) by {
            if j < t.len() {
                assert(decimal_text(n)[j] == t[j]);
            }
        }
    }
}

proof fn lemma_split_sep(x: Seq<char>, c: char, sep: spec_fn(char) -> bool)
    requires
        sep(c),
    ensures
        split_by(x.push(c), sep) == split_by(x, sep).push(Seq::empty()),
{
    assert(x.push(c).drop_last() =~= x);
}

proof fn lemma_split_plain(x: Seq<char>, a: Seq<char>, sep: spec_fn(char) -> bool)
    requires
        forall|j: int| 0 <= j < a.len() ==> !sep(#[trigger] a[j]),
    ensures
        split_by(x + a, sep) == split_by(x, sep).update(
            split_by(x, sep).len() - 1,
            split_by(x, sep).last() + a,
        ),
    decreases a.len(),
{
    crate::text::lemma_split_by_len(x, sep);
    let f = split_by(x, sep);
    if a.len() == 0 {
        assert(x + a =~= x);
        assert(f.last() + a =~= f.last());
        assert(f.update(f.len() - 1, f.last()) =~= f);
    } else {
        let a1 = a.drop_last();
        assert forall|j: int| 0 <= j < a1.len() implies !sep(#[trigger] a1[j]) by {
            assert(a1[j] == a[j]);
        }
        lemma_split_plain(x, a1, sep);
        assert((x + a).drop_last() =~= x + a1);
        assert((x + a).last() == a.last());
        assert(!sep(a[a.len() - 1]));
        assert((f.last() + a1).push(a.last()) =~= f.last() + a);
        assert(f.update(f.len() - 1, f.last() + a1).update(f.len() - 1, f.last() + a) =~= f.update(
            f.len() - 1,
            f.last() + a,
        ));
    }
}

proof fn lemma_split_prefix(s: Seq<char>, m: int, sep: spec_fn(char) -> bool)
    requires
        0 <= m <= s.len(),
    ensures
        split_by(s.take(m), sep).len() <= split_by(s, sep).len(),
        forall|f: int|
            0 <= f < split_by(s.take(m), sep).len() - 1 ==> #[trigger] split_by(s, sep)[f] == split_by(
                s.take(m),
                sep,
            )[f],
    decreases s.len(),
{
    if m == s.len() {
        assert(s.take(m) =~= s);
    } else {
        lemma_split_prefix(s.drop_last(), m, sep);
        assert(s.drop_last().take(m) =~= s.take(m));
        crate::text::lemma_split_by_len(s.drop_last(), sep);
    }
}

/// A footer reads back as the count it was written with.
proof fn lemma_footer_read_back(n: nat, ts: Seq<char>)
    requires
        n <= usize::MAX,
    ensures
        is_footer(footer_text(n, ts)),
        footer_count(footer_text(n, ts)) == n,
{
    let sep = |c: char| is_field_sep(c);
    let ft = footer_text(n, ts);
    let d = decimal_text(n);
    lemma_decimal_text(n);
    // the footer marker
    let at: int = 4;
    assert(ft.subrange(at, at + info_prefix().len()) =~= info_prefix());
    assert(has_infix(ft, info_prefix()));
    // the fields up to the count
    let a0 = seq!['/', '*', ' ', ' ', 'i', 'n', 'f', 'o'];
    let v1 = seq!['v', '1'];
    let e = Seq::<char>::empty();
    assert(e + a0 =~= a0);
    lemma_split_plain(e, a0, sep);
    assert(split_by(e, sep) =~= seq![e]);
    assert(split_by(a0, sep) =~= seq![a0]);
    let upto_colon = a0.push(':');
    lemma_split_sep(a0, ':', sep);
    let upto_tag = upto_colon + v1;
    lemma_split_plain(upto_colon, v1, sep);
    assert(split_by(upto_tag, sep) =~= seq![a0, v1]);
    let upto_comma = upto_tag.push(',');
    lemma_split_sep(upto_tag, ',', sep);
    let upto_count = upto_comma + d;
    lemma_split_plain(upto_comma, d, sep);
    assert(split_by(upto_count, sep) =~= seq![a0, v1, d]);
    let upto_stamp = upto_count.push(',');
    lemma_split_sep(upto_count, ',', sep);
    assert(split_by(upto_stamp, sep) =~= seq![a0, v1, d, e]);
    assert(ft.take(upto_stamp.len() as int) =~= upto_stamp);
    lemma_split_prefix(ft, upto_stamp.len() as int, sep);
    let fields = footer_fields(ft);
    assert(fields == split_by(ft, sep));
    assert(fields[1] == split_by(upto_stamp, sep)[1]);
    assert(fields[2] == split_by(upto_stamp, sep)[2]);
    assert(fields[1] =~= format_version());
}

// ---------------------------------------------------------------- key order

/// Categories in key order are the same categories, still apart and with unique keys.
proof fn lemma_sorted_writable(c: ContentsView)
    requires
        round_trippable(c),
    ensures
        writable(sorted_cats(c.cats), c.label),
        forall|t: int|
            0 <= t < sorted_cats(c.cats).len() ==> c.cats.contains(#[trigger] sorted_cats(c.cats)[t]),
        forall|i: int| 0 <= i < c.cats.len() ==> sorted_cats(c.cats).contains(#[trigger] c.cats[i]),
{
    let cats = c.cats;
    let sc = sorted_cats(cats);
    lemma_sorted_perm(cats);
    assert forall|t: int| 0 <= t < sc.len() implies good_cat(#[trigger] sc[t], c.label) by {
        let i = choose|i: int| 0 <= i < cats.len() && cats[i] == sc[t];
        assert(good_cat(cats[i], c.label));
    }
    assert forall|t: int, u: int| 0 <= t < sc.len() && 0 <= u < sc.len() && t != u implies apart(
        #[trigger] sc[t],
        #[trigger] sc[u],
    ) by {
        let i = choose|i: int| 0 <= i < cats.len() && cats[i] == sc[t];
        let j = choose|j: int| 0 <= j < cats.len() && cats[j] == sc[u];
        if t < u {
            assert(sc[t].0 != sc[u].0);
        } else {
            assert(sc[u].0 != sc[t].0);
        }
        assert(i != j);
        assert(apart(cats[i], cats[j]));
    }
}

// ---------------------------------------------------------------- the label and the count

proof fn lemma_emit_entries_prefix(st: (Seq<Seq<char>>, Seq<Seq<char>>), k: Seq<char>, es: Seq<Seq<char>>)
    ensures
        emit_entries(st, k, es).0.len() >= st.0.len(),
        emit_entries(st, k, es).1.len() >= st.1.len(),
        forall|i: int| 0 <= i < st.0.len() ==> #[trigger] emit_entries(st, k, es).0[i] == st.0[i],
    decreases es.len(),
{
    if es.len() > 0 {
        lemma_emit_entries_prefix(st, k, es.drop_last());
        let s = emit_entries(st, k, es.drop_last());
        assert forall|i: int| 0 <= i < st.0.len() implies #[trigger] emit_entries(st, k, es).0[i] == st.0[i] by {
            assert(s.0[i] == st.0[i]);
        }
    }
}

proof fn lemma_emit_cats_prefix(st: (Seq<Seq<char>>, Seq<Seq<char>>), cats: Seq<CatView>, with_keys: bool)
    ensures
        emit_cats(st, cats, with_keys).0.len() >= st.0.len(),
        emit_cats(st, cats, with_keys).1.len() >= st.1.len(),
        forall|i: int| 0 <= i < st.0.len() ==> #[trigger] emit_cats(st, cats, with_keys).0[i] == st.0[i],
    decreases cats.len(),
{
    if cats.len() > 0 {
        lemma_emit_cats_prefix(st, cats.drop_last(), with_keys);
        let s = emit_cats(st, cats.drop_last(), with_keys);
        let c = cats.last();
        let s2 = if with_keys {
            (s.0 + seq![Seq::empty(), c.0], s.1)
        } else {
            s
        };
        lemma_emit_entries_prefix(s2, c.0, c.1);
        assert forall|i: int| 0 <= i < st.0.len() implies #[trigger] emit_cats(st, cats, with_keys).0[i]
            == st.0[i] by {
            assert(s.0[i] == st.0[i]);
            assert(s2.0[i] == s.0[i]);
            assert(emit_entries(s2, c.0, c.1).0[i] == s2.0[i]);
        }
    }
}

/// Writing any catalog with a footer and reading the written lines back recovers its label
/// and, as the recorded count, the count just written.
pub proof fn law_footer_count_round_trip(c: ContentsView, ts: Seq<char>)
    requires
        !unchanged(c),
        emitted_count(c) <= usize::MAX,
    ensures
        parse_catalog(rendered_lines(c, ts)) is Some,
        parse_catalog(rendered_lines(c, ts))->0.label == c.label,
        parse_catalog(rendered_lines(c, ts))->0.count == emitted_count(c),
{
    let init = (seq![c.label], seq![c.label]);
    lemma_emit_cats_prefix(init, sorted_cats(c.cats), !only_sentinel(c.cats));
    let o = rendered_body(c).0;
    assert(o[0] == c.label);
    assert(emitted_count(c) >= 0);
    let n = emitted_count(c);
    let ft = footer_text(n as nat, ts);
    let lines = rendered_lines(c, ts);
    assert(lines == o + seq![Seq::<char>::empty(), Seq::<char>::empty(), ft]);
    assert(lines[0] == c.label);
    assert(lines.last() == ft);
    lemma_footer_read_back(n as nat, ts);
}

// ---------------------------------------------------------------- the law

/// What a written catalog reads back as: its label, its categories in key order with each
/// entry once, and the count just written.
pub open spec fn read_back(c: ContentsView) -> ContentsView {
    ContentsView {
        label: c.label,
        cats: sorted_cats(c.cats).map_values(|x: CatView| deduped(x)),
        count: emitted_count(c),
    }
}

/// Writing a catalog and reading the written lines back recovers its label, its categories
/// (each with its entries, once each, in key order, so the same set of keys), and as the
/// recorded count the count just written: for a catalog whose keys read as key lines, whose
/// categories all have entries that read back as themselves, and whose entries stand under one
/// key each, when the count changed so that a footer is written.
pub proof fn law_footer_round_trip(c: ContentsView, ts: Seq<char>)
    requires
        round_trippable(c),
        !unchanged(c),
        emitted_count(c) <= usize::MAX,
    ensures
        parse_catalog(rendered_lines(c, ts)) == Some(read_back(c)),
        keys_of(read_back(c).cats).to_set() == keys_of(c.cats).to_set(),
{
    let label = c.label;
    let sc = sorted_cats(c.cats);
    let wk = !only_sentinel(c.cats);
    lemma_sorted_writable(c);
    if !wk {
        assert(c.cats.len() == 1);
        let key = |x: CatView| cat_key(x);
        let s0 = c.cats;
        assert(s0.drop_last() =~= Seq::<CatView>::empty());
        assert(crate::order::sorted_by(s0.drop_last(), key) == s0.drop_last());
        assert(crate::order::insert_by(s0.drop_last(), s0.last(), key) == seq![s0.last()]);
        assert(sorted_cats(s0) == crate::order::insert_by(
            crate::order::sorted_by(s0.drop_last(), key),
            s0.last(),
            key,
        ));
        assert(seq![s0.last()] =~= s0);
    }
    lemma_writable_emittable(sc, label);
    lemma_emit_cats(label, sc, wk);
    let o = rendered_body(c).0;
    assert(o == seq![label] + blocks(sc, wk));
    let n = emitted_count(c);
    let ft = footer_text(n as nat, ts);
    let lines = rendered_lines(c, ts);
    assert(lines == o + seq![Seq::<char>::empty(), Seq::<char>::empty(), ft]);
    lemma_footer_read_back(n as nat, ts);
    assert(lines.last() == ft);
    assert(lines[0] == label);
    let blank2 = seq![Seq::<char>::empty(), Seq::<char>::empty()];
    assert(body_of(lines) =~= blocks(sc, wk) + blank2);
    lemma_scan_body_from(body_of(lines), label);
    let init = (Seq::<CatView>::empty(), sentinel());
    lemma_scan_concat(init, blocks(sc, wk), blank2, label);
    lemma_scan_blocks(sc, label, wk);
    let d = sc.map_values(|x: CatView| deduped(x));
    let st = scan_from(init, blocks(sc, wk), label);
    assert(st.0 == d);
    assert(skipped_line(Seq::<char>::empty(), label)) by {
        assert(is_blank(Seq::<char>::empty()));
    }
    assert(blank2.drop_last() =~= seq![Seq::<char>::empty()]);
    assert(blank2.drop_last().drop_last() =~= Seq::<Seq<char>>::empty());
    assert(blank2.drop_last().last() == Seq::<char>::empty());
    assert(scan_from(st, blank2.drop_last().drop_last(), label) == st);
    assert(scan_from(st, blank2.drop_last(), label) == st);
    assert(blank2.last() == Seq::<char>::empty());
    assert(scan_from(st, blank2, label) == st);
    // nothing is demoted: every category keeps entries
    let empty_p = |x: CatView| is_empty_cat(x);
    assert(d.all(|x: CatView| !empty_p(x))) by {
        assert forall|t: int| 0 <= t < d.len() implies !empty_p(#[trigger] d[t]) by {
            assert(good_cat(sc[t], label));
            lemma_dedup_nonempty(sc[t].1);
        }
    }
    d.lemma_all_neg_filter_empty(empty_p);
    assert(stray_keys(d).len() == 0);
    assert(demote(d) == d);
    // the same keys
    let kr = keys_of(d);
    let kc = keys_of(c.cats);
    assert forall|k: Seq<char>| kr.to_set().contains(k) <==> kc.to_set().contains(k) by {
        if kr.to_set().contains(k) {
            let t = choose|t: int| 0 <= t < kr.len() && kr[t] == k;
            assert(d[t].0 == sc[t].0);
            assert(c.cats.contains(sc[t]));
            let i = choose|i: int| 0 <= i < c.cats.len() && c.cats[i] == sc[t];
            assert(kc[i] == k);
        }
        if kc.to_set().contains(k) {
            let i = choose|i: int| 0 <= i < kc.len() && kc[i] == k;
            assert(sc.contains(c.cats[i]));
            let t = choose|t: int| 0 <= t < sc.len() && sc[t] == c.cats[i];
            assert(kr[t] == k);
        }
    }
    assert(kr.to_set() =~= kc.to_set());
}

// ---------------------------------------------------------------- running again

/// Sorting categories with unique keys keeps the keys unique and the same categories.
proof fn lemma_sorted_perm(cats: Seq<CatView>)
    requires
        keys_unique(cats),
    ensures
        keys_unique(sorted_cats(cats)),
        sorted_cats(cats).to_multiset() == cats.to_multiset(),
        forall|t: int| 0 <= t < sorted_cats(cats).len() ==> cats.contains(#[trigger] sorted_cats(cats)[t]),
        forall|i: int| 0 <= i < cats.len() ==> sorted_cats(cats).contains(#[trigger] cats[i]),
{
    broadcast use vstd::seq_lib::group_to_multiset_ensures;

    let sc = sorted_cats(cats);
    lemma_sorted_by_multiset(cats, |x: CatView| cat_key(x));
    assert(cats.no_duplicates()) by {
        assert forall|i: int, j: int| 0 <= i < cats.len() && 0 <= j < cats.len() && i != j implies cats[i]
            != cats[j] by {
            if i < j {
                assert(cats[i].0 != cats[j].0);
            } else {
                assert(cats[j].0 != cats[i].0);
            }
        }
    }
    cats.lemma_multiset_has_no_duplicates();
    assert forall|x: CatView| sc.to_multiset().contains(x) implies sc.to_multiset().count(x) == 1 by {}
    sc.lemma_multiset_has_no_duplicates_conv();
    assert forall|t: int| 0 <= t < sc.len() implies cats.contains(#[trigger] sc[t]) by {
        assert(sc.to_multiset().count(sc[t]) > 0);
    }
    assert forall|i: int| 0 <= i < cats.len() implies sc.contains(#[trigger] cats[i]) by {
        assert(cats.to_multiset().count(cats[i]) > 0);
    }
    assert forall|t: int, u: int| 0 <= t < u < sc.len() implies (#[trigger] sc[t]).0 != (
    #[trigger] sc[u]).0 by {
        let i = choose|i: int| 0 <= i < cats.len() && cats[i] == sc[t];
        let j = choose|j: int| 0 <= j < cats.len() && cats[j] == sc[u];
        assert(sc[t] != sc[u]);
        if i < j {
            assert(cats[i].0 != cats[j].0);
        } else if j < i {
            assert(cats[j].0 != cats[i].0);
        }
    }
}

/// The number of entry lines the categories are written as.
pub open spec fn total(cats: Seq<CatView>) -> int
    decreases cats.len(),
{
    if cats.len() == 0 {
        0
    } else {
        total(cats.drop_last()) + dedup(cats.last().1).len()
    }
}

proof fn lemma_lines_len(cats: Seq<CatView>)
    ensures
        lines_of_cats(cats).len() == total(cats),
    decreases cats.len(),
{
    if cats.len() > 0 {
        lemma_lines_len(cats.drop_last());
    }
}

proof fn lemma_total_remove(t: Seq<CatView>, j: int)
    requires
        0 <= j < t.len(),
    ensures
        total(t) == total(t.remove(j)) + dedup(t[j].1).len(),
    decreases t.len(),
{
    if j == t.len() - 1 {
        assert(t.remove(j) =~= t.drop_last());
    } else {
        lemma_total_remove(t.drop_last(), j);
        assert(t.remove(j).drop_last() =~= t.drop_last().remove(j));
        assert(t.remove(j).last() == t.last());
    }
}

/// The count does not depend on the order of the categories.
proof fn lemma_total_perm(s: Seq<CatView>, t: Seq<CatView>)
    requires
        s.to_multiset() == t.to_multiset(),
    ensures
        total(s) == total(t),
    decreases s.len(),
{
    broadcast use vstd::seq_lib::group_to_multiset_ensures;

    if s.len() == 0 {
        assert(s.to_multiset().len() == 0);
        assert(t.to_multiset().len() == t.len());
    } else {
        let x = s.last();
        assert(s.drop_last().push(x) =~= s);
        assert(s.to_multiset().count(x) > 0);
        assert(t.contains(x));
        let j = choose|j: int| 0 <= j < t.len() && t[j] == x;
        assert(t.remove(j).to_multiset() =~= s.drop_last().to_multiset());
        lemma_total_perm(s.drop_last(), t.remove(j));
        lemma_total_remove(t, j);
    }
}

/// Categories of the same lengths once deduplicated have the same count.
proof fn lemma_total_pointwise(s: Seq<CatView>, t: Seq<CatView>)
    requires
        s.len() == t.len(),
        forall|i: int| 0 <= i < s.len() ==> dedup((#[trigger] s[i]).1).len() == dedup(t[i].1).len(),
    ensures
        total(s) == total(t),
    decreases s.len(),
{
    if s.len() > 0 {
        assert(s[s.len() - 1] == s.last());
        lemma_total_pointwise(s.drop_last(), t.drop_last());
    }
}

proof fn lemma_dedup_id(es: Seq<Seq<char>>)
    requires
        es.no_duplicates(),
    ensures
        dedup(es) == es,
    decreases es.len(),
{
    if es.len() > 0 {
        let e1 = es.drop_last();
        assert(e1.no_duplicates()) by {
            assert forall|i: int, j: int| 0 <= i < e1.len() && 0 <= j < e1.len() && i != j implies e1[i]
                != e1[j] by {
                assert(e1[i] == es[i] && e1[j] == es[j]);
            }
        }
        lemma_dedup_id(e1);
        assert(!e1.contains(es.last())) by {
            if e1.contains(es.last()) {
                let j = choose|j: int| 0 <= j < e1.len() && e1[j] == es.last();
                assert(es[j] == es[es.len() - 1]);
            }
        }
        assert(e1.push(es.last()) =~= es);
    }
}

proof fn lemma_append_missing_noop(es: Seq<Seq<char>>, new: Seq<Seq<char>>)
    requires
        forall|j: int| 0 <= j < new.len() ==> es.contains(#[trigger] new[j]),
    ensures
        append_missing(es, new) == es,
    decreases new.len(),
{
    if new.len() > 0 {
        assert(new[new.len() - 1] == new.last());
        assert forall|j: int| 0 <= j < new.drop_last().len() implies es.contains(#[trigger] new.drop_last()[j]) by {
            assert(new.drop_last()[j] == new[j]);
        }
        lemma_append_missing_noop(es, new.drop_last());
    }
}

proof fn lemma_key_index_unique(d: Seq<CatView>, t: int)
    requires
        keys_unique(d),
        0 <= t < d.len(),
    ensures
        key_index(d, d[t].0) == t,
{
    lemma_key_index(d, d[t].0);
    let ki = key_index(d, d[t].0);
    if ki != t {
        if ki < t {
            assert(d[ki].0 != d[t].0);
        } else {
            assert(d[t].0 != d[ki].0);
        }
    }
}

/// Merging a manifest that brings nothing new leaves the categories as they are.
proof fn lemma_merge_noop(d: Seq<CatView>, ms: Seq<CatView>)
    requires
        keys_unique(d),
        forall|i: int| 0 <= i < ms.len() ==> keys_of(d).contains((#[trigger] ms[i]).0),
        forall|i: int, j: int|
            0 <= i < ms.len() && 0 <= j < ms[i].1.len() ==> files_entry(d, ms[i].0, #[trigger] ms[i].1[j]),
    ensures
        merge_cats(d, ms) == d,
    decreases ms.len(),
{
    if ms.len() > 0 {
        let m1 = ms.drop_last();
        assert forall|i: int| 0 <= i < m1.len() implies keys_of(d).contains((#[trigger] m1[i]).0) by {
            assert(m1[i] == ms[i]);
        }
        assert forall|i: int, j: int| 0 <= i < m1.len() && 0 <= j < m1[i].1.len() implies files_entry(
            d,
            m1[i].0,
            #[trigger] m1[i].1[j],
        ) by {
            assert(m1[i] == ms[i]);
        }
        lemma_merge_noop(d, m1);
        let x = ms.last();
        let n = ms.len() - 1;
        assert(ms[n] == x);
        assert(keys_of(d).contains(x.0));
        let t = choose|t: int| 0 <= t < keys_of(d).len() && keys_of(d)[t] == x.0;
        assert(d[t].0 == x.0);
        lemma_key_index_unique(d, t);
        assert forall|j: int| 0 <= j < x.1.len() implies d[t].1.contains(#[trigger] x.1[j]) by {
            assert(ms[n].1[j] == x.1[j]);
            assert(files_entry(d, x.0, x.1[j]));
            let u = choose|u: int| 0 <= u < d.len() && (#[trigger] d[u]).0 == x.0 && d[u].1.contains(x.1[j]);
            if u != t {
                if u < t {
                    assert(d[u].0 != d[t].0);
                } else {
                    assert(d[t].0 != d[u].0);
                }
            }
        }
        lemma_append_missing_noop(d[t].1, x.1);
        assert(merge_category(d, x) =~= d);
    }
}

/// Running again changes nothing: feed the lines a run wrote (for its working catalog `c`,
/// with a footer) back in as the next run's catalog file, with a manifest `m` that brings no
/// category and no entry the catalog lacks; however the next run orders the entries of each
/// category (`next`: the merged catalog, each category's entries rearranged), it writes as many
/// entry lines as the footer recorded, so it reports no change. This holds for catalogs that
/// read back as themselves (see `law_footer_round_trip`) and whose entry lines all differ from
/// the next label.
pub proof fn law_rerun_changes_nothing(c: ContentsView, ts: Seq<char>, m: ContentsView, next: ContentsView)
    requires
        round_trippable(c),
        !unchanged(c),
        emitted_count(c) <= usize::MAX,
        forall|i: int| 0 <= i < m.cats.len() ==> keys_of(c.cats).contains((#[trigger] m.cats[i]).0),
        forall|i: int, j: int|
            0 <= i < m.cats.len() && 0 <= j < m.cats[i].1.len() ==> files_entry(
                c.cats,
                m.cats[i].0,
                #[trigger] m.cats[i].1[j],
            ),
        forall|i: int, j: int|
            0 <= i < c.cats.len() && 0 <= j < c.cats[i].1.len() ==> entry_line(
                c.cats[i].0,
                #[trigger] c.cats[i].1[j],
            ) != m.label,
        next.label == m.label,
        next.count == merged(m, parse_catalog(rendered_lines(c, ts))).count,
        next.cats.len() == merged(m, parse_catalog(rendered_lines(c, ts))).cats.len(),
        forall|i: int|
            0 <= i < next.cats.len() ==> (#[trigger] next.cats[i]).0 == merged(
                m,
                parse_catalog(rendered_lines(c, ts)),
            ).cats[i].0 && next.cats[i].1.to_multiset() == merged(
                m,
                parse_catalog(rendered_lines(c, ts)),
            ).cats[i].1.to_multiset(),
    ensures
        unchanged(next),
{
    broadcast use vstd::seq_lib::group_to_multiset_ensures;

    law_footer_round_trip(c, ts);
    let sc = sorted_cats(c.cats);
    let d = sc.map_values(|x: CatView| deduped(x));
    let n = emitted_count(c);
    lemma_sorted_perm(c.cats);
    lemma_sorted_writable(c);
    // the catalog file read back: the sorted categories, deduplicated
    assert(keys_unique(d)) by {
        assert forall|i: int, j: int| 0 <= i < j < d.len() implies (#[trigger] d[i]).0 != (#[trigger] d[j]).0 by {
            assert(d[i].0 == sc[i].0 && d[j].0 == sc[j].0);
        }
    }
    // the manifest brings nothing new to it
    assert forall|i: int| 0 <= i < m.cats.len() implies keys_of(d).contains((#[trigger] m.cats[i]).0) by {
        let k = m.cats[i].0;
        let u = choose|u: int| 0 <= u < keys_of(c.cats).len() && keys_of(c.cats)[u] == k;
        assert(sc.contains(c.cats[u]));
        let t = choose|t: int| 0 <= t < sc.len() && sc[t] == c.cats[u];
        assert(keys_of(d)[t] == k);
    }
    assert forall|i: int, j: int| 0 <= i < m.cats.len() && 0 <= j < m.cats[i].1.len() implies files_entry(
        d,
        m.cats[i].0,
        #[trigger] m.cats[i].1[j],
    ) by {
        let k = m.cats[i].0;
        let e = m.cats[i].1[j];
        let u = choose|u: int| 0 <= u < c.cats.len() && (#[trigger] c.cats[u]).0 == k && c.cats[u].1.contains(e);
        assert(sc.contains(c.cats[u]));
        let t = choose|t: int| 0 <= t < sc.len() && sc[t] == c.cats[u];
        lemma_dedup_contains(sc[t].1, e);
        assert(d[t] == deduped(sc[t]));
    }
    lemma_merge_noop(d, m.cats);
    let mg = merged(m, parse_catalog(rendered_lines(c, ts)));
    assert(mg.cats == d);
    assert(mg.count == n);
    // each category of the next run holds, in some order, the entries read back
    assert(next.cats.len() == d.len());
    assert forall|i: int| 0 <= i < next.cats.len() implies (#[trigger] next.cats[i]).1.to_multiset()
        == d[i].1.to_multiset() by {
        assert(mg.cats[i] == d[i]);
    }
    assert forall|i: int| 0 <= i < next.cats.len() implies dedup((#[trigger] next.cats[i]).1).len() == dedup(
        d[i].1,
    ).len() && next.cats[i].1.no_duplicates() && forall|e: Seq<char>|
        next.cats[i].1.contains(e) ==> sc[i].1.contains(e) by {
        let ni = next.cats[i].1;
        let di = d[i].1;
        assert(ni.to_multiset() == di.to_multiset());
        lemma_dedup_no_duplicates(sc[i].1);
        assert(di == dedup(sc[i].1));
        di.lemma_multiset_has_no_duplicates();
        assert forall|x: Seq<char>| ni.to_multiset().contains(x) implies ni.to_multiset().count(x) == 1 by {
            assert(di.to_multiset().contains(x));
        }
        ni.lemma_multiset_has_no_duplicates_conv();
        lemma_dedup_id(ni);
        lemma_dedup_id(di);
        assert(ni.len() == ni.to_multiset().len());
        assert(di.len() == di.to_multiset().len());
        assert forall|e: Seq<char>| ni.contains(e) implies sc[i].1.contains(e) by {
            assert(ni.to_multiset().count(e) > 0);
            assert(di.to_multiset().count(e) > 0);
            assert(di.contains(e));
            lemma_dedup_contains(sc[i].1, e);
        }
    }
    // the next run writes each of its entries once
    assert(keys_unique(next.cats)) by {
        assert forall|i: int, j: int| 0 <= i < j < next.cats.len() implies (#[trigger] next.cats[i]).0 != (
        #[trigger] next.cats[j]).0 by {
            assert(next.cats[i].0 == d[i].0 && next.cats[j].0 == d[j].0);
        }
    }
    assert(emittable(next.cats, m.label)) by {
        assert forall|t: int| 0 <= t < next.cats.len() implies (#[trigger] next.cats[t]).0.len() > 0
            && forall|j: int|
            0 <= j < next.cats[t].1.len() ==> entry_line(next.cats[t].0, #[trigger] next.cats[t].1[j])
                != m.label by {
            assert(good_cat(sc[t], c.label));
            lemma_key_nonempty(sc[t].0, c.label);
            assert(c.cats.contains(sc[t]));
            let u = choose|u: int| 0 <= u < c.cats.len() && c.cats[u] == sc[t];
            assert forall|j: int| 0 <= j < next.cats[t].1.len() implies entry_line(
                next.cats[t].0,
                #[trigger] next.cats[t].1[j],
            ) != m.label by {
                let e = next.cats[t].1[j];
                assert(next.cats[t].1.contains(e));
                assert(sc[t].1.contains(e));
                let w = choose|w: int| 0 <= w < c.cats[u].1.len() && c.cats[u].1[w] == e;
                assert(entry_line(c.cats[u].0, c.cats[u].1[w]) != m.label);
            }
        }
        assert forall|t: int, u: int| 0 <= t < next.cats.len() && 0 <= u < next.cats.len() && t != u implies apart(
            #[trigger] next.cats[t],
            #[trigger] next.cats[u],
        ) by {
            assert(apart(sc[t], sc[u]));
            assert forall|e: Seq<char>| next.cats[t].1.contains(e) implies !next.cats[u].1.contains(e) by {
                assert(sc[t].1.contains(e));
                if next.cats[u].1.contains(e) {
                    assert(sc[u].1.contains(e));
                }
            }
        }
    }
    let sn = sorted_cats(next.cats);
    lemma_sorted_perm(next.cats);
    assert(emittable(sn, m.label)) by {
        assert forall|t: int| 0 <= t < sn.len() implies (#[trigger] sn[t]).0.len() > 0 && forall|j: int|
            0 <= j < sn[t].1.len() ==> entry_line(sn[t].0, #[trigger] sn[t].1[j]) != m.label by {
            let i = choose|i: int| 0 <= i < next.cats.len() && next.cats[i] == sn[t];
            assert(next.cats[i].0.len() > 0);
        }
        assert forall|t: int, u: int| 0 <= t < sn.len() && 0 <= u < sn.len() && t != u implies apart(
            #[trigger] sn[t],
            #[trigger] sn[u],
        ) by {
            let i = choose|i: int| 0 <= i < next.cats.len() && next.cats[i] == sn[t];
            let j = choose|j: int| 0 <= j < next.cats.len() && next.cats[j] == sn[u];
            if i == j {
                if t < u {
                    assert(sn[t].0 != sn[u].0);
                } else {
                    assert(sn[u].0 != sn[t].0);
                }
            }
        }
    }
    lemma_emit_cats(m.label, sn, !only_sentinel(next.cats));
    lemma_lines_len(sn);
    lemma_total_perm(sn, next.cats);
    lemma_total_pointwise(next.cats, d);
    // the count read back is the count written
    lemma_writable_emittable(sc, c.label);
    lemma_emit_cats(c.label, sc, !only_sentinel(c.cats));
    lemma_lines_len(sc);
    assert forall|i: int| 0 <= i < d.len() implies dedup((#[trigger] d[i]).1).len() == dedup(sc[i].1).len() by {
        lemma_dedup_no_duplicates(sc[i].1);
        lemma_dedup_id(dedup(sc[i].1));
    }
    lemma_total_pointwise(d, sc);
}

// ---------------------------------------------------------------- the keys read back

/// The entries of `es` whose lines under `k` are not written yet (not in `seen`), once each,
/// in order: what the written catalog holds of them.
pub open spec fn fresh_entries(seen: Seq<Seq<char>>, k: Seq<char>, es: Seq<Seq<char>>) -> Seq<Seq<char>>
    decreases es.len(),
{
    if es.len() == 0 {
        Seq::empty()
    } else {
        let f = fresh_entries(seen, k, es.drop_last());
        if (seen + f.map_values(|e: Seq<char>| entry_line(k, e))).contains(entry_line(k, es.last())) {
            f
        } else {
            f.push(es.last())
        }
    }
}

/// The categories in order with the entries that the written catalog holds of each: an entry
/// whose line was written for an earlier category, or is the label, is left out.
pub open spec fn read_cats(cats: Seq<CatView>, label: Seq<char>) -> Seq<CatView>
    decreases cats.len(),
{
    if cats.len() == 0 {
        Seq::empty()
    } else {
        let r = read_cats(cats.drop_last(), label);
        r.push(
            (
                cats.last().0,
                fresh_entries(seq![label] + lines_of_cats(r), cats.last().0, cats.last().1),
            ),
        )
    }
}

proof fn lemma_fresh_entries(o: Seq<Seq<char>>, s: Seq<Seq<char>>, k: Seq<char>, es: Seq<Seq<char>>)
    requires
        k.len() > 0,
    ensures
        emit_entries((o, s), k, es) == (
            o + fresh_entries(s, k, es).map_values(|e: Seq<char>| entry_line(k, e)),
            s + fresh_entries(s, k, es).map_values(|e: Seq<char>| entry_line(k, e)),
        ),
        fresh_entries(s, k, es).no_duplicates(),
        forall|j: int|
            0 <= j < fresh_entries(s, k, es).len() ==> es.contains(#[trigger] fresh_entries(s, k, es)[j]),
    decreases es.len(),
{
    let f = |e: Seq<char>| entry_line(k, e);
    if es.len() == 0 {
        assert(fresh_entries(s, k, es).map_values(f) =~= Seq::<Seq<char>>::empty());
        assert(o + Seq::<Seq<char>>::empty() =~= o);
        assert(s + Seq::<Seq<char>>::empty() =~= s);
    } else {
        lemma_fresh_entries(o, s, k, es.drop_last());
        let d = fresh_entries(s, k, es.drop_last());
        let x = es.last();
        let l = entry_line(k, x);
        assert(x == es[es.len() - 1]);
        assert forall|j: int| 0 <= j < d.len() implies es.contains(#[trigger] d[j]) by {
            let m = choose|m: int| 0 <= m < es.drop_last().len() && es.drop_last()[m] == d[j];
            assert(es[m] == d[j]);
        }
        if !(s + d.map_values(f)).contains(l) {
            assert(d.push(x).map_values(f) =~= d.map_values(f).push(l));
            assert(o + d.map_values(f).push(l) =~= (o + d.map_values(f)).push(l));
            assert(s + d.map_values(f).push(l) =~= (s + d.map_values(f)).push(l));
            let u = d.push(x);
            assert forall|i: int, j: int| 0 <= i < u.len() && 0 <= j < u.len() && i != j implies u[i]
                != u[j] by {
                if i == d.len() || j == d.len() {
                    let m = if i == d.len() { j } else { i };
                    assert(u[m] == d[m]);
                    if d[m] == x {
                        assert(d.map_values(f)[m] == l);
                        assert((s + d.map_values(f))[s.len() + m] == l);
                    }
                } else {
                    assert(u[i] == d[i] && u[j] == d[j]);
                }
            }
            assert forall|j: int| 0 <= j < u.len() implies es.contains(#[trigger] u[j]) by {
                if j < d.len() {
                    assert(u[j] == d[j]);
                }
            }
        }
    }
}

proof fn lemma_read_cats_keys(cats: Seq<CatView>, label: Seq<char>)
    ensures
        read_cats(cats, label).len() == cats.len(),
        forall|t: int| 0 <= t < cats.len() ==> (#[trigger] read_cats(cats, label)[t]).0 == cats[t].0,
        forall|t: int, j: int|
            0 <= t < cats.len() && 0 <= j < read_cats(cats, label)[t].1.len() ==> cats[t].1.contains(
                #[trigger] read_cats(cats, label)[t].1[j],
            ),
    decreases cats.len(),
{
    if cats.len() > 0 {
        lemma_read_cats_keys(cats.drop_last(), label);
        let r = read_cats(cats.drop_last(), label);
        let x = cats.last();
        assert(cats[cats.len() - 1] == x);
        let seen = seq![label] + lines_of_cats(r);
        assert forall|t: int| 0 <= t < cats.len() implies (#[trigger] read_cats(cats, label)[t]).0 == cats[t].0 by {
            if t < cats.len() - 1 {
                assert(read_cats(cats, label)[t] == r[t]);
                assert(cats.drop_last()[t] == cats[t]);
            }
        }
        assert forall|t: int, j: int|
            0 <= t < cats.len() && 0 <= j < read_cats(cats, label)[t].1.len() implies cats[t].1.contains(
                #[trigger] read_cats(cats, label)[t].1[j],
            ) by {
            if t < cats.len() - 1 {
                assert(read_cats(cats, label)[t] == r[t]);
                assert(cats.drop_last()[t] == cats[t]);
            } else {
                if x.0.len() > 0 {
                    lemma_fresh_entries(Seq::empty(), seen, x.0, x.1);
                } else {
                    lemma_fresh_entries_within(seen, x.0, x.1);
                }
            }
        }
    }
}

proof fn lemma_fresh_entries_within(s: Seq<Seq<char>>, k: Seq<char>, es: Seq<Seq<char>>)
    ensures
        forall|j: int|
            0 <= j < fresh_entries(s, k, es).len() ==> es.contains(#[trigger] fresh_entries(s, k, es)[j]),
    decreases es.len(),
{
    if es.len() > 0 {
        lemma_fresh_entries_within(s, k, es.drop_last());
        let d = fresh_entries(s, k, es.drop_last());
        assert(es[es.len() - 1] == es.last());
        assert forall|j: int| 0 <= j < fresh_entries(s, k, es).len() implies es.contains(
            #[trigger] fresh_entries(s, k, es)[j],
        ) by {
            if j < d.len() {
                let m = choose|m: int| 0 <= m < es.drop_last().len() && es.drop_last()[m] == d[j];
                assert(es[m] == d[j]);
            }
        }
    }
}

/// Writing categories with non-empty keys writes, for each, the entries read back.
proof fn lemma_emit_read(label: Seq<char>, cats: Seq<CatView>, with_keys: bool)
    requires
        forall|t: int| 0 <= t < cats.len() ==> (#[trigger] cats[t]).0.len() > 0,
    ensures
        emit_cats((seq![label], seq![label]), cats, with_keys) == (
            seq![label] + blocks(read_cats(cats, label), with_keys),
            seq![label] + lines_of_cats(read_cats(cats, label)),
        ),
        forall|t: int| 0 <= t < cats.len() ==> (#[trigger] read_cats(cats, label)[t]).1.no_duplicates(),
    decreases cats.len(),
{
    if cats.len() == 0 {
        assert(seq![label] + Seq::<Seq<char>>::empty() =~= seq![label]);
    } else {
        let prev = cats.drop_last();
        assert forall|t: int| 0 <= t < prev.len() implies (#[trigger] prev[t]).0.len() > 0 by {
            assert(prev[t] == cats[t]);
        }
        lemma_emit_read(label, prev, with_keys);
        lemma_read_cats_keys(prev, label);
        let x = cats.last();
        assert(cats[cats.len() - 1] == x);
        let r = read_cats(prev, label);
        let o = seq![label] + blocks(r, with_keys);
        let s = seq![label] + lines_of_cats(r);
        let o2 = if with_keys {
            o + seq![Seq::empty(), x.0]
        } else {
            o
        };
        lemma_fresh_entries(o2, s, x.0, x.1);
        let fr = fresh_entries(s, x.0, x.1);
        lemma_dedup_id(fr);
        let y = (x.0, fr);
        assert(cat_lines(y) == fr.map_values(|e: Seq<char>| entry_line(x.0, e)));
        let rc = read_cats(cats, label);
        assert(rc == r.push(y));
        assert(rc.drop_last() =~= r);
        assert(o2 + cat_lines(y) =~= seq![label] + blocks(rc, with_keys));
        assert(s + cat_lines(y) =~= seq![label] + lines_of_cats(rc));
        assert forall|t: int| 0 <= t < cats.len() implies (#[trigger] rc[t]).1.no_duplicates() by {
            if t < prev.len() {
                assert(rc[t] == r[t]);
            }
        }
    }
}

/// Writing a catalog and reading the written lines back recovers its set of category keys,
/// for a catalog whose keys read as key lines and whose entries read back as themselves, when
/// every category keeps an entry line of its own once repeated lines are left out, and a footer
/// is written.
pub proof fn law_footer_keys_round_trip(c: ContentsView, ts: Seq<char>)
    requires
        keys_unique(c.cats),
        forall|i: int| 0 <= i < c.cats.len() ==> good_cat(#[trigger] c.cats[i], c.label),
        forall|t: int|
            0 <= t < c.cats.len() ==> (#[trigger] read_cats(sorted_cats(c.cats), c.label)[t]).1.len()
                > 0,
        !unchanged(c),
        emitted_count(c) <= usize::MAX,
    ensures
        parse_catalog(rendered_lines(c, ts)) is Some,
        parse_catalog(rendered_lines(c, ts))->0.cats == read_cats(sorted_cats(c.cats), c.label),
        keys_of(parse_catalog(rendered_lines(c, ts))->0.cats).to_set() == keys_of(c.cats).to_set(),
{
    broadcast use vstd::seq_lib::group_to_multiset_ensures;

    let label = c.label;
    let sc = sorted_cats(c.cats);
    let wk = !only_sentinel(c.cats);
    lemma_sorted_perm(c.cats);
    lemma_sorted_by_multiset(c.cats, |x: CatView| cat_key(x));
    assert(sc.len() == c.cats.len()) by {
        assert(sc.to_multiset().len() == sc.len());
        assert(c.cats.to_multiset().len() == c.cats.len());
    }
    assert forall|t: int| 0 <= t < sc.len() implies good_cat(#[trigger] sc[t], label) by {
        let i = choose|i: int| 0 <= i < c.cats.len() && c.cats[i] == sc[t];
        assert(good_cat(c.cats[i], label));
    }
    assert forall|t: int| 0 <= t < sc.len() implies (#[trigger] sc[t]).0.len() > 0 by {
        assert(good_cat(sc[t], label));
        lemma_key_nonempty(sc[t].0, label);
    }
    if !wk {
        let key = |x: CatView| cat_key(x);
        let s0 = c.cats;
        assert(s0.drop_last() =~= Seq::<CatView>::empty());
        assert(crate::order::sorted_by(s0.drop_last(), key) == s0.drop_last());
        assert(crate::order::insert_by(s0.drop_last(), s0.last(), key) == seq![s0.last()]);
        assert(sorted_cats(s0) == crate::order::insert_by(
            crate::order::sorted_by(s0.drop_last(), key),
            s0.last(),
            key,
        ));
        assert(seq![s0.last()] =~= s0);
    }
    lemma_emit_read(label, sc, wk);
    lemma_read_cats_keys(sc, label);
    let rc = read_cats(sc, label);
    // the categories read back are good, with unique keys
    assert(readable(rc, label)) by {
        assert forall|i: int, j: int| 0 <= i < j < rc.len() implies (#[trigger] rc[i]).0 != (#[trigger] rc[j]).0 by {
            assert(rc[i].0 == sc[i].0 && rc[j].0 == sc[j].0);
        }
        assert forall|t: int| 0 <= t < rc.len() implies good_cat(#[trigger] rc[t], label) by {
            assert(good_cat(sc[t], label));
            assert(rc[t].0 == sc[t].0);
            assert forall|j: int| 0 <= j < rc[t].1.len() implies clean_entry(#[trigger] rc[t].1[j])
                && entry_line(rc[t].0, rc[t].1[j]) != label by {
                assert(sc[t].1.contains(rc[t].1[j]));
                let m = choose|m: int| 0 <= m < sc[t].1.len() && sc[t].1[m] == rc[t].1[j];
                assert(clean_entry(sc[t].1[m]));
            }
        }
    }
    assert forall|t: int| 0 <= t < rc.len() && !wk implies (#[trigger] rc[t]).0 == sentinel() by {
        assert(rc[t].0 == sc[t].0);
    }
    let o = rendered_body(c).0;
    assert(o == seq![label] + blocks(rc, wk));
    let n = emitted_count(c);
    lemma_emit_cats_prefix((seq![label], seq![label]), sc, wk);
    let ft = footer_text(n as nat, ts);
    let lines = rendered_lines(c, ts);
    assert(lines == o + seq![Seq::<char>::empty(), Seq::<char>::empty(), ft]);
    lemma_footer_read_back(n as nat, ts);
    assert(lines.last() == ft);
    assert(lines[0] == label);
    let blank2 = seq![Seq::<char>::empty(), Seq::<char>::empty()];
    assert(body_of(lines) =~= blocks(rc, wk) + blank2);
    lemma_scan_body_from(body_of(lines), label);
    let init = (Seq::<CatView>::empty(), sentinel());
    lemma_scan_concat(init, blocks(rc, wk), blank2, label);
    lemma_scan_blocks(rc, label, wk);
    let d = rc.map_values(|x: CatView| deduped(x));
    assert forall|t: int| 0 <= t < rc.len() implies #[trigger] d[t] == rc[t] by {
        lemma_dedup_id(rc[t].1);
    }
    assert(d =~= rc);
    let st = scan_from(init, blocks(rc, wk), label);
    assert(st.0 == d);
    assert(skipped_line(Seq::<char>::empty(), label)) by {
        assert(is_blank(Seq::<char>::empty()));
    }
    assert(blank2.drop_last() =~= seq![Seq::<char>::empty()]);
    assert(blank2.drop_last().drop_last() =~= Seq::<Seq<char>>::empty());
    assert(blank2.drop_last().last() == Seq::<char>::empty());
    assert(scan_from(st, blank2.drop_last().drop_last(), label) == st);
    assert(scan_from(st, blank2.drop_last(), label) == st);
    assert(blank2.last() == Seq::<char>::empty());
    assert(scan_from(st, blank2, label) == st);
    let empty_p = |x: CatView| is_empty_cat(x);
    assert(d.all(|x: CatView| !empty_p(x))) by {
        assert forall|t: int| 0 <= t < d.len() implies !empty_p(#[trigger] d[t]) by {}
    }
    d.lemma_all_neg_filter_empty(empty_p);
    assert(stray_keys(d).len() == 0);
    assert(demote(d) == d);
    // the same keys
    let kr = keys_of(rc);
    let kc = keys_of(c.cats);
    assert forall|k: Seq<char>| kr.to_set().contains(k) <==> kc.to_set().contains(k) by {
        if kr.to_set().contains(k) {
            let t = choose|t: int| 0 <= t < kr.len() && kr[t] == k;
            assert(rc[t].0 == sc[t].0);
            assert(c.cats.contains(sc[t]));
            let i = choose|i: int| 0 <= i < c.cats.len() && c.cats[i] == sc[t];
            assert(kc[i] == k);
        }
        if kc.to_set().contains(k) {
            let i = choose|i: int| 0 <= i < kc.len() && kc[i] == k;
            assert(sc.contains(c.cats[i]));
            let t = choose|t: int| 0 <= t < sc.len() && sc[t] == c.cats[i];
            assert(rc[t].0 == sc[t].0);
            assert(kr[t] == k);
        }
    }
    assert(kr.to_set() =~= kc.to_set());
}

} // verus!
