//! Laws of merging, reading and sorting.

use vstd::prelude::*;

use crate::catalog::{
    add_entries, add_entry, add_key, body_of, is_empty_cat, is_filled_cat, key_index,
    lemma_key_index, lemma_key_index_same_keys, lemma_scan_keys_unique, parse_catalog, scan_body, scan_line,
    sentinel, skipped_line, stray_keys, CatView, ContentsView,
};
use crate::strategy::{sorted_entries, SortStrategy};
use crate::text::{is_blank, is_indented, trim_start};
use crate::merge::{append_missing, merge_category, merge_cats, merged};

verus! {

/// Some category with key `k` holds the entry `x`.
pub open spec fn files_entry(cats: Seq<CatView>, k: Seq<char>, x: Seq<char>) -> bool {
    exists|i: int| 0 <= i < cats.len() && (#[trigger] cats[i]).0 == k && cats[i].1.contains(x)
}

pub proof fn lemma_append_missing_keeps(es: Seq<Seq<char>>, new: Seq<Seq<char>>, x: Seq<char>)
    requires
        es.contains(x) || new.contains(x),
    ensures
        append_missing(es, new).contains(x),
    decreases new.len(),
{
    if new.len() > 0 {
        let t = append_missing(es, new.drop_last());
        if es.contains(x) || new.drop_last().contains(x) {
            lemma_append_missing_keeps(es, new.drop_last(), x);
            if !t.contains(new.last()) {
                let j = choose|j: int| 0 <= j < t.len() && t[j] == x;
                assert(t.push(new.last())[j] == x);
            }
        } else {
            let j = choose|j: int| 0 <= j < new.len() && new[j] == x;
            if j < new.len() - 1 {
                assert(new.drop_last()[j] == x);
            }
            assert(new.last() == x);
            if !t.contains(x) {
                assert(t.push(x)[t.len() as int] == x);
            }
        }
    }
}

proof fn lemma_merge_category_keeps(cats: Seq<CatView>, c: CatView, k: Seq<char>, x: Seq<char>)
    requires
        files_entry(cats, k, x) || (c.0 == k && c.1.contains(x)),
    ensures
        files_entry(merge_category(cats, c), k, x),
{
    let r = merge_category(cats, c);
    let ki = key_index(cats, c.0);
    lemma_key_index(cats, c.0);
    if files_entry(cats, k, x) {
        let i = choose|i: int| 0 <= i < cats.len() && (#[trigger] cats[i]).0 == k && cats[i].1.contains(x);
        if ki < 0 {
            assert(r[i] == cats[i]);
        } else if i != ki {
            assert(r[i] == cats[i]);
        } else {
            lemma_append_missing_keeps(cats[ki].1, c.1, x);
            assert(r[i].1.contains(x));
        }
    } else {
        if ki < 0 {
            assert(r[cats.len() as int] == c);
        } else {
            lemma_append_missing_keeps(cats[ki].1, c.1, x);
            assert(r[ki].1.contains(x));
        }
    }
}

proof fn lemma_merge_cats_keeps(cats: Seq<CatView>, m: Seq<CatView>, k: Seq<char>, x: Seq<char>)
    requires
        files_entry(cats, k, x) || files_entry(m, k, x),
    ensures
        files_entry(merge_cats(cats, m), k, x),
    decreases m.len(),
{
    if m.len() > 0 {
        let prev = merge_cats(cats, m.drop_last());
        if files_entry(cats, k, x) || files_entry(m.drop_last(), k, x) {
            lemma_merge_cats_keeps(cats, m.drop_last(), k, x);
            lemma_merge_category_keeps(prev, m.last(), k, x);
        } else {
            let i = choose|i: int| 0 <= i < m.len() && (#[trigger] m[i]).0 == k && m[i].1.contains(x);
            if i < m.len() - 1 {
                assert(m.drop_last()[i] == m[i]);
            }
            lemma_merge_category_keeps(prev, m.last(), k, x);
        }
    }
}

/// Merging loses nothing: every entry that the manifest or the catalog file files under a key,
/// the merged catalog files under that key too.
pub proof fn law_merge_keeps_every_entry(
    manifest: ContentsView,
    existing: Option<ContentsView>,
    k: Seq<char>,
    x: Seq<char>,
)
    requires
        files_entry(manifest.cats, k, x) || (existing matches Some(e) && files_entry(e.cats, k, x)),
    ensures
        files_entry(merged(manifest, existing).cats, k, x),
{
    match existing {
        None => {},
        Some(e) => {
            lemma_merge_cats_keeps(e.cats, manifest.cats, k, x);
        },
    }
}

// ---------------------------------------------------------------- demotion of stray keys

/// A body line that opens a category.
pub open spec fn is_key_line(line: Seq<char>, label: Seq<char>) -> bool {
    !skipped_line(line, label) && !is_indented(line)
}

/// A body line that files an entry.
pub open spec fn is_entry_line(line: Seq<char>, label: Seq<char>) -> bool {
    !skipped_line(line, label) && is_indented(line)
}

/// Filing an entry under another key leaves the category `k` as it was.
proof fn lemma_add_entry_other(cats: Seq<CatView>, c: Seq<char>, e: Seq<char>, k: Seq<char>)
    requires
        c != k,
    ensures
        key_index(add_entry(cats, c, e), k) == key_index(cats, k),
        key_index(cats, k) >= 0 ==> add_entry(cats, c, e)[key_index(cats, k)] == cats[key_index(
            cats,
            k,
        )],
{
    let ci = key_index(cats, c);
    lemma_key_index(cats, c);
    lemma_key_index(cats, k);
    let r = add_entry(cats, c, e);
    if ci < 0 {
        assert(r.drop_last() =~= cats);
    } else if !cats[ci].1.contains(e) {
        lemma_key_index_same_keys(r, cats, k);
    }
}

/// Opening another key leaves the category `k` as it was.
proof fn lemma_add_key_other(cats: Seq<CatView>, c: Seq<char>, k: Seq<char>)
    requires
        c != k,
    ensures
        key_index(add_key(cats, c), k) == key_index(cats, k),
        key_index(cats, k) >= 0 ==> add_key(cats, c)[key_index(cats, k)] == cats[key_index(cats, k)],
{
    lemma_key_index(cats, k);
    if key_index(cats, c) < 0 {
        assert(add_key(cats, c).drop_last() =~= cats);
    }
}

proof fn lemma_scan_step(b: Seq<Seq<char>>, label: Seq<char>, p: int)
    requires
        0 <= p < b.len(),
    ensures
        scan_body(b.take(p + 1), label) == scan_line(scan_body(b.take(p), label), b[p], label),
{
    assert(b.take(p + 1).drop_last() =~= b.take(p));
}

/// Before the stray key line: the key has no category, and it is open only as the initial `<>`.
proof fn lemma_before_stray(b: Seq<Seq<char>>, label: Seq<char>, i: int, p: int)
    requires
        0 <= p <= i < b.len(),
        forall|j: int| 0 <= j < b.len() && j != i ==> b[j] != b[i],
        b[i] == sentinel() ==> forall|j: int|
            0 <= j < i && #[trigger] is_entry_line(b[j], label) ==> exists|j2: int|
                0 <= j2 < j && #[trigger] is_key_line(b[j2], label),
    ensures
        key_index(scan_body(b.take(p), label).0, b[i]) < 0,
        scan_body(b.take(p), label).1 == b[i] ==> b[i] == sentinel() && forall|j: int|
            0 <= j < p ==> !#[trigger] is_key_line(b[j], label),
    decreases p,
{
    let k = b[i];
    if p == 0 {
        assert(b.take(0) =~= Seq::<Seq<char>>::empty());
    } else {
        let q = p - 1;
        lemma_before_stray(b, label, i, q);
        lemma_scan_step(b, label, q);
        let st = scan_body(b.take(q), label);
        let l = b[q];
        assert(l != k);
        if skipped_line(l, label) {
        } else if is_indented(l) {
            if st.1 == k {
                assert(is_entry_line(b[q], label));
                let j2 = choose|j2: int| 0 <= j2 < q && #[trigger] is_key_line(b[j2], label);
                assert(false);
            }
            lemma_add_entry_other(st.0, st.1, trim_start(l), k);
        } else {
            lemma_add_key_other(st.0, l, k);
        }
    }
}

/// Between the stray key line and the next key line (blank lines only): the key's category
/// is there, empty, and open.
proof fn lemma_at_stray(b: Seq<Seq<char>>, label: Seq<char>, i: int, j: int, p: int)
    requires
        0 <= i < j < b.len(),
        i + 1 <= p <= j,
        is_key_line(b[i], label),
        forall|m: int| i < m < j ==> is_blank(#[trigger] b[m]),
        forall|m: int| 0 <= m < b.len() && m != i ==> b[m] != b[i],
        b[i] == sentinel() ==> forall|m: int|
            0 <= m < i && #[trigger] is_entry_line(b[m], label) ==> exists|m2: int|
                0 <= m2 < m && #[trigger] is_key_line(b[m2], label),
    ensures
        key_index(scan_body(b.take(p), label).0, b[i]) >= 0,
        scan_body(b.take(p), label).0[key_index(scan_body(b.take(p), label).0, b[i])].1.len() == 0,
        scan_body(b.take(p), label).1 == b[i],
    decreases p,
{
    let k = b[i];
    if p == i + 1 {
        lemma_before_stray(b, label, i, i);
        lemma_scan_step(b, label, i);
        let st = scan_body(b.take(i), label);
        assert(add_key(st.0, k) == st.0.push((k, Seq::empty())));
        assert(key_index(st.0.push((k, Seq::empty())), k) == st.0.len());
    } else {
        lemma_at_stray(b, label, i, j, p - 1);
        lemma_scan_step(b, label, p - 1);
        assert(is_blank(b[p - 1]));
    }
}

/// After the next key line: the stray key's category is there, empty, and not open.
proof fn lemma_after_stray(b: Seq<Seq<char>>, label: Seq<char>, i: int, j: int, p: int)
    requires
        0 <= i < j < b.len(),
        j + 1 <= p <= b.len(),
        is_key_line(b[i], label),
        is_key_line(b[j], label),
        forall|m: int| i < m < j ==> is_blank(#[trigger] b[m]),
        forall|m: int| 0 <= m < b.len() && m != i ==> b[m] != b[i],
        b[i] == sentinel() ==> forall|m: int|
            0 <= m < i && #[trigger] is_entry_line(b[m], label) ==> exists|m2: int|
                0 <= m2 < m && #[trigger] is_key_line(b[m2], label),
    ensures
        key_index(scan_body(b.take(p), label).0, b[i]) >= 0,
        scan_body(b.take(p), label).0[key_index(scan_body(b.take(p), label).0, b[i])].1.len() == 0,
        scan_body(b.take(p), label).1 != b[i],
    decreases p,
{
    let k = b[i];
    if p == j + 1 {
        lemma_at_stray(b, label, i, j, j);
        lemma_scan_step(b, label, j);
        let st = scan_body(b.take(j), label);
        assert(b[j] != k);
        lemma_add_key_other(st.0, b[j], k);
    } else {
        let q = p - 1;
        lemma_after_stray(b, label, i, j, q);
        lemma_scan_step(b, label, q);
        let st = scan_body(b.take(q), label);
        let l = b[q];
        assert(l != k);
        if skipped_line(l, label) {
        } else if is_indented(l) {
            lemma_add_entry_other(st.0, st.1, trim_start(l), k);
        } else {
            lemma_add_key_other(st.0, l, k);
        }
    }
}

/// Filing `x` under `s` leaves it filed there.
proof fn lemma_add_entry_files(cats: Seq<CatView>, s: Seq<char>, x: Seq<char>)
    ensures
        files_entry(add_entry(cats, s, x), s, x),
{
    let ci = key_index(cats, s);
    lemma_key_index(cats, s);
    let r = add_entry(cats, s, x);
    if ci < 0 {
        assert(r[cats.len() as int].1 == seq![x]);
        assert(r[cats.len() as int].1[0] == x);
    } else if cats[ci].1.contains(x) {
        assert(r[ci] == cats[ci]);
    } else {
        assert(r[ci].1 == cats[ci].1.push(x));
        assert(r[ci].1[cats[ci].1.len() as int] == x);
    }
}

/// Filing an entry keeps every entry that was filed before.
proof fn lemma_add_entry_keeps(cats: Seq<CatView>, s: Seq<char>, e: Seq<char>, k: Seq<char>, x: Seq<char>)
    requires
        files_entry(cats, k, x),
    ensures
        files_entry(add_entry(cats, s, e), k, x),
{
    let ci = key_index(cats, s);
    lemma_key_index(cats, s);
    let r = add_entry(cats, s, e);
    let i = choose|i: int| 0 <= i < cats.len() && (#[trigger] cats[i]).0 == k && cats[i].1.contains(x);
    if ci < 0 || cats[ci].1.contains(e) || i != ci {
        assert(r[i] == cats[i]);
    } else {
        let j = choose|j: int| 0 <= j < cats[i].1.len() && cats[i].1[j] == x;
        assert(r[i].1[j] == x);
    }
}

proof fn lemma_add_entries_files(cats: Seq<CatView>, s: Seq<char>, es: Seq<Seq<char>>, x: Seq<char>)
    requires
        es.contains(x),
    ensures
        files_entry(add_entries(cats, s, es), s, x),
    decreases es.len(),
{
    let prev = add_entries(cats, s, es.drop_last());
    if es.last() == x {
        lemma_add_entry_files(prev, s, x);
    } else {
        let j = choose|j: int| 0 <= j < es.len() && es[j] == x;
        assert(es.drop_last()[j] == x);
        lemma_add_entries_files(cats, s, es.drop_last(), x);
        lemma_add_entry_keeps(prev, s, es.last(), s, x);
    }
}

proof fn lemma_add_entries_other(cats: Seq<CatView>, s: Seq<char>, es: Seq<Seq<char>>, k: Seq<char>)
    requires
        s != k,
        key_index(cats, k) < 0,
    ensures
        key_index(add_entries(cats, s, es), k) < 0,
    decreases es.len(),
{
    if es.len() > 0 {
        lemma_add_entries_other(cats, s, es.drop_last(), k);
        lemma_add_entry_other(add_entries(cats, s, es.drop_last()), s, es.last(), k);
    }
}

/// A stray key: a category-key line followed by another one with only blank lines between,
/// where the key is named by no other body line (and, for `<>` itself, no entry comes before the
/// first key line), ends up as a plain entry of `<>`, and (unless it is `<>`) no category has
/// that key any more.
pub proof fn law_stray_key_demoted(lines: Seq<Seq<char>>, i: int, j: int)
    requires
        lines.len() > 0,
        0 <= i < j < body_of(lines).len(),
        is_key_line(body_of(lines)[i], lines[0]),
        is_key_line(body_of(lines)[j], lines[0]),
        forall|m: int| i < m < j ==> is_blank(#[trigger] body_of(lines)[m]),
        forall|m: int|
            0 <= m < body_of(lines).len() && m != i ==> body_of(lines)[m] != body_of(lines)[i],
        body_of(lines)[i] == sentinel() ==> forall|m: int|
            0 <= m < i && #[trigger] is_entry_line(body_of(lines)[m], lines[0]) ==> exists|m2: int|
                0 <= m2 < m && #[trigger] is_key_line(body_of(lines)[m2], lines[0]),
    ensures
        parse_catalog(lines) is Some,
        files_entry(parse_catalog(lines)->0.cats, sentinel(), body_of(lines)[i]),
        body_of(lines)[i] != sentinel() ==> key_index(parse_catalog(lines)->0.cats, body_of(lines)[i])
            < 0,
{
    let b = body_of(lines);
    let label = lines[0];
    let k = b[i];
    lemma_after_stray(b, label, i, j, b.len() as int);
    assert(b.take(b.len() as int) =~= b);
    let cats = scan_body(b, label).0;
    let ki = key_index(cats, k);
    lemma_key_index(cats, k);
    let empty_p = |c: CatView| is_empty_cat(c);
    let filled_p = |c: CatView| is_filled_cat(c);
    cats.lemma_filter_contains(empty_p, ki);
    let strays_cats = cats.filter(empty_p);
    let m = choose|m: int| 0 <= m < strays_cats.len() && strays_cats[m] == cats[ki];
    assert(stray_keys(cats)[m] == k);
    assert(stray_keys(cats).contains(k));
    let kept = cats.filter(filled_p);
    lemma_add_entries_files(kept, sentinel(), stray_keys(cats), k);
    if k != sentinel() {
        lemma_scan_keys_unique(b, label);
        assert forall|t: int| 0 <= t < kept.len() implies (#[trigger] kept[t]).0 != k by {
            assert(kept.contains(kept[t]));
            cats.lemma_filter_contains_rev(filled_p, kept[t]);
            cats.lemma_filter_pred(filled_p, t);
            let u = choose|u: int| 0 <= u < cats.len() && cats[u] == kept[t];
            if kept[t].0 == k && u != ki {
                if u < ki {
                    assert(cats[u].0 != cats[ki].0);
                } else {
                    assert(cats[ki].0 != cats[u].0);
                }
            }
        }
        lemma_key_index(kept, k);
        lemma_add_entries_other(kept, sentinel(), stray_keys(cats), k);
    }
}

// ---------------------------------------------------------------- sorting

/// Sorting is deterministic: the same entries sorted twice under the same strategy come out in
/// the same order (what `sort` leaves is `sorted_entries` of what it was given).
pub proof fn law_sort_deterministic(first: Seq<Seq<char>>, second: Seq<Seq<char>>, strategy: SortStrategy)
    requires
        first == second,
    ensures
        sorted_entries(first, strategy) == sorted_entries(second, strategy),
{
}

} // verus!
