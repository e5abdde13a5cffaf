//! The catalog model (label, categories of entries, recorded count) and the reader of
//! catalog files: footer, key and entry lines, and demotion of categories left empty.

use vstd::prelude::*;

use crate::output::{mentions_list_file, Output};
use crate::strategy::{decimal_value, is_digit, lines_view};
use crate::text::{
    blank, chars_between, chars_of, contains_chars, has_infix, has_prefix, indent_width,
    is_blank, is_indented, split_by, starts_with, string_of, trim_start,
};

verus! {

/// A category as (key, entries).
pub type CatView = (Seq<char>, Seq<Seq<char>>);

/// `<>`, the key of the entries that have no category of their own.
pub open spec fn sentinel() -> Seq<char> {
    seq!['<', '>']
}

/// A category key and its entries, in order.
pub struct Category {
    pub key: String,
    pub entries: Vec<String>,
}

impl View for Category {
    type V = CatView;

    open spec fn view(&self) -> CatView {
        (self.key@, lines_view(self.entries@))
    }
}

/// A catalog: its label, its categories and the entry count its footer recorded.
pub struct Contents {
    pub label: String,
    pub categories: Vec<Category>,
    pub count: usize,
}

/// A catalog as plain values.
pub struct ContentsView {
    pub label: Seq<char>,
    pub cats: Seq<CatView>,
    pub count: int,
}

pub open spec fn cats_view(v: Seq<Category>) -> Seq<CatView> {
    v.map_values(|c: Category| c@)
}

impl View for Contents {
    type V = ContentsView;

    open spec fn view(&self) -> ContentsView {
        ContentsView { label: self.label@, cats: cats_view(self.categories@), count: self.count as int }
    }
}

/// The position of the category with key `k` (the last one, were there several), or -1.
pub open spec fn key_index(cats: Seq<CatView>, k: Seq<char>) -> int
    decreases cats.len(),
{
    if cats.len() == 0 {
        -1
    } else if cats.last().0 == k {
        cats.len() - 1
    } else {
        key_index(cats.drop_last(), k)
    }
}

/// The category keys, in order.
pub open spec fn keys_of(cats: Seq<CatView>) -> Seq<Seq<char>> {
    cats.map_values(|c: CatView| c.0)
}

/// No two categories share a key.
pub open spec fn keys_unique(cats: Seq<CatView>) -> bool {
    forall|i: int, j: int| 0 <= i < j < cats.len() ==> (#[trigger] cats[i]).0 != (#[trigger] cats[j]).0
}

/// `cats` with a category `k`, added empty at the end if it was not there.
pub open spec fn add_key(cats: Seq<CatView>, k: Seq<char>) -> Seq<CatView> {
    if key_index(cats, k) >= 0 {
        cats
    } else {
        cats.push((k, Seq::empty()))
    }
}

/// `cats` with `e` filed under `k` unless it is there already.
pub open spec fn add_entry(cats: Seq<CatView>, k: Seq<char>, e: Seq<char>) -> Seq<CatView> {
    let i = key_index(cats, k);
    if i < 0 {
        cats.push((k, seq![e]))
    } else if cats[i].1.contains(e) {
        cats
    } else {
        cats.update(i, (k, cats[i].1.push(e)))
    }
}

/// `cats` with `e` appended under `k`, whether or not it is there already.
pub open spec fn append_entry(cats: Seq<CatView>, k: Seq<char>, e: Seq<char>) -> Seq<CatView> {
    let i = key_index(cats, k);
    if i < 0 {
        cats.push((k, seq![e]))
    } else {
        cats.update(i, (k, cats[i].1.push(e)))
    }
}

/// `cats` with each of `es` filed under `k` in turn.
pub open spec fn add_entries(cats: Seq<CatView>, k: Seq<char>, es: Seq<Seq<char>>) -> Seq<CatView>
    decreases es.len(),
{
    if es.len() == 0 {
        cats
    } else {
        add_entry(add_entries(cats, k, es.drop_last()), k, es.last())
    }
}

// ---------------------------------------------------------------- the footer

/// `info:`, the token that marks a footer line.
pub open spec fn info_prefix() -> Seq<char> {
    seq!['i', 'n', 'f', 'o', ':']
}

/// `v1`, the catalog format tag written into the footer.
pub open spec fn format_version() -> Seq<char> {
    seq!['v', '1']
}

/// A line that is a footer: it holds `info:` or starts with `/*`.
pub open spec fn is_footer(line: Seq<char>) -> bool {
    has_infix(line, info_prefix()) || has_prefix(line, seq!['/', '*'])
}

pub open spec fn is_field_sep(c: char) -> bool {
    c == ',' || c == ':'
}

/// The comma- or colon-separated fields of a footer line.
pub open spec fn footer_fields(line: Seq<char>) -> Seq<Seq<char>> {
    split_by(line, |c: char| is_field_sep(c))
}

/// A non-empty run of decimal digits.
pub open spec fn is_number(s: Seq<char>) -> bool {
    s.len() > 0 && forall|j: int| 0 <= j < s.len() ==> is_digit(#[trigger] s[j])
}

/// The entry count a footer records: its third field, where its second is the format tag and
/// the third a number that fits a `usize`; 0 otherwise.
pub open spec fn footer_count(line: Seq<char>) -> int {
    let f = footer_fields(line);
    if f.len() > 2 && f[1] == format_version() && is_number(f[2]) && decimal_value(f[2])
        <= usize::MAX {
        decimal_value(f[2])
    } else {
        0
    }
}

// ---------------------------------------------------------------- the body

/// A body line that is passed over: a blank line, or an unindented line that is the label again
/// or mentions the catalog file. Every other indented line is an entry.
pub open spec fn skipped_line(line: Seq<char>, label: Seq<char>) -> bool {
    is_blank(line) || (!is_indented(line) && (line == label || mentions_list_file(line)))
}

/// One body line read into the state (categories, open category): an indented line is an
/// entry of the open category, any other line opens the category it names.
pub open spec fn scan_line(st: (Seq<CatView>, Seq<char>), line: Seq<char>, label: Seq<char>) -> (
    Seq<CatView>,
    Seq<char>,
) {
    if skipped_line(line, label) {
        st
    } else if is_indented(line) {
        (add_entry(st.0, st.1, trim_start(line)), st.1)
    } else {
        (add_key(st.0, line), line)
    }
}

/// The state after reading `lines` from the start, where `<>` is open until a key line comes.
pub open spec fn scan_body(lines: Seq<Seq<char>>, label: Seq<char>) -> (Seq<CatView>, Seq<char>)
    decreases lines.len(),
{
    if lines.len() == 0 {
        (Seq::empty(), sentinel())
    } else {
        scan_line(scan_body(lines.drop_last(), label), lines.last(), label)
    }
}

pub open spec fn is_empty_cat(c: CatView) -> bool {
    c.1.len() == 0
}

pub open spec fn is_filled_cat(c: CatView) -> bool {
    c.1.len() > 0
}

/// The keys of the categories that got no entry.
pub open spec fn stray_keys(cats: Seq<CatView>) -> Seq<Seq<char>> {
    keys_of(cats.filter(|c: CatView| is_empty_cat(c)))
}

/// Categories without entries become plain entries of `<>`.
pub open spec fn demote(cats: Seq<CatView>) -> Seq<CatView> {
    let strays = stray_keys(cats);
    if strays.len() == 0 {
        cats
    } else {
        add_entries(cats.filter(|c: CatView| is_filled_cat(c)), sentinel(), strays)
    }
}

/// The lines between the label and the footer (or the end).
pub open spec fn body_of(lines: Seq<Seq<char>>) -> Seq<Seq<char>> {
    let end = if is_footer(lines.last()) {
        lines.len() - 1
    } else {
        lines.len() as int
    };
    if end <= 1 {
        Seq::empty()
    } else {
        lines.subrange(1, end)
    }
}

/// The catalog that the lines of a catalog file hold; none for an empty file.
pub open spec fn parse_catalog(lines: Seq<Seq<char>>) -> Option<ContentsView> {
    if lines.len() == 0 {
        None
    } else {
        Some(
            ContentsView {
                label: lines[0],
                cats: demote(scan_body(body_of(lines), lines[0]).0),
                count: if is_footer(lines.last()) {
                    footer_count(lines.last())
                } else {
                    0
                },
            },
        )
    }
}

// ---------------------------------------------------------------- lemmas

pub proof fn lemma_key_index(cats: Seq<CatView>, k: Seq<char>)
    ensures
        -1 <= key_index(cats, k) < cats.len(),
        key_index(cats, k) >= 0 ==> cats[key_index(cats, k)].0 == k,
        key_index(cats, k) >= 0 ==> forall|j: int|
            key_index(cats, k) < j < cats.len() ==> (#[trigger] cats[j]).0 != k,
        key_index(cats, k) < 0 ==> forall|j: int| 0 <= j < cats.len() ==> (#[trigger] cats[j]).0 != k,
    decreases cats.len(),
{
    if cats.len() > 0 && cats.last().0 != k {
        lemma_key_index(cats.drop_last(), k);
        assert forall|j: int| 0 <= j < cats.len() - 1 implies (#[trigger] cats[j]) == cats.drop_last()[j] by {}
    }
}

/// The position of a key depends on the keys alone.
pub proof fn lemma_key_index_same_keys(a: Seq<CatView>, b: Seq<CatView>, k: Seq<char>)
    requires
        a.len() == b.len(),
        forall|j: int| 0 <= j < a.len() ==> (#[trigger] a[j]).0 == b[j].0,
    ensures
        key_index(a, k) == key_index(b, k),
    decreases a.len(),
{
    if a.len() > 0 {
        lemma_key_index_same_keys(a.drop_last(), b.drop_last(), k);
    }
}

proof fn lemma_push_new_key_unique(cats: Seq<CatView>, x: CatView)
    requires
        keys_unique(cats),
        key_index(cats, x.0) < 0,
    ensures
        keys_unique(cats.push(x)),
{
    lemma_key_index(cats, x.0);
    let r = cats.push(x);
    assert forall|i: int, j: int| 0 <= i < j < r.len() implies (#[trigger] r[i]).0 != (#[trigger] r[j]).0 by {
        if j == cats.len() {
            assert(r[i] == cats[i]);
        } else {
            assert(r[i] == cats[i] && r[j] == cats[j]);
        }
    }
}

proof fn lemma_update_same_key_unique(cats: Seq<CatView>, i: int, x: CatView)
    requires
        keys_unique(cats),
        0 <= i < cats.len(),
        x.0 == cats[i].0,
    ensures
        keys_unique(cats.update(i, x)),
{
    let r = cats.update(i, x);
    assert forall|a: int, b: int| 0 <= a < b < r.len() implies (#[trigger] r[a]).0 != (#[trigger] r[b]).0 by {
        assert(r[a].0 == cats[a].0 && r[b].0 == cats[b].0);
    }
}

/// Opening a key and filing entries keep the keys unique.
pub proof fn lemma_filing_keeps_keys_unique(cats: Seq<CatView>, k: Seq<char>, e: Seq<char>)
    requires
        keys_unique(cats),
    ensures
        keys_unique(add_key(cats, k)),
        keys_unique(add_entry(cats, k, e)),
        keys_unique(append_entry(cats, k, e)),
{
    lemma_key_index(cats, k);
    if key_index(cats, k) < 0 {
        lemma_push_new_key_unique(cats, (k, Seq::empty()));
        lemma_push_new_key_unique(cats, (k, seq![e]));
    } else {
        let i = key_index(cats, k);
        lemma_update_same_key_unique(cats, i, (k, cats[i].1.push(e)));
    }
}

proof fn lemma_add_entries_keys_unique(cats: Seq<CatView>, k: Seq<char>, es: Seq<Seq<char>>)
    requires
        keys_unique(cats),
    ensures
        keys_unique(add_entries(cats, k, es)),
    decreases es.len(),
{
    if es.len() > 0 {
        lemma_add_entries_keys_unique(cats, k, es.drop_last());
        lemma_filing_keeps_keys_unique(add_entries(cats, k, es.drop_last()), k, es.last());
    }
}

proof fn lemma_filter_keys_unique(cats: Seq<CatView>, p: spec_fn(CatView) -> bool)
    requires
        keys_unique(cats),
    ensures
        keys_unique(cats.filter(p)),
    decreases cats.len(),
{
    if cats.len() > 0 {
        let prev = cats.drop_last();
        assert(keys_unique(prev)) by {
            assert forall|i: int, j: int| 0 <= i < j < prev.len() implies (#[trigger] prev[i]).0 != (
            #[trigger] prev[j]).0 by {
                assert(prev[i] == cats[i] && prev[j] == cats[j]);
            }
        }
        lemma_filter_keys_unique(prev, p);
        assert(prev.push(cats.last()) =~= cats);
        prev.lemma_filter_push(cats.last(), p);
        if p(cats.last()) {
            let f = prev.filter(p);
            assert forall|i: int| 0 <= i < f.len() implies (#[trigger] f[i]).0 != cats.last().0 by {
                assert(f.contains(f[i]));
                prev.lemma_filter_contains_rev(p, f[i]);
                let j = choose|j: int| 0 <= j < prev.len() && prev[j] == f[i];
                assert(cats[j] == prev[j]);
                assert(cats[cats.len() - 1] == cats.last());
            }
            lemma_key_index(f, cats.last().0);
            lemma_push_new_key_unique(f, cats.last());
        }
    }
}

/// Reading a catalog file gives categories with unique keys.
pub proof fn lemma_scan_keys_unique(lines: Seq<Seq<char>>, label: Seq<char>)
    ensures
        keys_unique(scan_body(lines, label).0),
        keys_unique(demote(scan_body(lines, label).0)),
    decreases lines.len(),
{
    if lines.len() > 0 {
        lemma_scan_keys_unique(lines.drop_last(), label);
        let st = scan_body(lines.drop_last(), label);
        lemma_filing_keeps_keys_unique(st.0, st.1, trim_start(lines.last()));
        lemma_filing_keeps_keys_unique(st.0, lines.last(), trim_start(lines.last()));
    }
    let cats = scan_body(lines, label).0;
    lemma_filter_keys_unique(cats, |c: CatView| is_filled_cat(c));
    lemma_add_entries_keys_unique(cats.filter(|c: CatView| is_filled_cat(c)), sentinel(), stray_keys(cats));
}

// ---------------------------------------------------------------- run-time helpers

pub fn find_key(cats: &Vec<Category>, k: &String) -> (r: Option<usize>)
    ensures
        match r {
            Some(i) => i < cats@.len() && key_index(cats_view(cats@), k@) == i,
            None => key_index(cats_view(cats@), k@) == -1,
        },
{
    let ghost cv = cats_view(cats@);
    let mut i = cats.len();
    assert(cv.take(i as int) =~= cv);
    while i > 0
        invariant
            i <= cats@.len(),
            cv == cats_view(cats@),
            key_index(cv, k@) == key_index(cv.take(i as int), k@),
        decreases i,
    {
        assert(cv.take(i as int).drop_last() =~= cv.take(i - 1));
        assert(cv[i - 1] == cats@[i - 1]@);
        if cats[i - 1].key == *k {
            return Some(i - 1);
        }
        i -= 1;
    }
    None
}

/// Whether `s` is among `v`.
pub fn contains_line(v: &Vec<String>, s: &String) -> (r: bool)
    ensures
        r == lines_view(v@).contains(s@),
{
    let mut i: usize = 0;
    while i < v.len()
        invariant
            i <= v@.len(),
            forall|j: int| 0 <= j < i ==> v@[j]@ != s@,
        decreases v@.len() - i,
    {
        if v[i] == *s {
            assert(lines_view(v@)[i as int] == s@);
            return true;
        }
        i += 1;
    }
    assert forall|j: int| 0 <= j < lines_view(v@).len() implies lines_view(v@)[j] != s@ by {
        assert(lines_view(v@)[j] == v@[j]@);
    }
    false
}

/// Files `e` under `k`: appended where `unique` is false or `e` is not there yet.
pub fn file_entry(cats: &mut Vec<Category>, k: &String, e: String, unique: bool)
    ensures
        cats_view(final(cats)@) == if unique {
            add_entry(cats_view(old(cats)@), k@, e@)
        } else {
            append_entry(cats_view(old(cats)@), k@, e@)
        },
{
    let ghost cv = cats_view(cats@);
    match find_key(cats, k) {
        None => {
            let mut entries: Vec<String> = Vec::new();
            let ghost ev = e@;
            entries.push(e);
            let c = Category { key: k.clone(), entries };
            assert(c@.1 =~= seq![ev]);
            cats.push(c);
            assert(cats_view(cats@) =~= cv.push((k@, seq![ev])));
        },
        Some(i) => {
            proof {
                lemma_key_index(cv, k@);
                assert(cv[i as int] == cats@[i as int]@);
            }
            if unique && contains_line(&cats[i].entries, &e) {
            } else {
                let mut c = cats.remove(i);
                let ghost old_entries = c.entries@;
                let ghost ev = e@;
                c.entries.push(e);
                assert(c@.1 =~= lines_view(old_entries).push(ev));
                cats.insert(i, c);
                assert(cats_view(cats@) =~= cv.update(i as int, (k@, cv[i as int].1.push(ev))));
            }
        },
    }
}

/// Opens the category `k`, adding it empty if it is not there.
fn open_key(cats: &mut Vec<Category>, k: &String)
    ensures
        cats_view(final(cats)@) == add_key(cats_view(old(cats)@), k@),
{
    let ghost cv = cats_view(cats@);
    if find_key(cats, k).is_none() {
        let c = Category { key: k.clone(), entries: Vec::new() };
        assert(c@.1 =~= Seq::<Seq<char>>::empty());
        cats.push(c);
        assert(cats_view(cats@) =~= cv.push((k@, Seq::empty())));
    }
}

/// Whether a line is a footer.
fn footer_line(cs: &[char]) -> (r: bool)
    ensures
        r == is_footer(cs@),
{
    let info = ['i', 'n', 'f', 'o', ':'];
    let open = ['/', '*'];
    assert(info@ =~= info_prefix());
    assert(open@ =~= seq!['/', '*']);
    contains_chars(cs, info.as_slice()) || starts_with(cs, open.as_slice())
}

/// The comma- or colon-separated fields of a line.
fn fields_of(cs: &[char]) -> (r: Vec<Vec<char>>)
    ensures
        r@.map_values(|f: Vec<char>| f@) == footer_fields(cs@),
{
    let ghost sep = |c: char| is_field_sep(c);
    let mut out: Vec<Vec<char>> = Vec::new();
    out.push(Vec::new());
    let mut i: usize = 0;
    assert(cs@.take(0) =~= Seq::<char>::empty());
    assert(out@.map_values(|f: Vec<char>| f@) =~= split_by(cs@.take(0), sep));
    while i < cs.len()
        invariant
            i <= cs@.len(),
            sep == (|c: char| is_field_sep(c)),
            out@.len() >= 1,
            out@.map_values(|f: Vec<char>| f@) == split_by(cs@.take(i as int), sep),
        decreases cs@.len() - i,
    {
        let c = cs[i];
        let ghost before = out@.map_values(|f: Vec<char>| f@);
        assert(cs@.take(i + 1).drop_last() =~= cs@.take(i as int));
        assert(cs@.take(i + 1).last() == c);
        if c == ',' || c == ':' {
            out.push(Vec::new());
            assert(out@.map_values(|f: Vec<char>| f@) =~= before.push(Seq::empty()));
        } else {
            let last = out.len() - 1;
            let mut f = out.remove(last);
            f.push(c);
            out.push(f);
            assert(out@.map_values(|f: Vec<char>| f@) =~= before.update(
                before.len() - 1,
                before.last().push(c),
            ));
        }
        i += 1;
    }
    assert(cs@.take(i as int) =~= cs@);
    out
}

/// The number written by the digits `cs`, where it fits a `usize`.
fn decimal_checked(cs: &[char]) -> (r: Option<usize>)
    requires
        forall|j: int| 0 <= j < cs@.len() ==> is_digit(#[trigger] cs@[j]),
    ensures
        match r {
            Some(v) => v == decimal_value(cs@),
            None => decimal_value(cs@) > usize::MAX,
        },
{
    let mut acc: usize = 0;
    let mut i: usize = 0;
    assert(cs@.take(0) =~= Seq::<char>::empty());
    while i < cs.len()
        invariant
            i <= cs@.len(),
            forall|j: int| 0 <= j < cs@.len() ==> is_digit(#[trigger] cs@[j]),
            acc == decimal_value(cs@.take(i as int)),
        decreases cs@.len() - i,
    {
        assert(is_digit(cs@[i as int]));
        let d = (cs[i] as u32 - '0' as u32) as usize;
        assert(cs@.take(i + 1).drop_last() =~= cs@.take(i as int));
        assert(decimal_value(cs@.take(i + 1)) == acc * 10 + d);
        if acc > (usize::MAX - d) / 10 {
            assert(acc * 10 + d > usize::MAX) by (nonlinear_arith)
                requires
                    acc > (usize::MAX - d) / 10,
                    0 <= d <= 9,
            ;
            proof {
                lemma_decimal_grows(cs@, i as int + 1);
            }
            return None;
        }
        assert(acc * 10 + d <= usize::MAX) by (nonlinear_arith)
            requires
                acc <= (usize::MAX - d) / 10,
                0 <= d <= 9,
        ;
        acc = acc * 10 + d;
        i += 1;
    }
    assert(cs@.take(i as int) =~= cs@);
    Some(acc)
}

/// Digits never make a number smaller by being extended.
proof fn lemma_decimal_grows(s: Seq<char>, i: int)
    requires
        0 <= i <= s.len(),
        forall|j: int| 0 <= j < s.len() ==> is_digit(#[trigger] s[j]),
    ensures
        decimal_value(s) >= decimal_value(s.take(i)),
    decreases s.len() - i,
{
    if i < s.len() {
        lemma_decimal_grows(s, i + 1);
        assert(s.take(i + 1).drop_last() =~= s.take(i));
        assert(is_digit(s[i]));
        lemma_decimal_nonneg(s.take(i));
    } else {
        assert(s.take(i) =~= s);
    }
}

proof fn lemma_decimal_nonneg(s: Seq<char>)
    requires
        forall|j: int| 0 <= j < s.len() ==> is_digit(#[trigger] s[j]),
    ensures
        decimal_value(s) >= 0,
    decreases s.len(),
{
    if s.len() > 0 {
        lemma_decimal_nonneg(s.drop_last());
        assert(is_digit(s[s.len() - 1]));
    }
}

/// The entry count a footer line records.
fn footer_count_of(cs: &[char]) -> (r: usize)
    ensures
        r == footer_count(cs@),
{
    let fields = fields_of(cs);
    let ghost fv = fields@.map_values(|f: Vec<char>| f@);
    assert(fv.len() == fields@.len());
    if fields.len() <= 2 {
        return 0;
    }
    assert(fv[1] == fields@[1]@);
    assert(fv[2] == fields@[2]@);
    let tag = ['v', '1'];
    assert(tag@ =~= format_version());
    let f1 = &fields[1];
    let tagged = f1.len() == 2 && starts_with(f1.as_slice(), tag.as_slice());
    assert(tagged == (f1@ == format_version())) by {
        if f1@.len() == 2 {
            assert(f1@.take(2) =~= f1@);
        }
    }
    if !tagged {
        return 0;
    }
    let f2 = &fields[2];
    assert(fv[2] == f2@);
    if f2.len() == 0 {
        return 0;
    }
    let mut j: usize = 0;
    while j < f2.len()
        invariant
            j <= f2@.len(),
            fv == footer_fields(cs@),
            fv.len() > 2,
            fv[1] == format_version(),
            fv[2] == f2@,
            forall|m: int| 0 <= m < j ==> is_digit(#[trigger] f2@[m]),
        decreases f2@.len() - j,
    {
        if !('0' <= f2[j] && f2[j] <= '9') {
            assert(!is_digit(f2@[j as int]));
            return 0;
        }
        j += 1;
    }
    match decimal_checked(f2.as_slice()) {
        Some(v) => v,
        None => 0,
    }
}

// ---------------------------------------------------------------- demotion

/// Categories without entries become plain entries of `<>`.
fn demote_strays(cats: Vec<Category>) -> (r: Vec<Category>)
    ensures
        cats_view(r@) == demote(cats_view(cats@)),
{
    let ghost cv = cats_view(cats@);
    let ghost n = cv.len();
    let ghost empty_p = |c: CatView| is_empty_cat(c);
    let ghost filled_p = |c: CatView| is_filled_cat(c);
    let mut rest = cats;
    let mut kept: Vec<Category> = Vec::new();
    let mut strays: Vec<String> = Vec::new();
    assert(cv.take(0) =~= Seq::<CatView>::empty());
    assert(cats_view(kept@) =~= cv.take(0).filter(filled_p));
    assert(lines_view(strays@) =~= keys_of(cv.take(0).filter(empty_p)));
    while rest.len() > 0
        invariant
            n == cv.len(),
            rest@.len() <= n,
            empty_p == (|c: CatView| is_empty_cat(c)),
            filled_p == (|c: CatView| is_filled_cat(c)),
            forall|i: int| 0 <= i < rest@.len() ==> (#[trigger] rest@[i])@ == cv[n - rest@.len() + i],
            cats_view(kept@) == cv.take(n - rest@.len()).filter(filled_p),
            lines_view(strays@) == keys_of(cv.take(n - rest@.len()).filter(empty_p)),
            strays@.len() == 0 ==> cats_view(kept@) == cv.take(n - rest@.len()),
        decreases rest@.len(),
    {
        let ghost done = n - rest@.len();
        let ghost kept_before = cats_view(kept@);
        let ghost strays_before = lines_view(strays@);
        let c = rest.remove(0);
        let ghost x = c@;
        assert(x == cv[done]);
        proof {
            assert(cv.take(done + 1) =~= cv.take(done).push(x));
            cv.take(done).lemma_filter_push(x, filled_p);
            cv.take(done).lemma_filter_push(x, empty_p);
        }
        if c.entries.len() == 0 {
            strays.push(c.key);
            assert(lines_view(strays@) =~= strays_before.push(x.0));
            assert(keys_of(cv.take(done).filter(empty_p).push(x)) =~= keys_of(
                cv.take(done).filter(empty_p),
            ).push(x.0));
        } else {
            kept.push(c);
            assert(cats_view(kept@) =~= kept_before.push(x));
        }
    }
    assert(cv.take(n as int) =~= cv);
    if strays.len() == 0 {
        return kept;
    }
    let sentinel_key = string_of(['<', '>'].as_slice());
    assert(sentinel_key@ =~= sentinel());
    let ghost sv = lines_view(strays@);
    let mut i: usize = 0;
    assert(sv.take(0) =~= Seq::<Seq<char>>::empty());
    while i < strays.len()
        invariant
            i <= strays@.len(),
            sv == lines_view(strays@),
            sentinel_key@ == sentinel(),
            cats_view(kept@) == add_entries(cv.filter(filled_p), sentinel(), sv.take(i as int)),
        decreases strays@.len() - i,
    {
        assert(sv.take(i + 1).drop_last() =~= sv.take(i as int));
        assert(sv.take(i + 1).last() == strays@[i as int]@);
        file_entry(&mut kept, &sentinel_key, strays[i].clone(), true);
        i += 1;
    }
    assert(sv.take(i as int) =~= sv);
    kept
}

// ---------------------------------------------------------------- the parser

impl Contents {
    /// Reads a catalog file from its lines: `None` for an empty file.
    ///
    /// Line 0 is the label. A last line holding `info:` or starting with `/*` is the footer,
    /// whose third comma- or colon-separated field is the recorded entry count. In between,
    /// an indented line that is not blank files its text (indentation removed) under the open
    /// category, once; any other line that is not blank, not the label and not a mention of the catalog file
    /// opens the category it names. Categories left without entries become entries of `<>`.
    pub fn from_list_file(lines: &Vec<String>) -> (r: Option<Contents>)
        ensures
            match r {
                Some(c) => parse_catalog(lines_view(lines@)) == Some(c@) && keys_unique(c@.cats),
                None => parse_catalog(lines_view(lines@)) is None,
            },
    {
        let ghost lv = lines_view(lines@);
        if lines.len() == 0 {
            return None;
        }
        let label = lines[0].clone();
        let n = lines.len();
        let last_chars = chars_of(lines[n - 1].as_str());
        let footer = footer_line(last_chars.as_slice());
        assert(lv.last() == lines@[n - 1]@);
        assert(lv[0] == label@);
        let end = if footer {
            n - 1
        } else {
            n
        };
        let mut cats: Vec<Category> = Vec::new();
        let mut current = string_of(['<', '>'].as_slice());
        assert(current@ =~= sentinel());
        let ghost body = body_of(lv);
        let mut i: usize = 1;
        assert(cats_view(cats@) =~= Seq::<CatView>::empty());
        assert(lv.subrange(1, 1) =~= Seq::<Seq<char>>::empty());
        while i < end
            invariant
                1 <= i,
                end <= 1 ==> i == 1,
                end > 1 ==> i <= end,
                end <= n == lines@.len() == lv.len(),
                lv == lines_view(lines@),
                label@ == lv[0],
                (cats_view(cats@), current@) == scan_body(lv.subrange(1, i as int), label@),
            decreases end - i,
        {
            let line = &lines[i];
            assert(lv[i as int] == line@);
            assert(lv.subrange(1, i + 1).drop_last() =~= lv.subrange(1, i as int));
            assert(lv.subrange(1, i + 1).last() == line@);
            let cs = chars_of(line.as_str());
            if blank(cs.as_slice()) || (!(cs[0] == ' ' || cs[0] == '\t') && (*line == label
                || Output::list_in_line(line.as_str()))) {
            } else if cs[0] == ' ' || cs[0] == '\t' {
                let w = indent_width(cs.as_slice());
                let trimmed = string_of(chars_between(cs.as_slice(), w, cs.len()).as_slice());
                assert(trimmed@ =~= trim_start(line@));
                file_entry(&mut cats, &current, trimmed, true);
            } else {
                open_key(&mut cats, line);
                current = line.clone();
            }
            i += 1;
        }
        proof {
            if end <= 1 {
                assert(body =~= lv.subrange(1, i as int)) by {
                    assert(i == 1);
                }
            } else {
                assert(i == end);
                assert(body =~= lv.subrange(1, i as int));
            }
        }
        let count = if footer {
            footer_count_of(last_chars.as_slice())
        } else {
            0
        };
        let categories = demote_strays(cats);
        proof {
            lemma_scan_keys_unique(body, label@);
        }
        Some(Contents { label, categories, count })
    }
}

} // verus!
