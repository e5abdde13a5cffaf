//! Writing a catalog back as lines: categories in key order, repeated lines left out, and a
//! footer with the new entry count unless it equals the recorded one; and the text to show.

use vstd::prelude::*;

use crate::catalog::{cats_view, sentinel, CatView, Contents, ContentsView};
use crate::error::Error;
use crate::order::{lemma_sorted_by_map, payloads, sort_keyed, sorted_by, KeyView, SortKey};
use crate::strategy::{is_digit, lines_view, sort, sorted_entries, SortStrategy};
use crate::text::{chars_of, string_of};

verus! {

// ---------------------------------------------------------------- rendering

/// Categories are ordered by their keys, code point by code point.
pub open spec fn cat_key(c: CatView) -> KeyView {
    (0, c.0.map_values(|ch: char| ch as u32))
}

pub open spec fn sorted_cats(cats: Seq<CatView>) -> Seq<CatView> {
    sorted_by(cats, |c: CatView| cat_key(c))
}

/// The line an entry is written as: indented by two spaces under a non-empty key.
pub open spec fn entry_line(k: Seq<char>, e: Seq<char>) -> Seq<char> {
    if k.len() > 0 {
        seq![' ', ' '] + e
    } else {
        e
    }
}

/// Writing the entries `es` of key `k` into (lines, lines seen): a line already seen is left out.
pub open spec fn emit_entries(st: (Seq<Seq<char>>, Seq<Seq<char>>), k: Seq<char>, es: Seq<Seq<char>>) -> (
    Seq<Seq<char>>,
    Seq<Seq<char>>,
)
    decreases es.len(),
{
    if es.len() == 0 {
        st
    } else {
        let s = emit_entries(st, k, es.drop_last());
        let l = entry_line(k, es.last());
        if s.1.contains(l) {
            s
        } else {
            (s.0.push(l), s.1.push(l))
        }
    }
}

/// Writing the categories `cats` in order, each after a blank line and its key line
/// where `with_keys` holds.
pub open spec fn emit_cats(st: (Seq<Seq<char>>, Seq<Seq<char>>), cats: Seq<CatView>, with_keys: bool) -> (
    Seq<Seq<char>>,
    Seq<Seq<char>>,
)
    decreases cats.len(),
{
    if cats.len() == 0 {
        st
    } else {
        let s = emit_cats(st, cats.drop_last(), with_keys);
        let c = cats.last();
        let s2 = if with_keys {
            (s.0 + seq![Seq::empty(), c.0], s.1)
        } else {
            s
        };
        emit_entries(s2, c.0, c.1)
    }
}

/// The only category is `<>`: its key line is left out.
pub open spec fn only_sentinel(cats: Seq<CatView>) -> bool {
    cats.len() == 1 && cats[0].0 == sentinel()
}

/// The label, then the categories in key order: (lines, label and entry lines written).
pub open spec fn rendered_body(c: ContentsView) -> (Seq<Seq<char>>, Seq<Seq<char>>) {
    emit_cats((seq![c.label], seq![c.label]), sorted_cats(c.cats), !only_sentinel(c.cats))
}

/// The number of entry lines written.
pub open spec fn emitted_count(c: ContentsView) -> int {
    rendered_body(c).1.len() - 1
}

pub open spec fn digit_char(d: int) -> char {
    if d == 0 {
        '0'
    } else if d == 1 {
        '1'
    } else if d == 2 {
        '2'
    } else if d == 3 {
        '3'
    } else if d == 4 {
        '4'
    } else if d == 5 {
        '5'
    } else if d == 6 {
        '6'
    } else if d == 7 {
        '7'
    } else if d == 8 {
        '8'
    } else {
        '9'
    }
}

/// The decimal digits of `n`.
pub open spec fn decimal_text(n: nat) -> Seq<char>
    decreases n,
{
    if n < 10 {
        seq![digit_char(n as int)]
    } else {
        decimal_text(n / 10).push(digit_char((n % 10) as int))
    }
}

/// `/*  info:v1,<count>,<timestamp>  */`
pub open spec fn footer_text(count: nat, timestamp: Seq<char>) -> Seq<char> {
    seq!['/', '*', ' ', ' ', 'i', 'n', 'f', 'o', ':', 'v', '1', ','] + decimal_text(count) + seq![',']
        + timestamp + seq![' ', ' ', '*', '/']
}

/// The lines of the rendered catalog: the body, then, where the count differs from the
/// recorded one, two blank lines and the footer.
pub open spec fn rendered_lines(c: ContentsView, timestamp: Seq<char>) -> Seq<Seq<char>> {
    if emitted_count(c) == c.count {
        rendered_body(c).0
    } else {
        rendered_body(c).0 + seq![Seq::empty(), Seq::empty(), footer_text(emitted_count(c) as nat, timestamp)]
    }
}

/// Nothing changed: the count written equals the count recorded.
pub open spec fn unchanged(c: ContentsView) -> bool {
    emitted_count(c) == c.count
}

/// The catalog with each category's entries ordered under `strategy`.
pub open spec fn with_sorted_entries(c: ContentsView, strategy: SortStrategy) -> ContentsView {
    ContentsView {
        label: c.label,
        cats: c.cats.map_values(|x: CatView| (x.0, sorted_entries(x.1, strategy))),
        count: c.count,
    }
}

// ---------------------------------------------------------------- run-time helpers

/// The digits of `n`.
fn decimal_chars(n: usize) -> (r: Vec<char>)
    ensures
        r@ == decimal_text(n as nat),
    decreases n,
{
    let d = n % 10;
    let c = if d == 0 {
        '0'
    } else if d == 1 {
        '1'
    } else if d == 2 {
        '2'
    } else if d == 3 {
        '3'
    } else if d == 4 {
        '4'
    } else if d == 5 {
        '5'
    } else if d == 6 {
        '6'
    } else if d == 7 {
        '7'
    } else if d == 8 {
        '8'
    } else {
        '9'
    };
    if n < 10 {
        let mut v: Vec<char> = Vec::new();
        v.push(c);
        assert(v@ =~= seq![digit_char(n as int)]);
        v
    } else {
        let mut v = decimal_chars(n / 10);
        v.push(c);
        v
    }
}

/// Appends the characters of `s` to `v`.
fn push_all(v: &mut Vec<char>, s: &[char])
    ensures
        final(v)@ == old(v)@ + s@,
{
    let mut i: usize = 0;
    while i < s.len()
        invariant
            i <= s@.len(),
            v@ == old(v)@ + s@.take(i as int),
        decreases s@.len() - i,
    {
        v.push(s[i]);
        i += 1;
        assert(v@ =~= old(v)@ + s@.take(i as int));
    }
    assert(s@.take(i as int) =~= s@);
}

/// The footer line.
fn footer_string(count: usize, timestamp: &str) -> (r: String)
    ensures
        r@ == footer_text(count as nat, timestamp@),
{
    let mut v: Vec<char> = Vec::new();
    push_all(&mut v, ['/', '*', ' ', ' ', 'i', 'n', 'f', 'o', ':', 'v', '1', ','].as_slice());
    push_all(&mut v, decimal_chars(count).as_slice());
    push_all(&mut v, [','].as_slice());
    push_all(&mut v, chars_of(timestamp).as_slice());
    push_all(&mut v, [' ', ' ', '*', '/'].as_slice());
    assert(v@ =~= footer_text(count as nat, timestamp@));
    string_of(v.as_slice())
}

/// The line an entry is written as under key `k`.
fn entry_string(k: &String, e: &String) -> (r: String)
    ensures
        r@ == entry_line(k@, e@),
{
    let kc = chars_of(k.as_str());
    let mut v: Vec<char> = Vec::new();
    if kc.len() > 0 {
        push_all(&mut v, [' ', ' '].as_slice());
    }
    push_all(&mut v, chars_of(e.as_str()).as_slice());
    assert(v@ =~= entry_line(k@, e@));
    string_of(v.as_slice())
}

/// The key a category is ordered by.
fn cat_sort_key(k: &String) -> (r: SortKey)
    ensures
        r@ == cat_key((k@, Seq::empty())),
{
    let cs = chars_of(k.as_str());
    let mut codes: Vec<u32> = Vec::new();
    let mut i: usize = 0;
    while i < cs.len()
        invariant
            i <= cs@.len(),
            codes@ == cs@.take(i as int).map_values(|ch: char| ch as u32),
        decreases cs@.len() - i,
    {
        codes.push(cs[i] as u32);
        i += 1;
        assert(codes@ =~= cs@.take(i as int).map_values(|ch: char| ch as u32));
    }
    assert(cs@.take(i as int) =~= cs@);
    SortKey { num: 0, text: codes }
}

/// The shape `%Y-%m-%d_%H:%M:%S` writes: the year as four or more digits (with a sign outside
/// 0 to 9999), then `-MM-DD_HH:MM:SS` with two digits each.
pub open spec fn is_timestamp(t: Seq<char>) -> bool {
    let n = t.len() as int;
    &&& n >= 19
    &&& forall|i: int|
        0 <= i < n - 15 ==> is_digit(#[trigger] t[i]) || (i == 0 && (t[i] == '+' || t[i] == '-'))
    &&& t[n - 15] == '-' && t[n - 12] == '-' && t[n - 9] == '_' && t[n - 6] == ':' && t[n - 3] == ':'
    &&& forall|j: int|
        n - 15 < j < n && j != n - 12 && j != n - 9 && j != n - 6 && j != n - 3 ==> is_digit(
            #[trigger] t[j],
        )
}

/// Relies on `chrono::Local::now` and `DelayedFormat`'s `Display`: the local time now,
/// written with the given format, which must be the timestamp format (a well-formed one,
/// on which formatting does not fail). chrono writes `%Y` as four digits, or with a sign and
/// at least four digits outside 0 to 9999, and the other fields as two digits each.
#[verifier::external_body]
fn local_time_text(format: &str) -> (r: String)
    requires
        format@ == timestamp_format(),
    ensures
        is_timestamp(r@),
{
    chrono::Local::now().format(format).to_string()
}

/// `%Y-%m-%d_%H:%M:%S`: year, month, day, hour, minute, second.
pub open spec fn timestamp_format() -> Seq<char> {
    "%Y-%m-%d_%H:%M:%S"@
}

impl Contents {
    /// Orders the entries of every category under `strategy`.
    pub fn sort_entries(&mut self, strategy: SortStrategy)
        ensures
            final(self)@ == with_sorted_entries(old(self)@, strategy),
            forall|i: int|
                0 <= i < old(self)@.cats.len() ==> (#[trigger] final(self)@.cats[i]).1.to_multiset()
                    == old(self)@.cats[i].1.to_multiset(),
    {
        let ghost cv = cats_view(self.categories@);
        let ghost label0 = self.label@;
        let ghost count0 = self.count;
        let n = self.categories.len();
        let mut i: usize = 0;
        while i < n
            invariant
                n == self.categories@.len() == cv.len(),
                self.label@ == label0,
                self.count == count0,
                i <= n,
                forall|j: int|
                    i <= j < n ==> (#[trigger] cats_view(self.categories@)[j]) == cv[j],
                forall|j: int|
                    0 <= j < i ==> (#[trigger] cats_view(self.categories@)[j]) == (
                        cv[j].0,
                        sorted_entries(cv[j].1, strategy),
                    ),
                forall|j: int|
                    0 <= j < i ==> (#[trigger] cats_view(self.categories@)[j]).1.to_multiset()
                        == cv[j].1.to_multiset(),
            decreases n - i,
        {
            let ghost before = cats_view(self.categories@);
            let mut c = self.categories.remove(i);
            assert(c@ == before[i as int]);
            sort(&mut c.entries, strategy);
            self.categories.insert(i, c);
            assert forall|j: int| 0 <= j < n && j != i implies (#[trigger] cats_view(
                self.categories@,
            )[j]) == before[j] by {
                assert(cats_view(self.categories@)[j] == self.categories@[j]@);
            }
            assert(cats_view(self.categories@)[i as int] == self.categories@[i as int]@);
            i += 1;
        }
        assert(cats_view(self.categories@) =~= cv.map_values(
            |x: CatView| (x.0, sorted_entries(x.1, strategy)),
        ));
    }

    /// Writes the catalog as lines: the label, then for each category in key order a blank
    /// line, its key and its entries (indented by two spaces under a non-empty key), leaving out
    /// any entry line already written; the blank and key lines are left out where `<>` is the only
    /// category. Where as many entry lines were written as the footer recorded, the result
    /// carries `NoChange`; otherwise two blank lines and a footer with the new count and
    /// `timestamp` follow.
    pub fn render(&self, timestamp: &str) -> (r: (Vec<String>, Option<Error>))
        ensures
            lines_view(r.0@) == rendered_lines(self@, timestamp@),
            (r.1 is Some) == unchanged(self@),
            r.1 is Some ==> (r.1->0 is NoChange),
    {
        let ghost cv = cats_view(self.categories@);
        let n = self.categories.len();
        // order the categories by key
        let mut items: Vec<(SortKey, usize)> = Vec::new();
        let ghost key = |i: usize| cat_key(cv[i as int]);
        let mut i: usize = 0;
        while i < n
            invariant
                n == self.categories@.len() == cv.len(),
                cv == cats_view(self.categories@),
                i <= n,
                key == (|i: usize| cat_key(cv[i as int])),
                items@.len() == i,
                forall|j: int| 0 <= j < i ==> (#[trigger] items@[j]).1 == j,
                forall|j: int| 0 <= j < i ==> (#[trigger] items@[j]).0@ == key(items@[j].1),
            decreases n - i,
        {
            let k = cat_sort_key(&self.categories[i].key);
            assert(cv[i as int] == self.categories@[i as int]@);
            items.push((k, i));
            i += 1;
        }
        let ghost idx = payloads(items@);
        assert(idx.map_values(|i: usize| cv[i as int]) =~= cv);
        let order = sort_keyed(items, Ghost(key));
        let ghost sc = sorted_cats(cv);
        proof {
            let f = |i: usize| cv[i as int];
            let ck = |c: CatView| cat_key(c);
            assert(key =~= (|a: usize| ck(f(a))));
            lemma_sorted_by_map(idx, f, ck);
            crate::order::lemma_sorted_by_multiset(idx, key);
        }
        assert(order@.map_values(|i: usize| cv[i as int]) == sc);
        proof {
            broadcast use vstd::seq_lib::group_to_multiset_ensures;

            assert forall|t: int| 0 <= t < order@.len() implies (#[trigger] order@[t]) < n by {
                assert(order@.to_multiset().count(order@[t]) > 0);
                assert(idx.to_multiset().count(order@[t]) > 0);
                assert(idx.contains(order@[t]));
            }
        }
        // a lone `<>` category has no key line
        let sentinel_key = string_of(['<', '>'].as_slice());
        assert(sentinel_key@ =~= sentinel());
        let with_keys = !(n == 1 && self.categories[0].key == sentinel_key);
        proof {
            if n == 1 {
                assert(cv[0] == self.categories@[0]@);
            }
        }
        assert(with_keys == !only_sentinel(cv));
        let mut out: Vec<String> = Vec::new();
        let mut seen: Vec<String> = Vec::new();
        out.push(self.label.clone());
        seen.push(self.label.clone());
        assert(lines_view(out@) =~= seq![self.label@]);
        assert(lines_view(seen@) =~= seq![self.label@]);
        let ghost init = (seq![self.label@], seq![self.label@]);
        let mut t: usize = 0;
        assert(sc.take(0) =~= Seq::<CatView>::empty());
        while t < order.len()
            invariant
                n == self.categories@.len() == cv.len(),
                cv == cats_view(self.categories@),
                order@.map_values(|i: usize| cv[i as int]) == sc,
                forall|u: int| 0 <= u < order@.len() ==> (#[trigger] order@[u]) < n,
                t <= order@.len(),
                init == (seq![self.label@], seq![self.label@]),
                seen@.len() >= 1,
                (lines_view(out@), lines_view(seen@)) == emit_cats(init, sc.take(t as int), with_keys),
            decreases order@.len() - t,
        {
            let ci = order[t];
            let c = &self.categories[ci];
            assert(sc[t as int] == cv[ci as int]);
            assert(cv[ci as int] == c@);
            assert(sc.take(t + 1).drop_last() =~= sc.take(t as int));
            assert(sc.take(t + 1).last() == c@);
            if with_keys {
                let ghost o = lines_view(out@);
                out.push(String::new());
                out.push(c.key.clone());
                assert(lines_view(out@) =~= o + seq![Seq::<char>::empty(), c@.0]);
            }
            let ghost s2 = (lines_view(out@), lines_view(seen@));
            let ghost es = c@.1;
            let mut j: usize = 0;
            assert(es.take(0) =~= Seq::<Seq<char>>::empty());
            while j < c.entries.len()
                invariant
                    j <= c.entries@.len(),
                    es == lines_view(c.entries@),
                    seen@.len() >= 1,
                    (lines_view(out@), lines_view(seen@)) == emit_entries(s2, c.key@, es.take(j as int)),
                decreases c.entries@.len() - j,
            {
                assert(es.take(j + 1).drop_last() =~= es.take(j as int));
                assert(es.take(j + 1).last() == c.entries@[j as int]@);
                let line = entry_string(&c.key, &c.entries[j]);
                if !contains_line_of(&seen, &line) {
                    let ghost o = lines_view(out@);
                    let ghost sn = lines_view(seen@);
                    out.push(line.clone());
                    seen.push(line);
                    assert(lines_view(out@) =~= o.push(entry_line(c.key@, es[j as int])));
                    assert(lines_view(seen@) =~= sn.push(entry_line(c.key@, es[j as int])));
                }
                j += 1;
            }
            assert(es.take(j as int) =~= es);
            t += 1;
        }
        assert(sc.take(t as int) =~= sc);
        let count = seen.len() - 1;
        if count == self.count {
            return (out, Some(Error::NoChange));
        }
        let ghost body = lines_view(out@);
        out.push(String::new());
        out.push(String::new());
        out.push(footer_string(count, timestamp));
        assert(lines_view(out@) =~= body + seq![
            Seq::<char>::empty(),
            Seq::<char>::empty(),
            footer_text(count as nat, timestamp@),
        ]);
        (out, None)
    }

    /// Orders every category's entries under `strategy` and writes the catalog with the local
    /// time as the footer's timestamp (see [`Contents::render`]).
    pub fn prepare_data(self, strategy: SortStrategy) -> (r: (Vec<String>, Option<Error>))
        ensures
            (exists|ts: Seq<char>|
                is_timestamp(ts) && lines_view(r.0@) == rendered_lines(
                    with_sorted_entries(self@, strategy),
                    ts,
                )),
            (r.1 is Some) == unchanged(with_sorted_entries(self@, strategy)),
            r.1 is Some ==> (r.1->0 is NoChange),
            forall|i: int|
                0 <= i < self@.cats.len() ==> (#[trigger] with_sorted_entries(
                    self@,
                    strategy,
                ).cats[i]).1.to_multiset() == self@.cats[i].1.to_multiset(),
    {
        let mut c = self;
        c.sort_entries(strategy);
        let format = "%Y-%m-%d_%H:%M:%S";
        let timestamp = local_time_text(format);
        let r = c.render(timestamp.as_str());
        assert(lines_view(r.0@) == rendered_lines(with_sorted_entries(self@, strategy), timestamp@));
        r
    }
}

/// Whether a run writes the catalog file: only where the count changed (no `NoChange`) and it
/// is no dry run.
pub fn should_write(outcome: &Option<Error>, dry_run: bool) -> (r: bool)
    ensures
        r == (outcome is None && !dry_run),
{
    outcome.is_none() && !dry_run
}

/// Whether `s` is among `v`.
fn contains_line_of(v: &Vec<String>, s: &String) -> (r: bool)
    ensures
        r == lines_view(v@).contains(s@),
{
    crate::catalog::contains_line(v, s)
}

// ---------------------------------------------------------------- display

/// `char::is_whitespace`: the Unicode `White_Space` characters.
pub open spec fn is_white(c: char) -> bool {
    let u = c as u32;
    (0x9 <= u && u <= 0xd) || u == 0x20 || u == 0x85 || u == 0xa0 || u == 0x1680 || (0x2000 <= u
        && u <= 0x200a) || u == 0x2028 || u == 0x2029 || u == 0x202f || u == 0x205f || u == 0x3000
}

/// `s` without its trailing white space.
pub open spec fn trim_end_white(s: Seq<char>) -> Seq<char>
    decreases s.len(),
{
    if s.len() > 0 && is_white(s.last()) {
        trim_end_white(s.drop_last())
    } else {
        s
    }
}

/// The lines joined by line breaks.
pub open spec fn joined(lines: Seq<Seq<char>>) -> Seq<char>
    decreases lines.len(),
{
    if lines.len() == 0 {
        Seq::empty()
    } else if lines.len() == 1 {
        lines[0]
    } else {
        joined(lines.drop_last()) + seq!['\n'] + lines.last()
    }
}

/// The text shown and copied: the rendered lines without the footer and the two blank lines
/// before it, joined by line breaks, without trailing white space.
pub open spec fn display_of(lines: Seq<Seq<char>>, unchanged: bool) -> Seq<char> {
    let body = if unchanged || lines.len() < 3 {
        lines
    } else {
        lines.take(lines.len() - 3)
    };
    trim_end_white(joined(body))
}

fn white(c: char) -> (r: bool)
    ensures
        r == is_white(c),
{
    let u = c as u32;
    (0x9 <= u && u <= 0xd) || u == 0x20 || u == 0x85 || u == 0xa0 || u == 0x1680 || (0x2000 <= u
        && u <= 0x200a) || u == 0x2028 || u == 0x2029 || u == 0x202f || u == 0x205f || u == 0x3000
}

/// The text to show and copy for rendered `lines`; `unchanged` tells that they carry no footer.
pub fn display_text(lines: &Vec<String>, unchanged: bool) -> (r: String)
    ensures
        r@ == display_of(lines_view(lines@), unchanged),
{
    let ghost lv = lines_view(lines@);
    let n = if unchanged || lines.len() < 3 {
        lines.len()
    } else {
        lines.len() - 3
    };
    let ghost body = if unchanged || lv.len() < 3 {
        lv
    } else {
        lv.take(lv.len() - 3)
    };
    assert(body =~= lv.take(n as int));
    let mut text: Vec<char> = Vec::new();
    let mut i: usize = 0;
    assert(lv.take(0) =~= Seq::<Seq<char>>::empty());
    while i < n
        invariant
            i <= n <= lines@.len(),
            lv == lines_view(lines@),
            text@ == joined(lv.take(i as int)),
        decreases n - i,
    {
        assert(lv.take(i + 1).drop_last() =~= lv.take(i as int));
        assert(lv.take(i + 1).last() == lines@[i as int]@);
        if i > 0 {
            text.push('\n');
        }
        push_all(&mut text, chars_of(lines[i].as_str()).as_slice());
        proof {
            if i == 0 {
                assert(text@ =~= lv.take(1)[0]);
            } else {
                assert(text@ =~= joined(lv.take(i as int)) + seq!['\n'] + lv.take(i + 1).last());
            }
        }
        i += 1;
    }
    let mut end = text.len();
    assert(text@.take(end as int) =~= text@);
    while end > 0 && white(text[end - 1])
        invariant
            end <= text@.len(),
            trim_end_white(text@) == trim_end_white(text@.take(end as int)),
        decreases end,
    {
        assert(text@.take(end as int).drop_last() =~= text@.take(end - 1));
        end -= 1;
    }
    string_of(crate::text::chars_between(text.as_slice(), 0, end).as_slice())
}

} // verus!
