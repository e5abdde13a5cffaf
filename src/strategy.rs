//! Sort strategies: the chapter and date keys read from an entry, and sorting a category's
//! entries under a strategy.

use vstd::prelude::*;

use crate::order::{
    lemma_sorted_by_map, lemma_sorted_by_multiset, lemma_sorted_by_ordered, ordered_by, payloads,
    sort_keyed, sorted_by, KeyView, SortKey,
};
use crate::text::chars_of;

verus! {

/// How the entries of a category are ordered.
#[derive(Clone, Copy, Debug, PartialEq, Eq, Structural, Hash)]
pub enum SortStrategy {
    /// The default heuristic: by chapter number.
    Auto,
    /// By the `alphanumeric_sort` order of the entry text.
    Name,
    /// By the first parenthesised date.
    Date,
    /// By chapter number.
    Chapter,
}

impl Default for SortStrategy {
    fn default() -> (r: Self)
        ensures
            r == SortStrategy::Auto,
    {
        SortStrategy::Auto
    }
}

/// The strategy that a name on the command line selects; any other name selects the default.
pub open spec fn strategy_named(s: Seq<char>) -> SortStrategy {
    if s == seq!['n', 'a', 'm', 'e'] {
        SortStrategy::Name
    } else if s == seq!['d', 'a', 't', 'e'] {
        SortStrategy::Date
    } else if s == seq!['c', 'h', 'a', 'p', 't', 'e', 'r'] {
        SortStrategy::Chapter
    } else {
        SortStrategy::Auto
    }
}

fn same_chars(a: &[char], b: &[char]) -> (r: bool)
    ensures
        r == (a@ == b@),
{
    if a.len() != b.len() {
        return false;
    }
    let mut i: usize = 0;
    while i < a.len()
        invariant
            a@.len() == b@.len(),
            i <= a@.len(),
            forall|j: int| 0 <= j < i ==> a@[j] == b@[j],
        decreases a@.len() - i,
    {
        if a[i] != b[i] {
            return false;
        }
        i += 1;
    }
    assert(a@ =~= b@);
    true
}

impl SortStrategy {
    /// Reads a strategy name: `name`, `date` or `chapter`; anything else is the default.
    pub fn from_name(s: &str) -> (r: SortStrategy)
        ensures
            r == strategy_named(s@),
    {
        let cs = chars_of(s);
        let name = ['n', 'a', 'm', 'e'];
        let date = ['d', 'a', 't', 'e'];
        let chapter = ['c', 'h', 'a', 'p', 't', 'e', 'r'];
        assert(name@ =~= seq!['n', 'a', 'm', 'e']);
        assert(date@ =~= seq!['d', 'a', 't', 'e']);
        assert(chapter@ =~= seq!['c', 'h', 'a', 'p', 't', 'e', 'r']);
        if same_chars(cs.as_slice(), name.as_slice()) {
            SortStrategy::Name
        } else if same_chars(cs.as_slice(), date.as_slice()) {
            SortStrategy::Date
        } else if same_chars(cs.as_slice(), chapter.as_slice()) {
            SortStrategy::Chapter
        } else {
            SortStrategy::Auto
        }
    }
}

/// The glyph that closes a chapter number.
pub const CHAPTER_MARK: char = '話';

pub open spec fn is_digit(c: char) -> bool {
    '0' <= c && c <= '9'
}

pub open spec fn digit_value(c: char) -> int {
    (c as u32) as int - ('0' as u32) as int
}

/// The number that a run of decimal digits writes.
pub open spec fn decimal_value(s: Seq<char>) -> int
    decreases s.len(),
{
    if s.len() == 0 {
        0
    } else {
        decimal_value(s.drop_last()) * 10 + digit_value(s.last())
    }
}

/// A number, capped at the largest `u64`.
pub open spec fn saturate(v: int) -> int {
    if v > u64::MAX {
        u64::MAX as int
    } else {
        v
    }
}

/// Reading `s` from position `i`, with `start` the beginning of the run of digits that ends
/// at `i` (or -1): the number of the first run of digits directly followed by the chapter glyph.
pub open spec fn chapter_scan(s: Seq<char>, i: int, start: int) -> Option<int>
    decreases s.len() - i,
{
    if i < 0 || i >= s.len() {
        None
    } else if is_digit(s[i]) {
        chapter_scan(s, i + 1, if start < 0 { i } else { start })
    } else if s[i] == CHAPTER_MARK && start >= 0 {
        Some(decimal_value(s.subrange(start, i)))
    } else {
        chapter_scan(s, i + 1, -1)
    }
}

/// The chapter number that a line carries, as in `第12話` or `12話`.
pub open spec fn chapter_number(s: Seq<char>) -> Option<int> {
    chapter_scan(s, 0, -1)
}

/// The day: one digit at `d`, or two where a second digit follows.
pub open spec fn day_at(s: Seq<char>, d: int) -> int {
    if d + 1 < s.len() && is_digit(s[d + 1]) {
        decimal_value(s.subrange(d, d + 2))
    } else {
        decimal_value(s.subrange(d, d + 1))
    }
}

/// The date written at position `p` as `(YYYY?M?D` or `(YYYY?MM?D`, each `?` any one character
/// but a line break and the day of one or two digits, as the number `YYYYMMDD`.
/// A two-digit month is preferred where both readings fit.
pub open spec fn date_at(s: Seq<char>, p: int) -> Option<int> {
    if 0 <= p && p + 6 <= s.len() && s[p] == '(' && is_digit(s[p + 1]) && is_digit(s[p + 2])
        && is_digit(s[p + 3]) && is_digit(s[p + 4]) && s[p + 5] != '\n' {
        let y = decimal_value(s.subrange(p + 1, p + 5));
        let q = p + 6;
        if q + 4 <= s.len() && is_digit(s[q]) && is_digit(s[q + 1]) && s[q + 2] != '\n' && is_digit(
            s[q + 3],
        ) {
            Some(y * 10000 + decimal_value(s.subrange(q, q + 2)) * 100 + day_at(s, q + 3))
        } else if q + 3 <= s.len() && is_digit(s[q]) && s[q + 1] != '\n' && is_digit(s[q + 2]) {
            Some(y * 10000 + decimal_value(s.subrange(q, q + 1)) * 100 + day_at(s, q + 2))
        } else {
            None
        }
    } else {
        None
    }
}

/// The first date of `s` at or after position `i`.
pub open spec fn date_scan(s: Seq<char>, i: int) -> Option<int>
    decreases s.len() - i,
{
    if i < 0 || i >= s.len() {
        None
    } else {
        match date_at(s, i) {
            Some(v) => Some(v),
            None => date_scan(s, i + 1),
        }
    }
}

/// The first date that a line carries, as the number `YYYYMMDD`.
pub open spec fn date_number(s: Seq<char>) -> Option<int> {
    date_scan(s, 0)
}

/// A code point with ASCII upper case folded to lower case.
pub open spec fn folded(c: char) -> u32 {
    if 'A' <= c && c <= 'Z' {
        (c as u32 + 32) as u32
    } else {
        c as u32
    }
}

/// The number an entry is ordered by under `strategy`; 0 where the line has none.
pub open spec fn entry_number(s: Seq<char>, strategy: SortStrategy) -> int {
    match strategy {
        SortStrategy::Date => match date_number(s) {
            Some(v) => v,
            None => 0,
        },
        SortStrategy::Name => 0,
        _ => match chapter_number(s) {
            Some(v) => saturate(v),
            None => 0,
        },
    }
}

/// The key an entry is ordered by: its number, then its text with ASCII case folded.
pub open spec fn entry_key(s: Seq<char>, strategy: SortStrategy) -> KeyView {
    (entry_number(s, strategy), s.map_values(|c: char| folded(c)))
}

/// The `alphanumeric_sort` order of a list of lines.
pub uninterp spec fn alphanumeric_order(lines: Seq<Seq<char>>) -> Seq<Seq<char>>;

/// The views of a list of strings.
pub open spec fn lines_view(v: Seq<String>) -> Seq<Seq<char>> {
    v.map_values(|s: String| s@)
}

/// The entries of a category in the order that `strategy` gives them.
pub open spec fn sorted_entries(es: Seq<Seq<char>>, strategy: SortStrategy) -> Seq<Seq<char>> {
    match strategy {
        SortStrategy::Name => alphanumeric_order(es),
        _ => sorted_by(es, |e: Seq<char>| entry_key(e, strategy)),
    }
}

/// Relies on `alphanumeric_sort::sort_str_slice`, which reorders the slice with
/// `sort_unstable_by(compare_str)`: a permutation that depends on the strings alone.
#[verifier::external_body]
fn sort_alphanumeric(lines: &mut Vec<String>)
    ensures
        lines_view(final(lines)@) == alphanumeric_order(lines_view(old(lines)@)),
        lines_view(final(lines)@).to_multiset() == lines_view(old(lines)@).to_multiset(),
{
    alphanumeric_sort::sort_str_slice(lines.as_mut_slice())
}

proof fn lemma_decimal_step(s: Seq<char>, from: int, i: int)
    requires
        0 <= from <= i < s.len(),
    ensures
        decimal_value(s.subrange(from, i + 1)) == decimal_value(s.subrange(from, i)) * 10
            + digit_value(s[i]),
{
    assert(s.subrange(from, i + 1).drop_last() =~= s.subrange(from, i));
}

pub open spec fn pow10(n: nat) -> int
    decreases n,
{
    if n == 0 {
        1
    } else {
        10 * pow10((n - 1) as nat)
    }
}

proof fn lemma_small_powers()
    ensures
        pow10(1) == 10,
        pow10(2) == 100,
        pow10(4) == 10000,
{
    assert(pow10(0) == 1);
    assert(pow10(1) == 10);
    assert(pow10(2) == 100);
    assert(pow10(3) == 1000);
    assert(pow10(4) == 10000);
}

/// A run of `n` digits writes a number below `10^n`.
proof fn lemma_decimal_bound(s: Seq<char>)
    requires
        forall|j: int| 0 <= j < s.len() ==> is_digit(#[trigger] s[j]),
    ensures
        0 <= decimal_value(s) < pow10(s.len()),
    decreases s.len(),
{
    if s.len() > 0 {
        lemma_decimal_bound(s.drop_last());
        assert(is_digit(s[s.len() - 1]));
    }
}

/// The number written by the digits `cs[from..to]`, capped at the largest `u64`.
fn decimal_capped(cs: &[char], from: usize, to: usize) -> (r: u64)
    requires
        from <= to <= cs@.len(),
        forall|j: int| from <= j < to ==> is_digit(#[trigger] cs@[j]),
    ensures
        r == saturate(decimal_value(cs@.subrange(from as int, to as int))),
{
    let mut acc: u64 = 0;
    let mut i = from;
    assert(cs@.subrange(from as int, from as int) =~= Seq::<char>::empty());
    while i < to
        invariant
            from <= i <= to <= cs@.len(),
            forall|j: int| from <= j < to ==> is_digit(#[trigger] cs@[j]),
            decimal_value(cs@.subrange(from as int, i as int)) >= 0,
            acc == saturate(decimal_value(cs@.subrange(from as int, i as int))),
        decreases to - i,
    {
        let d = (cs[i] as u32 - '0' as u32) as u64;
        proof {
            lemma_decimal_step(cs@, from as int, i as int);
            assert(is_digit(cs@[i as int]));
        }
        let ghost v = decimal_value(cs@.subrange(from as int, i as int));
        if acc > (u64::MAX - d) / 10 {
            proof {
                if v < u64::MAX {
                    assert(acc == v);
                }
                assert(v * 10 + d > u64::MAX) by (nonlinear_arith)
                    requires
                        v >= acc,
                        acc > (u64::MAX - d) / 10,
                        0 <= d <= 9,
                ;
            }
            acc = u64::MAX;
        } else {
            proof {
                assert(acc < u64::MAX);
                assert(acc == v);
                assert(acc * 10 + d <= u64::MAX) by (nonlinear_arith)
                    requires
                        acc <= (u64::MAX - d) / 10,
                        0 <= d <= 9,
                ;
            }
            acc = acc * 10 + d;
        }
        i += 1;
    }
    acc
}

/// The chapter number of a line (capped at the largest `u64`), or 0 where it has none.
pub fn chapter_key(cs: &[char]) -> (r: u64)
    ensures
        r == match chapter_number(cs@) {
            Some(v) => saturate(v),
            None => 0,
        },
{
    let mut i: usize = 0;
    let mut start: usize = 0;
    let mut in_run = false;
    while i < cs.len()
        invariant
            i <= cs@.len(),
            in_run ==> start < i,
            in_run ==> forall|j: int| start <= j < i ==> is_digit(#[trigger] cs@[j]),
            chapter_number(cs@) == chapter_scan(cs@, i as int, if in_run { start as int } else { -1 }),
        decreases cs@.len() - i,
    {
        let c = cs[i];
        if '0' <= c && c <= '9' {
            if !in_run {
                start = i;
                in_run = true;
            }
        } else if c == CHAPTER_MARK && in_run {
            return decimal_capped(cs, start, i);
        } else {
            in_run = false;
        }
        i += 1;
    }
    0
}

/// The value at `p` of [`date_at`], where the line has a date there.
fn date_at_exec(cs: &[char], p: usize) -> (r: Option<u64>)
    requires
        p < cs@.len(),
    ensures
        r matches Some(v) ==> date_at(cs@, p as int) == Some(v as int),
        r is None ==> date_at(cs@, p as int) is None,
{
    let n = cs.len();
    if !(n - p >= 6 && cs[p] == '(') {
        return None;
    }
    let mut k: usize = p + 1;
    while k < p + 5
        invariant
            p + 6 <= n == cs@.len(),
            p + 1 <= k <= p + 5,
            forall|j: int| p + 1 <= j < k ==> is_digit(#[trigger] cs@[j]),
        decreases p + 5 - k,
    {
        if !('0' <= cs[k] && cs[k] <= '9') {
            return None;
        }
        k += 1;
    }
    if cs[p + 5] == '\n' {
        return None;
    }
    proof {
        lemma_decimal_bound(cs@.subrange(p + 1, p + 5));
            lemma_small_powers();
    }
    let y = decimal_capped(cs, p + 1, p + 5);
    let q = p + 6;
    let is_dig = |c: char| -> (b: bool)
        ensures
            b == is_digit(c),
        { '0' <= c && c <= '9' };
    let (month, d) = if n - q >= 4 && is_dig(cs[q]) && is_dig(cs[q + 1]) && cs[q + 2] != '\n' && is_dig(cs[q + 3]) {
        proof {
            lemma_decimal_bound(cs@.subrange(q as int, q + 2));
            lemma_small_powers();
        }
        (decimal_capped(cs, q, q + 2), q + 3)
    } else if n - q >= 3 && is_dig(cs[q]) && cs[q + 1] != '\n' && is_dig(cs[q + 2]) {
        proof {
            lemma_decimal_bound(cs@.subrange(q as int, q + 1));
            lemma_small_powers();
        }
        (decimal_capped(cs, q, q + 1), q + 2)
    } else {
        return None;
    };
    let day = if d + 1 < n && is_dig(cs[d + 1]) {
        proof {
            lemma_decimal_bound(cs@.subrange(d as int, d + 2));
            lemma_small_powers();
        }
        decimal_capped(cs, d, d + 2)
    } else {
        proof {
            lemma_decimal_bound(cs@.subrange(d as int, d + 1));
            lemma_small_powers();
        }
        decimal_capped(cs, d, d + 1)
    };
    Some(y * 10000 + month * 100 + day)
}

/// The first date of a line as the number `YYYYMMDD`, or 0 where it has none.
pub fn date_key(cs: &[char]) -> (r: u64)
    ensures
        r == match date_number(cs@) {
            Some(v) => v,
            None => 0,
        },
{
    let mut p: usize = 0;
    while p < cs.len()
        invariant
            p <= cs@.len(),
            date_number(cs@) == date_scan(cs@, p as int),
        decreases cs@.len() - p,
    {
        match date_at_exec(cs, p) {
            Some(v) => {
                return v;
            },
            None => {},
        }
        p += 1;
    }
    0
}

/// The code points of a line with ASCII upper case folded to lower case.
pub fn folded_codes(cs: &[char]) -> (r: Vec<u32>)
    ensures
        r@ == cs@.map_values(|c: char| folded(c)),
{
    let mut out: Vec<u32> = Vec::new();
    let mut i: usize = 0;
    while i < cs.len()
        invariant
            i <= cs@.len(),
            out@ == cs@.take(i as int).map_values(|c: char| folded(c)),
        decreases cs@.len() - i,
    {
        let c = cs[i];
        let code = if 'A' <= c && c <= 'Z' {
            c as u32 + 32
        } else {
            c as u32
        };
        out.push(code);
        i += 1;
        assert(out@ =~= cs@.take(i as int).map_values(|c: char| folded(c)));
    }
    assert(cs@.take(i as int) =~= cs@);
    out
}

/// The key that `strategy` orders `line` by.
pub fn entry_sort_key(line: &str, strategy: SortStrategy) -> (r: SortKey)
    ensures
        r@ == entry_key(line@, strategy),
{
    let cs = chars_of(line);
    let num = match strategy {
        SortStrategy::Date => date_key(cs.as_slice()),
        SortStrategy::Name => 0,
        _ => chapter_key(cs.as_slice()),
    };
    SortKey { num, text: folded_codes(cs.as_slice()) }
}

/// Orders the entries of one category under `strategy`: by name in the `alphanumeric_sort`
/// order, otherwise stably by [`entry_key`] (the date or chapter number, then the text with
/// ASCII case folded).
pub fn sort(lines: &mut Vec<String>, strategy: SortStrategy)
    ensures
        lines_view(final(lines)@) == sorted_entries(lines_view(old(lines)@), strategy),
        lines_view(final(lines)@).to_multiset() == lines_view(old(lines)@).to_multiset(),
        strategy != SortStrategy::Name ==> ordered_by(
            lines_view(final(lines)@),
            |e: Seq<char>| entry_key(e, strategy),
        ),
{
    match strategy {
        SortStrategy::Name => sort_alphanumeric(lines),
        _ => {
            let mut taken: Vec<String> = Vec::new();
            std::mem::swap(lines, &mut taken);
            let ghost orig = taken@;
            let ghost n = orig.len();
            let ghost key = |s: String| entry_key(s@, strategy);
            let mut items: Vec<(SortKey, String)> = Vec::new();
            assert(payloads(items@) =~= orig.take(0));
            while taken.len() > 0
                invariant
                    n == orig.len(),
                    key == (|s: String| entry_key(s@, strategy)),
                    taken@.len() <= n,
                    forall|i: int|
                        0 <= i < taken@.len() ==> #[trigger] taken@[i] == orig[n - taken@.len() + i],
                    forall|i: int|
                        0 <= i < items@.len() ==> (#[trigger] items@[i]).0@ == key(items@[i].1),
                    payloads(items@) == orig.take(n - taken@.len()),
                decreases taken@.len(),
            {
                let ghost done = n - taken@.len();
                let ghost before = items@;
                let s = taken.remove(0);
                assert(s == orig[done]);
                let ghost gs = s;
                let k = entry_sort_key(s.as_str(), strategy);
                assert(k@ == key(s));
                items.push((k, s));
                assert forall|i: int| 0 <= i < items@.len() implies (#[trigger] items@[i]).0@ == key(
                    items@[i].1,
                ) by {
                    if i < before.len() {
                        assert(items@[i] == before[i]);
                    }
                }
                assert(payloads(before) == orig.take(done));
                assert(payloads(before).len() == before.len());
                assert(before.len() == done);
                assert(items@.len() == done + 1);
                assert forall|i: int| 0 <= i < done + 1 implies #[trigger] payloads(items@)[i] == orig.take(done + 1)[i] by {
                    if i == done {
                        assert(items@[i].1 == gs);
                    }
                    if i < done {
                        assert(items@[i] == before[i]);
                        assert(payloads(before)[i] == orig.take(done)[i]);
                    }
                }
                assert(payloads(items@) =~= orig.take(done + 1));
            }
            assert(orig.take(n as int) =~= orig);
            let sorted = sort_keyed(items, Ghost(key));
            proof {
                let f = |s: String| s@;
                let ek = |e: Seq<char>| entry_key(e, strategy);
                assert(key =~= (|a: String| ek(f(a))));
                lemma_sorted_by_map(orig, f, ek);
                assert(lines_view(orig) =~= orig.map_values(f));
                assert(lines_view(sorted@) =~= sorted@.map_values(f));
                lemma_sorted_by_multiset(lines_view(orig), ek);
                lemma_sorted_by_ordered(lines_view(orig), ek);
            }
            *lines = sorted;
        },
    }
}

} // verus!
