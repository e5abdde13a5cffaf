//! Command-line arguments: `PATH`, `--path <p>`/`--path=<p>`, `--list`, `--sort=<name>`,
//! `-c`/`--ignore-clipboard` and `--dry-run`, read from a list of strings.

use vstd::prelude::*;

use crate::strategy::{strategy_named, SortStrategy};
use crate::text::{chars_between, chars_of, string_of};

verus! {

/// What the program is asked to do.
#[derive(PartialEq, Eq, Structural, Clone, Copy, Debug, Default)]
pub enum Mode {
    /// Nothing: no mode was given.
    #[default]
    Unset,
    /// Reconcile the manifest with the catalog file.
    List,
}

/// The options of a run.
#[derive(Debug, Clone, PartialEq, Eq, Default)]
pub struct Args {
    pub path: String,
    pub mode: Mode,
    pub ignore_clipboard: bool,
    pub sort: SortStrategy,
    pub dry_run: bool,
}

/// The options as plain values.
pub struct ArgsView {
    pub path: Seq<char>,
    pub mode: Mode,
    pub ignore_clipboard: bool,
    pub sort: SortStrategy,
    pub dry_run: bool,
}

impl View for Args {
    type V = ArgsView;

    open spec fn view(&self) -> ArgsView {
        ArgsView {
            path: self.path@,
            mode: self.mode,
            ignore_clipboard: self.ignore_clipboard,
            sort: self.sort,
            dry_run: self.dry_run,
        }
    }
}

/// The position of the first `c` in `s`, or -1.
pub open spec fn first_index(s: Seq<char>, c: char) -> int
    decreases s.len(),
{
    if s.len() == 0 {
        -1
    } else if first_index(s.drop_last(), c) >= 0 {
        first_index(s.drop_last(), c)
    } else if s.last() == c {
        s.len() - 1
    } else {
        -1
    }
}

/// `s` without the dashes at its start.
pub open spec fn trim_start_dashes(s: Seq<char>) -> Seq<char>
    decreases s.len(),
{
    if s.len() > 0 && s[0] == '-' {
        trim_start_dashes(s.drop_first())
    } else {
        s
    }
}

/// `s` without the dashes at its end.
pub open spec fn trim_end_dashes(s: Seq<char>) -> Seq<char>
    decreases s.len(),
{
    if s.len() > 0 && s.last() == '-' {
        trim_end_dashes(s.drop_last())
    } else {
        s
    }
}

/// An option's name: the argument without its dashes.
pub open spec fn option_name(s: Seq<char>) -> Seq<char> {
    trim_end_dashes(trim_start_dashes(s))
}

/// The argument at `i` read as an option: (name, value, where the next option starts).
/// `--name=value` carries its value; `--name` followed by an argument without a dash takes
/// that argument, and at the end takes the last argument (the path); otherwise it has none.
pub open spec fn option_at(rest: Seq<Seq<char>>, last: Seq<char>, i: int) -> (
    Seq<char>,
    Option<Seq<char>>,
    int,
) {
    let arg = rest[i];
    let eq = first_index(arg, '=');
    if eq >= 0 {
        (arg.take(eq), Some(arg.skip(eq + 1)), i + 1)
    } else if i + 1 >= rest.len() {
        (arg, Some(last), i + 1)
    } else if first_index(rest[i + 1], '-') < 0 {
        (arg, Some(rest[i + 1]), i + 2)
    } else {
        (arg, None, i + 1)
    }
}

/// The options after one option; `None` where `--path` or `--sort` lacks a value.
pub open spec fn apply_option(st: ArgsView, name: Seq<char>, value: Option<Seq<char>>, cwd: Seq<char>) -> Option<
    ArgsView,
> {
    let n = option_name(name);
    if n == seq!['p'] || n == seq!['p', 'a', 't', 'h'] {
        match value {
            None => None,
            Some(v) => Some(
                ArgsView {
                    path: st.path + if v == seq!['.'] || v == seq!['.', '/'] {
                        cwd
                    } else {
                        v
                    },
                    ..st
                },
            ),
        }
    } else if n == seq!['l', 'i', 's', 't'] {
        Some(ArgsView { mode: Mode::List, ..st })
    } else if n == seq!['s', 'o', 'r', 't'] {
        match value {
            None => None,
            Some(v) => Some(ArgsView { sort: strategy_named(v), ..st }),
        }
    } else if n == seq!['c'] || n == "ignore-clipboard"@ {
        Some(ArgsView { ignore_clipboard: true, ..st })
    } else if n == "dry-run"@ {
        Some(ArgsView { dry_run: true, ..st })
    } else {
        Some(st)
    }
}

/// The options after reading the arguments `rest` from position `i`.
pub open spec fn parse_from(rest: Seq<Seq<char>>, last: Seq<char>, cwd: Seq<char>, i: int, st: ArgsView) -> Option<
    ArgsView,
>
    decreases rest.len() - i,
{
    if i < 0 || i >= rest.len() {
        Some(st)
    } else {
        let (name, value, next) = option_at(rest, last, i);
        match apply_option(st, name, value, cwd) {
            None => None,
            Some(st2) => if next > i {
                parse_from(rest, last, cwd, next, st2)
            } else {
                None
            },
        }
    }
}

/// The options before any argument is read.
pub open spec fn initial_args() -> ArgsView {
    ArgsView {
        path: Seq::empty(),
        mode: Mode::Unset,
        ignore_clipboard: false,
        sort: SortStrategy::Auto,
        dry_run: false,
    }
}

/// The options that the arguments give, with `cwd` standing for `.`; `None` where the usage
/// is to be shown: no arguments, a last argument with a dash, or `--path`/`--sort` without a
/// value. The last argument is the path unless `--path` gives one.
pub open spec fn parse_args(args: Seq<Seq<char>>, cwd: Seq<char>) -> Option<ArgsView> {
    if args.len() == 0 || first_index(args.last(), '-') >= 0 {
        None
    } else {
        match parse_from(args.drop_last(), args.last(), cwd, 0, initial_args()) {
            None => None,
            Some(st) => Some(
                if st.path.len() == 0 {
                    ArgsView { path: args.last(), ..st }
                } else {
                    st
                },
            ),
        }
    }
}

/// The position of the first `c` in `s`, if any.
fn find_char(s: &[char], c: char) -> (r: Option<usize>)
    ensures
        match r {
            Some(i) => i < s@.len() && first_index(s@, c) == i,
            None => first_index(s@, c) == -1,
        },
{
    let mut i: usize = 0;
    assert(s@.take(0) =~= Seq::<char>::empty());
    while i < s.len()
        invariant
            i <= s@.len(),
            first_index(s@.take(i as int), c) == -1,
        decreases s@.len() - i,
    {
        assert(s@.take(i + 1).drop_last() =~= s@.take(i as int));
        if s[i] == c {
            proof {
                lemma_first_index_prefix(s@, i + 1, c);
            }
            return Some(i);
        }
        i += 1;
    }
    assert(s@.take(i as int) =~= s@);
    None
}

/// Once `c` occurs in a prefix, longer prefixes find it at the same place.
proof fn lemma_first_index_prefix(s: Seq<char>, m: int, c: char)
    requires
        0 <= m <= s.len(),
        first_index(s.take(m), c) >= 0,
    ensures
        first_index(s, c) == first_index(s.take(m), c),
    decreases s.len() - m,
{
    if m < s.len() {
        assert(s.take(m + 1).drop_last() =~= s.take(m));
        lemma_first_index_prefix(s, m + 1, c);
    } else {
        assert(s.take(m) =~= s);
    }
}

fn same(a: &[char], b: &[char]) -> (r: bool)
    ensures
        r == (a@ == b@),
{
    if a.len() != b.len() {
        return false;
    }
    let mut i: usize = 0;
    while i < a.len()
        invariant
            a@.len() == b@.len(),
            i <= a@.len(),
            forall|j: int| 0 <= j < i ==> a@[j] == b@[j],
        decreases a@.len() - i,
    {
        if a[i] != b[i] {
            return false;
        }
        i += 1;
    }
    assert(a@ =~= b@);
    true
}

proof fn lemma_trim_start_dashes_skip(s: Seq<char>, i: int)
    requires
        0 <= i <= s.len(),
        forall|j: int| 0 <= j < i ==> #[trigger] s[j] == '-',
    ensures
        trim_start_dashes(s) == trim_start_dashes(s.skip(i)),
    decreases i,
{
    if i > 0 {
        lemma_trim_start_dashes_skip(s.drop_first(), i - 1);
        assert(s.drop_first().skip(i - 1) =~= s.skip(i));
    } else {
        assert(s.skip(0) =~= s);
    }
}

proof fn lemma_trim_end_dashes_take(s: Seq<char>, e: int)
    requires
        0 <= e <= s.len(),
        forall|j: int| e <= j < s.len() ==> #[trigger] s[j] == '-',
    ensures
        trim_end_dashes(s) == trim_end_dashes(s.take(e)),
    decreases s.len() - e,
{
    if e < s.len() {
        lemma_trim_end_dashes_take(s.drop_last(), e);
        assert(s.drop_last().take(e) =~= s.take(e));
    } else {
        assert(s.take(e) =~= s);
    }
}

/// An option's name: the argument without its leading and trailing dashes.
fn name_of(s: &[char]) -> (r: Vec<char>)
    ensures
        r@ == option_name(s@),
{
    let mut a: usize = 0;
    while a < s.len() && s[a] == '-'
        invariant
            a <= s@.len(),
            forall|j: int| 0 <= j < a ==> #[trigger] s@[j] == '-',
        decreases s@.len() - a,
    {
        a += 1;
    }
    proof {
        lemma_trim_start_dashes_skip(s@, a as int);
    }
    let t = chars_between(s, a, s.len());
    assert(t@ =~= s@.skip(a as int));
    assert(trim_start_dashes(t@) == t@);
    let mut e = t.len();
    while e > 0 && t[e - 1] == '-'
        invariant
            e <= t@.len(),
            forall|j: int| e <= j < t@.len() ==> #[trigger] t@[j] == '-',
        decreases e,
    {
        e -= 1;
    }
    proof {
        lemma_trim_end_dashes_take(t@, e as int);
    }
    let r = chars_between(t.as_slice(), 0, e);
    assert(r@ =~= t@.take(e as int));
    r
}

impl Args {
    /// Reads the arguments (without the program's name); `cwd` stands for `.` or `./` as a
    /// path. `None` where the usage is to be shown instead.
    pub fn parse(args: &Vec<String>, cwd: &str) -> (r: Option<Args>)
        ensures
            match r {
                Some(a) => parse_args(args@.map_values(|s: String| s@), cwd@) == Some(a@),
                None => parse_args(args@.map_values(|s: String| s@), cwd@) is None,
            },
    {
        let ghost av = args@.map_values(|s: String| s@);
        let n = args.len();
        if n == 0 {
            return None;
        }
        let last = chars_of(args[n - 1].as_str());
        assert(av.last() == last@);
        if find_char(last.as_slice(), '-').is_some() {
            return None;
        }
        let ghost rest = av.drop_last();
        let cwd_chars = chars_of(cwd);
        let mut path: Vec<char> = Vec::new();
        let mut mode = Mode::Unset;
        let mut ignore_clipboard = false;
        let mut sort = SortStrategy::Auto;
        let mut dry_run = false;
        let ghost init = initial_args();
        let m = n - 1;
        let mut i: usize = 0;
        assert(path@ =~= Seq::<char>::empty());
        while i < m
            invariant
                m == n - 1,
                n == args@.len() == av.len(),
                av == args@.map_values(|s: String| s@),
                rest == av.drop_last(),
                last@ == av.last(),
                first_index(last@, '-') < 0,
                init == initial_args(),
                cwd_chars@ == cwd@,
                i <= m,
                parse_from(rest, last@, cwd@, 0, init) == parse_from(
                    rest,
                    last@,
                    cwd@,
                    i as int,
                    ArgsView { path: path@, mode, ignore_clipboard, sort, dry_run },
                ),
            decreases m - i,
        {
            let ghost st = ArgsView { path: path@, mode, ignore_clipboard, sort, dry_run };
            let arg = chars_of(args[i].as_str());
            let arg_len = arg.len();
            assert(rest[i as int] == arg@);
            // the option's name and value
            let (name, value, next): (Vec<char>, Option<Vec<char>>, usize) = match find_char(
                arg.as_slice(),
                '=',
            ) {
                Some(eq) => {
                    let name = chars_between(arg.as_slice(), 0, eq);
                    let value = chars_between(arg.as_slice(), eq + 1, arg_len);
                    assert(name@ =~= arg@.take(eq as int));
                    assert(value@ =~= arg@.skip(eq + 1));
                    (name, Some(value), i + 1)
                },
                None => {
                    if i + 1 >= m {
                        (arg, Some(chars_between(last.as_slice(), 0, last.len())), i + 1)
                    } else {
                        let following = chars_of(args[i + 1].as_str());
                        assert(rest[i + 1] == following@);
                        if find_char(following.as_slice(), '-').is_none() {
                            (arg, Some(following), i + 2)
                        } else {
                            (arg, None, i + 1)
                        }
                    }
                },
            };
            proof {
                let o = option_at(rest, last@, i as int);
                assert(o.0 == name@);
                assert(o.1 == match value {
                    Some(v) => Some(v@),
                    None => None::<Seq<char>>,
                }) by {
                    if value.is_some() {
                        assert(value.unwrap()@ =~= o.1.unwrap());
                    }
                }
                assert(o.2 == next);
            }
            // what it sets
            let n_chars = name_of(name.as_slice());
            let ghost nv = n_chars@;
            let path_p = ['p'];
            let path_l = ['p', 'a', 't', 'h'];
            let list_l = ['l', 'i', 's', 't'];
            let sort_l = ['s', 'o', 'r', 't'];
            let ic_s = ['c'];
            let ic_l = [
                'i', 'g', 'n', 'o', 'r', 'e', '-', 'c', 'l', 'i', 'p', 'b', 'o', 'a', 'r', 'd',
            ];
            let dry = ['d', 'r', 'y', '-', 'r', 'u', 'n'];
            let dot = ['.'];
            let dot_slash = ['.', '/'];
            proof {
                reveal_strlit("ignore-clipboard");
                reveal_strlit("dry-run");
            }
            assert(path_p@ =~= seq!['p']);
            assert(path_l@ =~= seq!['p', 'a', 't', 'h']);
            assert(list_l@ =~= seq!['l', 'i', 's', 't']);
            assert(sort_l@ =~= seq!['s', 'o', 'r', 't']);
            assert(ic_s@ =~= seq!['c']);
            assert(ic_l@ =~= "ignore-clipboard"@);
            assert(dry@ =~= "dry-run"@);
            assert(dot@ =~= seq!['.']);
            assert(dot_slash@ =~= seq!['.', '/']);
            if same(n_chars.as_slice(), path_p.as_slice()) || same(n_chars.as_slice(), path_l.as_slice()) {
                match value {
                    None => {
                        assert(parse_from(rest, last@, cwd@, i as int, st) is None);
                        return None;
                    },
                    Some(v) => {
                        let ghost before = path@;
                        if same(v.as_slice(), dot.as_slice()) || same(v.as_slice(), dot_slash.as_slice()) {
                            let mut k: usize = 0;
                            while k < cwd_chars.len()
                                invariant
                                    k <= cwd_chars@.len(),
                                    path@ == before + cwd_chars@.take(k as int),
                                decreases cwd_chars@.len() - k,
                            {
                                path.push(cwd_chars[k]);
                                k += 1;
                                assert(path@ =~= before + cwd_chars@.take(k as int));
                            }
                            assert(cwd_chars@.take(k as int) =~= cwd_chars@);
                        } else {
                            let mut k: usize = 0;
                            while k < v.len()
                                invariant
                                    k <= v@.len(),
                                    path@ == before + v@.take(k as int),
                                decreases v@.len() - k,
                            {
                                path.push(v[k]);
                                k += 1;
                                assert(path@ =~= before + v@.take(k as int));
                            }
                            assert(v@.take(k as int) =~= v@);
                        }
                    },
                }
            } else if same(n_chars.as_slice(), list_l.as_slice()) {
                mode = Mode::List;
            } else if same(n_chars.as_slice(), sort_l.as_slice()) {
                match value {
                    None => {
                        assert(parse_from(rest, last@, cwd@, i as int, st) is None);
                        return None;
                    },
                    Some(v) => {
                        sort = SortStrategy::from_name(string_of(v.as_slice()).as_str());
                    },
                }
            } else if same(n_chars.as_slice(), ic_s.as_slice()) || same(n_chars.as_slice(), ic_l.as_slice()) {
                ignore_clipboard = true;
            } else if same(n_chars.as_slice(), dry.as_slice()) {
                dry_run = true;
            }
            assert(apply_option(st, name@, option_at(rest, last@, i as int).1, cwd@) == Some(
                ArgsView { path: path@, mode, ignore_clipboard, sort, dry_run },
            ));
            i = next;
        }
        let path = if path.len() == 0 {
            string_of(last.as_slice())
        } else {
            string_of(path.as_slice())
        };
        Some(Args { path, mode, ignore_clipboard, sort, dry_run })
    }
}

} // verus!
