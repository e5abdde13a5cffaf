//! The catalog file: its name, and recognising lines and directory entries that name it.

use vstd::prelude::*;

use crate::text::{chars_of, contains_chars, has_infix};

verus! {

/// `list`, the stem of the catalog file's name.
pub open spec fn list_stem() -> Seq<char> {
    seq!['l', 'i', 's', 't']
}

/// `txt`, the extension of the catalog file's name.
pub open spec fn list_ext() -> Seq<char> {
    seq!['t', 'x', 't']
}

/// `list.txt`, the catalog file's name.
pub open spec fn list_filename() -> Seq<char> {
    list_stem() + seq!['.'] + list_ext()
}

/// A line that names the catalog file: it holds `list` and `.txt`.
pub open spec fn mentions_list_file(s: Seq<char>) -> bool {
    has_infix(s, list_stem()) && has_infix(s, seq!['.'] + list_ext())
}

/// The index of the last `.` of a file name, or -1.
pub open spec fn last_dot(s: Seq<char>) -> int
    decreases s.len(),
{
    if s.len() == 0 {
        -1
    } else if s.last() == '.' {
        s.len() - 1
    } else {
        last_dot(s.drop_last())
    }
}

/// A file name whose extension (the text after its last dot, where a non-empty stem comes
/// before that dot) is `txt` and which holds `list.`.
pub open spec fn is_list_file_name(s: Seq<char>) -> bool {
    let d = last_dot(s);
    d > 0 && s.skip(d + 1) == list_ext() && has_infix(s, list_stem() + seq!['.'])
}

/// The file a catalog is written to.
#[derive(Debug, Clone, PartialEq, Eq)]
pub struct Output {
    filename: String,
}

impl View for Output {
    type V = Seq<char>;

    closed spec fn view(&self) -> Seq<char> {
        self.filename@
    }
}

impl Default for Output {
    fn default() -> (r: Self)
        ensures
            r@ == list_filename(),
    {
        let name = String::from_str("list.txt");
        proof {
            reveal_strlit("list.txt");
        }
        assert(name@ =~= list_filename());
        Output { filename: name }
    }
}

/// The position of the last `.` in `cs`, if any.
pub fn find_last_dot(cs: &[char]) -> (r: Option<usize>)
    ensures
        match r {
            Some(d) => d < cs@.len() && last_dot(cs@) == d as int,
            None => last_dot(cs@) == -1,
        },
{
    let mut i = cs.len();
    assert(cs@.take(i as int) =~= cs@);
    while i > 0
        invariant
            i <= cs@.len(),
            last_dot(cs@) == last_dot(cs@.take(i as int)),
        decreases i,
    {
        assert(cs@.take(i as int).drop_last() =~= cs@.take(i - 1));
        if cs[i - 1] == '.' {
            return Some(i - 1);
        }
        i -= 1;
    }
    None
}

impl Output {
    pub fn new(filename: String) -> (r: Output)
        ensures
            r@ == filename@,
    {
        Output { filename }
    }

    /// The name the catalog is read from and written to.
    pub fn filename(&self) -> (r: &str)
        ensures
            r@ == list_filename(),
    {
        proof {
            reveal_strlit("list.txt");
        }
        let name = "list.txt";
        assert(name@ =~= list_filename());
        name
    }

    /// The catalog files among the names of a directory's entries, in their order.
    pub fn find_list_file(names: &Vec<String>) -> (r: Vec<Output>)
        ensures
            r@.map_values(|o: Output| o@) == names@.map_values(|s: String| s@).filter(
                |s: Seq<char>| is_list_file_name(s),
            ),
    {
        let ghost all = names@.map_values(|s: String| s@);
        let ghost pred = |s: Seq<char>| is_list_file_name(s);
        let mut out: Vec<Output> = Vec::new();
        let mut i: usize = 0;
        let stem_dot = ['l', 'i', 's', 't', '.'];
        let ext = ['t', 'x', 't'];
        assert(stem_dot@ =~= list_stem() + seq!['.']);
        assert(ext@ =~= list_ext());
        assert(all.take(0).filter(pred) =~= Seq::<Seq<char>>::empty());
        while i < names.len()
            invariant
                i <= names@.len(),
                all == names@.map_values(|s: String| s@),
                pred == (|s: Seq<char>| is_list_file_name(s)),
                stem_dot@ == list_stem() + seq!['.'],
                ext@ == list_ext(),
                out@.map_values(|o: Output| o@) == all.take(i as int).filter(pred),
            decreases names@.len() - i,
        {
            let cs = chars_of(names[i].as_str());
            let n = cs.len();
            let keep = match find_last_dot(cs.as_slice()) {
                Some(d) => {
                    if d > 0 {
                        let after = crate::text::chars_between(cs.as_slice(), d + 1, n);
                        assert(after@ =~= cs@.skip(d + 1));
                        let same_ext = after.len() == ext.len() && crate::text::starts_with(
                            after.as_slice(),
                            ext.as_slice(),
                        );
                        assert(same_ext == (after@ == ext@)) by {
                            if after@.len() == ext@.len() {
                                assert(after@.take(ext@.len() as int) =~= after@);
                            }
                        }
                        same_ext && contains_chars(cs.as_slice(), stem_dot.as_slice())
                    } else {
                        false
                    }
                },
                None => false,
            };
            let ghost before = out@;
            if keep {
                out.push(Output::new(names[i].clone()));
                assert(out@.map_values(|o: Output| o@) =~= before.map_values(|o: Output| o@).push(
                    all[i as int],
                ));
            }
            proof {
                assert(all.take(i + 1) =~= all.take(i as int).push(all[i as int]));
                all.take(i as int).lemma_filter_push(all[i as int], pred);
            }
            i += 1;
        }
        assert(all.take(i as int) =~= all);
        out
    }

    /// Whether a line names the catalog file: it holds both `list` and `.txt`.
    pub fn list_in_line(s: &str) -> (r: bool)
        ensures
            r == mentions_list_file(s@),
    {
        let cs = chars_of(s);
        let stem = ['l', 'i', 's', 't'];
        let dot_ext = ['.', 't', 'x', 't'];
        assert(stem@ =~= list_stem());
        assert(dot_ext@ =~= seq!['.'] + list_ext());
        contains_chars(cs.as_slice(), stem.as_slice()) && contains_chars(
            cs.as_slice(),
            dot_ext.as_slice(),
        )
    }
}

} // verus!
