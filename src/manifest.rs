//! The reader of a file manager's manifest: each listed path files its subtitle under a key.

use vstd::prelude::*;

use crate::catalog::{
    append_entry, cats_view, keys_unique, lemma_filing_keeps_keys_unique, sentinel, Category,
    Contents, ContentsView,
};
use crate::error::Error;
use crate::output::{find_last_dot, last_dot, mentions_list_file, Output};
use crate::strategy::lines_view;
use crate::text::{
    chars_between, chars_of, contains_chars, has_infix, has_prefix, indent_width, split_by,
    split_on, starts_with, string_of, trim_start,
};

verus! {

/// `\` or `/`, the characters that separate the components of a path.
pub open spec fn is_path_sep(c: char) -> bool {
    c == '\\' || c == '/'
}

/// The non-empty components of a path.
pub open spec fn components(path: Seq<char>) -> Seq<Seq<char>> {
    split_by(path, |c: char| is_path_sep(c)).filter(|p: Seq<char>| p.len() > 0)
}

/// A file name without its extension: the text before its last dot, unless nothing comes
/// before that dot (or the name is `..`).
pub open spec fn file_stem(name: Seq<char>) -> Seq<char> {
    let d = last_dot(name);
    if name == seq!['.', '.'] || d <= 0 {
        name
    } else {
        name.take(d)
    }
}

/// The name an entry is made from: a directory's whole name, a file's stem.
pub open spec fn base_name(path: Seq<char>, is_dir: bool) -> Seq<char> {
    let last = components(path).last();
    if is_dir {
        last
    } else {
        file_stem(last)
    }
}

/// `｜`, the full-width bar between a category key and a subtitle.
pub const KEY_BAR: char = '｜';

/// `s` without the prefix `p`, where it starts with it.
pub open spec fn strip_prefix(s: Seq<char>, p: Seq<char>) -> Seq<char> {
    if has_prefix(s, p) {
        s.skip(p.len() as int)
    } else {
        s
    }
}

/// The (key, subtitle) a base name files: without a bar, `<>` and the whole name; with one,
/// the text before the first bar, and the text after the last bar without the label in front
/// and without leading spaces and tabs.
pub open spec fn manifest_item(base: Seq<char>, label: Seq<char>) -> (Seq<char>, Seq<char>) {
    let parts = split_by(base, |c: char| c == KEY_BAR);
    if parts.len() == 1 {
        (sentinel(), base)
    } else {
        (parts[0], trim_start(strip_prefix(parts.last(), label)))
    }
}

/// A manifest line that files nothing: it names the catalog file or has no component.
pub open spec fn passed_over(line: Seq<char>) -> bool {
    mentions_list_file(line) || components(line).len() == 0
}

/// The categories that manifest lines file, each line appended in turn.
pub open spec fn manifest_cats(lines: Seq<Seq<char>>, dirs: Seq<bool>, label: Seq<char>) -> Seq<
    (Seq<char>, Seq<Seq<char>>),
>
    decreases lines.len(),
{
    if lines.len() == 0 {
        Seq::empty()
    } else {
        let prev = manifest_cats(lines.drop_last(), dirs, label);
        let line = lines.last();
        if passed_over(line) {
            prev
        } else {
            let item = manifest_item(base_name(line, dirs[lines.len() - 1]), label);
            append_entry(prev, item.0, item.1)
        }
    }
}

proof fn lemma_manifest_keys_unique(lines: Seq<Seq<char>>, dirs: Seq<bool>, label: Seq<char>)
    ensures
        keys_unique(manifest_cats(lines, dirs, label)),
    decreases lines.len(),
{
    if lines.len() > 0 {
        lemma_manifest_keys_unique(lines.drop_last(), dirs, label);
        let item = manifest_item(base_name(lines.last(), dirs[lines.len() - 1]), label);
        lemma_filing_keeps_keys_unique(manifest_cats(lines.drop_last(), dirs, label), item.0, item.1);
    }
}

/// The folder a manifest path lies in: its next-to-last component.
pub open spec fn folder_of(path: Seq<char>) -> Option<Seq<char>> {
    let c = components(path);
    if c.len() >= 2 {
        Some(c[c.len() - 2])
    } else {
        None
    }
}

/// The catalog a manifest makes under the label `label`.
pub open spec fn manifest_view(lines: Seq<Seq<char>>, dirs: Seq<bool>, label: Seq<char>) -> ContentsView {
    ContentsView { label, cats: manifest_cats(lines, dirs, label), count: 0 }
}

/// `.tmp`, the mark of a manifest's path.
pub open spec fn manifest_mark() -> Seq<char> {
    seq!['.', 't', 'm', 'p']
}

/// The non-empty components of a path.
pub fn components_of(cs: &[char]) -> (r: Vec<Vec<char>>)
    ensures
        r@.map_values(|f: Vec<char>| f@) == components(cs@),
{
    let ghost sep = |c: char| is_path_sep(c);
    let ghost nonempty = |p: Seq<char>| p.len() > 0;
    let mut done: Vec<Vec<char>> = Vec::new();
    let mut cur: Vec<char> = Vec::new();
    let mut i: usize = 0;
    assert(cs@.take(0) =~= Seq::<char>::empty());
    assert(split_by(cs@.take(0), sep).drop_last() =~= Seq::<Seq<char>>::empty());
    assert(done@.map_values(|f: Vec<char>| f@) =~= split_by(cs@.take(0), sep).drop_last().filter(
        nonempty,
    ));
    while i < cs.len()
        invariant
            i <= cs@.len(),
            sep == (|c: char| is_path_sep(c)),
            nonempty == (|p: Seq<char>| p.len() > 0),
            split_by(cs@.take(i as int), sep).len() >= 1,
            done@.map_values(|f: Vec<char>| f@) == split_by(cs@.take(i as int), sep).drop_last().filter(
                nonempty,
            ),
            cur@ == split_by(cs@.take(i as int), sep).last(),
        decreases cs@.len() - i,
    {
        let c = cs[i];
        let ghost parts = split_by(cs@.take(i as int), sep);
        let ghost before = done@.map_values(|f: Vec<char>| f@);
        assert(cs@.take(i + 1).drop_last() =~= cs@.take(i as int));
        assert(cs@.take(i + 1).last() == c);
        if c == '\\' || c == '/' {
            proof {
                assert(parts.drop_last().push(parts.last()) =~= parts);
                parts.drop_last().lemma_filter_push(parts.last(), nonempty);
                assert(split_by(cs@.take(i + 1), sep).drop_last() =~= parts);
            }
            if cur.len() > 0 {
                done.push(cur);
                assert(done@.map_values(|f: Vec<char>| f@) =~= before.push(parts.last()));
            }
            cur = Vec::new();
            assert(cur@ =~= split_by(cs@.take(i + 1), sep).last());
        } else {
            cur.push(c);
            assert(split_by(cs@.take(i + 1), sep).drop_last() =~= parts.drop_last());
        }
        i += 1;
    }
    assert(cs@.take(i as int) =~= cs@);
    let ghost parts = split_by(cs@, sep);
    proof {
        assert(parts.drop_last().push(parts.last()) =~= parts);
        parts.drop_last().lemma_filter_push(parts.last(), nonempty);
    }
    let ghost before = done@.map_values(|f: Vec<char>| f@);
    if cur.len() > 0 {
        done.push(cur);
        assert(done@.map_values(|f: Vec<char>| f@) =~= before.push(parts.last()));
    }
    done
}

/// A file name without its extension.
pub fn stem_of(name: &[char]) -> (r: Vec<char>)
    ensures
        r@ == file_stem(name@),
{
    let n = name.len();
    let whole = chars_between(name, 0, n);
    assert(whole@ =~= name@);
    if n == 2 && name[0] == '.' && name[1] == '.' {
        assert(name@ =~= seq!['.', '.']);
        return whole;
    }
    assert(name@ != seq!['.', '.']) by {
        if n == 2 {
            assert(name@[0] != '.' || name@[1] != '.');
        }
    }
    match find_last_dot(name) {
        Some(d) => {
            if d == 0 {
                whole
            } else {
                chars_between(name, 0, d)
            }
        },
        None => whole,
    }
}

/// The (key, subtitle) that a base name files.
fn item_of(base: &[char], label: &[char]) -> (r: (String, String))
    ensures
        (r.0@, r.1@) == manifest_item(base@, label@),
{
    let parts = split_on(base, KEY_BAR);
    let ghost pv = parts@.map_values(|f: Vec<char>| f@);
    assert(pv.len() == parts@.len());
    if parts.len() == 1 {
        let key = string_of(['<', '>'].as_slice());
        assert(key@ =~= sentinel());
        return (key, string_of(base));
    }
    let last = &parts[parts.len() - 1];
    assert(pv.last() == last@);
    assert(pv[0] == parts@[0]@);
    let stripped = if starts_with(last.as_slice(), label) {
        chars_between(last.as_slice(), label.len(), last.len())
    } else {
        chars_between(last.as_slice(), 0, last.len())
    };
    assert(stripped@ =~= strip_prefix(last@, label@));
    let w = indent_width(stripped.as_slice());
    let sub = chars_between(stripped.as_slice(), w, stripped.len());
    assert(sub@ =~= trim_start(stripped@));
    (string_of(parts[0].as_slice()), string_of(sub.as_slice()))
}

impl Contents {
    /// Whether `path` looks like a manifest: it holds `.tmp`.
    pub fn is_manifest_path(path: &str) -> (r: bool)
        ensures
            r == has_infix(path@, manifest_mark()),
    {
        let mark = ['.', 't', 'm', 'p'];
        assert(mark@ =~= manifest_mark());
        contains_chars(chars_of(path).as_slice(), mark.as_slice())
    }

    /// Reads a file manager's manifest: the catalog that its listed paths make.
    ///
    /// `is_dir[i]` tells whether `lines[i]` names a directory. The label is the folder of the
    /// first listed path. Each line that names neither the catalog file nor nothing files the
    /// subtitle of its base name under its key, in order, duplicates kept.
    pub fn from_temp_file(path: &str, lines: &Vec<String>, is_dir: &Vec<bool>) -> (r: Result<Contents, Error>)
        requires
            is_dir@.len() == lines@.len(),
        ensures
            !has_infix(path@, manifest_mark()) ==> (r matches Err(Error::NotFound)),
            has_infix(path@, manifest_mark()) && lines@.len() == 0 ==> (r matches Err(
                Error::UnexpectedEof,
            )),
            has_infix(path@, manifest_mark()) && lines@.len() > 0 && (folder_of(lines@[0]@) is None)
                ==> (r matches Err(Error::Other(_))),
            has_infix(path@, manifest_mark()) && lines@.len() > 0 && (folder_of(lines@[0]@) is Some)
                ==> (r matches Ok(c) && c@ == manifest_view(
                lines_view(lines@),
                is_dir@,
                folder_of(lines@[0]@)->0,
            ) && keys_unique(c@.cats)),
    {
        let mark = ['.', 't', 'm', 'p'];
        assert(mark@ =~= manifest_mark());
        if !contains_chars(chars_of(path).as_slice(), mark.as_slice()) {
            return Err(Error::NotFound);
        }
        if lines.len() == 0 {
            return Err(Error::UnexpectedEof);
        }
        let first = components_of(chars_of(lines[0].as_str()).as_slice());
        let ghost fv = first@.map_values(|f: Vec<char>| f@);
        assert(fv.len() == first@.len());
        if first.len() < 2 {
            return Err(Error::Other("the first listed path has no folder"));
        }
        let label_chars = &first[first.len() - 2];
        assert(fv[fv.len() - 2] == label_chars@);
        let label = string_of(label_chars.as_slice());
        let ghost lv = lines_view(lines@);
        let mut cats: Vec<Category> = Vec::new();
        let mut i: usize = 0;
        assert(lv.take(0) =~= Seq::<Seq<char>>::empty());
        assert(cats_view(cats@) =~= Seq::<(Seq<char>, Seq<Seq<char>>)>::empty());
        while i < lines.len()
            invariant
                i <= lines@.len() == is_dir@.len(),
                lv == lines_view(lines@),
                label@ == label_chars@,
                cats_view(cats@) == manifest_cats(lv.take(i as int), is_dir@, label@),
            decreases lines@.len() - i,
        {
            let line = &lines[i];
            assert(lv[i as int] == line@);
            assert(lv.take(i + 1).drop_last() =~= lv.take(i as int));
            assert(lv.take(i + 1).last() == line@);
            let cs = chars_of(line.as_str());
            let comps = components_of(cs.as_slice());
            let ghost cv = comps@.map_values(|f: Vec<char>| f@);
            assert(cv.len() == comps@.len());
            if !(Output::list_in_line(line.as_str()) || comps.len() == 0) {
                let name = &comps[comps.len() - 1];
                assert(cv.last() == name@);
                let base = if is_dir[i] {
                    chars_between(name.as_slice(), 0, name.len())
                } else {
                    stem_of(name.as_slice())
                };
                assert(base@ =~= base_name(line@, is_dir@[i as int]));
                let (key, sub) = item_of(base.as_slice(), label_chars.as_slice());
                crate::catalog::file_entry(&mut cats, &key, sub, false);
            }
            i += 1;
        }
        assert(lv.take(i as int) =~= lv);
        proof {
            lemma_manifest_keys_unique(lv, is_dir@, label@);
        }
        Ok(Contents { label, categories: cats, count: 0 })
    }
}

} // verus!
