//! Merging a manifest's categories into the catalog read from the catalog file.

use vstd::prelude::*;

use crate::catalog::{
    cats_view, file_entry, find_key, key_index, keys_unique, lemma_key_index,
    lemma_key_index_same_keys, CatView, Category, Contents, ContentsView,
};
use crate::strategy::lines_view;

verus! {

/// `es` followed by each of `new` that it does not hold yet.
pub open spec fn append_missing(es: Seq<Seq<char>>, new: Seq<Seq<char>>) -> Seq<Seq<char>>
    decreases new.len(),
{
    if new.len() == 0 {
        es
    } else {
        let t = append_missing(es, new.drop_last());
        if t.contains(new.last()) {
            t
        } else {
            t.push(new.last())
        }
    }
}

/// `cats` with the category `c` merged in: its missing entries appended to the category of
/// the same key, or the whole category added at the end.
pub open spec fn merge_category(cats: Seq<CatView>, c: CatView) -> Seq<CatView> {
    let i = key_index(cats, c.0);
    if i < 0 {
        cats.push(c)
    } else {
        cats.update(i, (c.0, append_missing(cats[i].1, c.1)))
    }
}

/// `cats` with each category of `m` merged in, in order.
pub open spec fn merge_cats(cats: Seq<CatView>, m: Seq<CatView>) -> Seq<CatView>
    decreases m.len(),
{
    if m.len() == 0 {
        cats
    } else {
        merge_category(merge_cats(cats, m.drop_last()), m.last())
    }
}

/// The working catalog: the manifest's label, the catalog file's categories with the
/// manifest's merged in, and the catalog file's recorded count.
pub open spec fn merged(m: ContentsView, existing: Option<ContentsView>) -> ContentsView {
    match existing {
        None => m,
        Some(e) => ContentsView { label: m.label, cats: merge_cats(e.cats, m.cats), count: e.count },
    }
}

proof fn lemma_merge_keys_unique(cats: Seq<CatView>, m: Seq<CatView>)
    requires
        keys_unique(cats),
    ensures
        keys_unique(merge_cats(cats, m)),
    decreases m.len(),
{
    if m.len() > 0 {
        lemma_merge_keys_unique(cats, m.drop_last());
        let prev = merge_cats(cats, m.drop_last());
        let c = m.last();
        lemma_key_index(prev, c.0);
        let i = key_index(prev, c.0);
        let r = merge_category(prev, c);
        assert forall|a: int, b: int| 0 <= a < b < r.len() implies (#[trigger] r[a]).0 != (#[trigger] r[b]).0 by {
            if i < 0 {
                if b == prev.len() {
                    assert(r[a] == prev[a]);
                } else {
                    assert(r[a] == prev[a] && r[b] == prev[b]);
                }
            } else {
                assert(r[a].0 == prev[a].0 && r[b].0 == prev[b].0);
            }
        }
    }
}

impl Contents {
    /// Merges this manifest catalog into the catalog read from the catalog file, if any: every
    /// manifest entry that the category of its key lacks is appended to it, a category that
    /// the file lacks is added whole. The label is the manifest's, the recorded count the file's.
    pub fn merge(self, existing: Option<Contents>) -> (r: Contents)
        ensures
            r@ == merged(self@, match existing {
                Some(e) => Some(e@),
                None => None,
            }),
            (match existing {
                Some(e) => keys_unique(e@.cats),
                None => keys_unique(self@.cats),
            }) ==> keys_unique(r@.cats),
    {
        let mut target = match existing {
            None => {
                return self;
            },
            Some(e) => e,
        };
        let ghost m = cats_view(self.categories@);
        let ghost base = cats_view(target.categories@);
        let ghost e0 = target@;
        let ghost m0 = self@;
        let ghost n = m.len();
        let mut rest = self.categories;
        assert(m.take(0) =~= Seq::<CatView>::empty());
        while rest.len() > 0
            invariant
                n == m.len(),
                rest@.len() <= n,
                forall|i: int| 0 <= i < rest@.len() ==> (#[trigger] rest@[i])@ == m[n - rest@.len() + i],
                cats_view(target.categories@) == merge_cats(base, m.take(n - rest@.len())),
                target.count == e0.count,
                base == e0.cats,
            decreases rest@.len(),
        {
            let ghost done = n - rest@.len();
            let c = rest.remove(0);
            assert(c@ == m[done]);
            assert(m.take(done + 1).drop_last() =~= m.take(done));
            assert(m.take(done + 1).last() == c@);
            let ghost before = cats_view(target.categories@);
            let ghost i0 = key_index(before, c@.0);
            proof {
                lemma_key_index(before, c@.0);
            }
            let ghost es = c@.1;
            let key = c.key;
            let entries = c.entries;
            let mut j: usize = 0;
            let found = find_key(&target.categories, &key);
            if found.is_none() {
                let c2 = Category { key, entries };
                assert(c2@ == c@);
                target.categories.push(c2);
                assert(cats_view(target.categories@) =~= before.push(c@));
            } else {
                assert(es.take(0) =~= Seq::<Seq<char>>::empty());
                while j < entries.len()
                    invariant
                        j <= entries@.len(),
                        es == lines_view(entries@),
                        0 <= i0 < before.len(),
                        before[i0].0 == key@,
                        key_index(before, key@) == i0,
                        target.count == e0.count,
                        cats_view(target.categories@) == before.update(
                            i0,
                            (key@, append_missing(before[i0].1, es.take(j as int))),
                        ),
                    decreases entries@.len() - j,
                {
                    let ghost cur = cats_view(target.categories@);
                    assert(es.take(j + 1).drop_last() =~= es.take(j as int));
                    assert(es.take(j + 1).last() == entries@[j as int]@);
                    proof {
                        lemma_key_index_same_keys(before, cur, key@);
                        assert(cur[i0] == (key@, append_missing(before[i0].1, es.take(j as int))));
                    }
                    file_entry(&mut target.categories, &key, entries[j].clone(), true);
                    assert(cats_view(target.categories@) =~= before.update(
                        i0,
                        (key@, append_missing(before[i0].1, es.take(j + 1))),
                    ));
                    j += 1;
                }
                assert(es.take(j as int) =~= es);
            }
        }
        assert(m.take(n as int) =~= m);
        target.label = self.label;
        assert(target@.cats == merge_cats(e0.cats, m0.cats));
        assert(target@.label == m0.label);
        assert(target@.count == e0.count);
        proof {
            if keys_unique(e0.cats) {
                lemma_merge_keys_unique(e0.cats, m0.cats);
            }
        }
        target
    }
}

} // verus!
