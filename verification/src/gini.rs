//! The integer part of the Gini coefficient of the authorship distribution:
//! the per-author file counts in ascending order.
use vstd::prelude::*;
use vstd::seq_lib::to_multiset_insert;
use crate::git::AuthorInfo;
use crate::tf::{coverage_views, AuthorFiles, CoverageView};

verus! {

/// The number of files of each author of `m`, in the order of `m`.
pub open spec fn file_counts(m: Seq<CoverageView>) -> Seq<usize> {
    m.map_values(|e: CoverageView| e.files.len() as usize)
}

/// `s` never decreases.
pub open spec fn ascending(s: Seq<usize>) -> bool {
    forall|i: int, j: int| 0 <= i < j < s.len() ==> #[trigger] s[i] <= #[trigger] s[j]
}

/// The number of files of each author, in ascending order: the values whose
/// Gini coefficient measures how unequal authorship is.
pub fn sorted_file_counts(authors: &Vec<(AuthorInfo, AuthorFiles)>) -> (r: Vec<usize>)
    ensures
        ascending(r@),
        r@.to_multiset() == file_counts(coverage_views(authors@)).to_multiset(),
{
    let ghost counts = file_counts(coverage_views(authors@));
    let mut r: Vec<usize> = Vec::new();
    let mut i: usize = 0;
    assert(r@ =~= counts.take(0));
    while i < authors.len()
        invariant
            i <= authors@.len(),
            counts == file_counts(coverage_views(authors@)),
            ascending(r@),
            r@.to_multiset() == counts.take(i as int).to_multiset(),
        decreases authors.len() - i,
    {
        let x = authors[i].1.files.len();
        assert(counts[i as int] == x);
        let mut pos: usize = 0;
        while pos < r.len() && r[pos] <= x
            invariant
                pos <= r@.len(),
                forall|t: int| 0 <= t < pos ==> #[trigger] r@[t] <= x,
            decreases r@.len() - pos,
        {
            pos = pos + 1;
        }
        let ghost before = r@;
        r.insert(pos, x);
        assert(r@ == before.insert(pos as int, x));
        proof {
            to_multiset_insert(before, pos as int, x);
            vstd::seq_lib::to_multiset_build(counts.take(i as int), x);
        }
        assert(counts.take(i + 1) =~= counts.take(i as int).push(x));
        assert forall|a: int, b: int| 0 <= a < b < r@.len() implies #[trigger] r@[a] <= #[trigger] r@[b] by {
            if b < pos {
                assert(before[a] <= before[b]);
            } else if b == pos {
            } else if a < pos {
                assert(before[a] <= before[b - 1]);
            } else if a == pos {
                assert(!(before[pos as int] <= x));
                if b - 1 > pos {
                    assert(before[pos as int] <= before[b - 1]);
                }
            } else {
                assert(before[a - 1] <= before[b - 1]);
            }
        };
        i = i + 1;
    }
    assert(counts.take(authors.len() as int) =~= counts);
    r
}


/// The ascending order of a collection of counts is unique: two ascending
/// sequences with the same counts are the same sequence.
pub proof fn lemma_ascending_unique(a: Seq<usize>, b: Seq<usize>)
    requires
        ascending(a),
        ascending(b),
        a.to_multiset() == b.to_multiset(),
    ensures
        a == b,
    decreases a.len(),
{
    broadcast use vstd::seq_lib::group_to_multiset_ensures;
    assert(a.len() == a.to_multiset().len());
    assert(b.len() == b.to_multiset().len());
    if a.len() == 0 {
        assert(a =~= b);
    } else {
        let n = a.len() - 1;
        let x = a[n];
        let y = b[n];
        assert(a.contains(x));
        assert(a.to_multiset().count(x) > 0);
        assert(b.contains(x));
        let i = choose|i: int| 0 <= i < b.len() && b[i] == x;
        assert(b.contains(y));
        assert(b.to_multiset().count(y) > 0);
        assert(a.contains(y));
        let j = choose|j: int| 0 <= j < a.len() && a[j] == y;
        if i < n {
            assert(b[i] <= b[n]);
        }
        if j < n {
            assert(a[j] <= a[n]);
        }
        assert(x == y);
        assert(a.remove(n) =~= a.drop_last());
        assert(b.remove(n) =~= b.drop_last());
        assert(a.drop_last().to_multiset() == a.to_multiset().remove(x));
        assert(b.drop_last().to_multiset() == b.to_multiset().remove(y));
        lemma_ascending_unique(a.drop_last(), b.drop_last());
        assert(a =~= a.drop_last().push(x));
        assert(b =~= b.drop_last().push(y));
    }
}

} // verus!
