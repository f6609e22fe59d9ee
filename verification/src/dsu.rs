//! A disjoint-set forest with union by rank and path compression.
use vstd::prelude::*;
use vstd::set_lib::{lemma_int_range, lemma_len_subset, set_int_range};

verus! {

/// A partition of `0..n` into classes, each led by a root.
///
/// `rep` is the root that leads the class of each element; it is ghost state
/// that the executable fields stand for.
pub(crate) struct DisjointSet {
    pub(crate) parent: Vec<usize>,
    pub(crate) rank: Vec<usize>,
    pub(crate) rep: Ghost<Seq<int>>,
}

impl DisjointSet {
    pub(crate) open spec fn size(&self) -> nat {
        self.parent@.len()
    }

    /// The elements that are roots: their own parent.
    pub(crate) open spec fn root_set(&self) -> Set<int> {
        Set::new(|x: int| 0 <= x < self.parent@.len() && self.parent@[x] == x)
    }

    /// `x` and `y` are in the same class.
    pub(crate) open spec fn same(&self, x: int, y: int) -> bool {
        self.rep@[x] == self.rep@[y]
    }

    /// `x` and `y` are in the same class once the classes of `i` and `j` are one.
    pub(crate) open spec fn joined(&self, i: int, j: int, x: int, y: int) -> bool {
        ||| self.same(x, y)
        ||| (self.same(x, i) && self.same(y, j))
        ||| (self.same(x, j) && self.same(y, i))
    }

    pub(crate) open spec fn wf(&self) -> bool {
        let n = self.parent@.len();
        let p = self.parent@;
        let r = self.rep@;
        let rk = self.rank@;
        &&& rk.len() == n
        &&& r.len() == n
        &&& forall|x: int| 0 <= x < n ==> #[trigger] p[x] < n
        &&& forall|x: int| 0 <= x < n ==> 0 <= #[trigger] r[x] < n
        &&& forall|x: int| 0 <= x < n ==> r[#[trigger] r[x]] == r[x]
        &&& forall|x: int| 0 <= x < n ==> (#[trigger] p[x] == x <==> r[x] == x)
        &&& forall|x: int| 0 <= x < n ==> r[#[trigger] p[x] as int] == r[x]
        &&& forall|x: int| 0 <= x < n && #[trigger] p[x] != x ==> rk[x] < rk[p[x] as int]
        &&& forall|x: int| 0 <= x < n && #[trigger] r[x] != x ==> rk[x] < rk[r[x]]
        &&& forall|x: int| 0 <= x < n ==> #[trigger] rk[x] + self.root_set().len() <= n
    }

    pub(crate) proof fn lemma_root_set_finite(&self)
        ensures
            self.root_set().finite(),
            self.root_set().len() <= self.size(),
    {
        lemma_int_range(0, self.size() as int);
        lemma_len_subset(self.root_set(), set_int_range(0, self.size() as int));
    }

    /// `n` classes, each holding one element.
    pub(crate) fn new(size: usize) -> (d: DisjointSet)
        ensures
            d.wf(),
            d.size() == size,
            d.root_set().len() == size,
            forall|x: int| 0 <= x < size ==> #[trigger] d.rep@[x] == x,
    {
        let mut parent: Vec<usize> = Vec::new();
        let mut i: usize = 0;
        while i < size
            invariant
                i <= size,
                parent@.len() == i,
                forall|x: int| 0 <= x < i ==> parent@[x] == x,
            decreases size - i,
        {
            parent.push(i);
            i = i + 1;
        }
        let rank: Vec<usize> = vec![0; size];
        let d = DisjointSet { parent, rank, rep: Ghost(Seq::new(size as nat, |x: int| x)) };
        assert(d.root_set() =~= set_int_range(0, size as int));
        proof {
            lemma_int_range(0, size as int);
        }
        d
    }

    /// The root of the class of `i`; the path from `i` is pointed at the root.
    pub(crate) fn find(&mut self, i: usize) -> (r: usize)
        requires
            old(self).wf(),
            i < old(self).size(),
        ensures
            final(self).wf(),
            final(self).size() == old(self).size(),
            final(self).rep@ == old(self).rep@,
            final(self).rank@ == old(self).rank@,
            final(self).root_set() == old(self).root_set(),
            r == old(self).rep@[i as int],
            final(self).parent@[i as int] == r,
            final(self).parent@[r as int] == r,
        decreases old(self).rank@.len() - old(self).rank@[i as int],
    {
        proof {
            self.lemma_root_set_finite();
        }
        let p = self.parent[i];
        if p == i {
            i
        } else {
            assert(self.rank@[i as int] < self.rank@[p as int]);
            assert(self.rank@[p as int] + self.root_set().len() <= self.size());
            let root = self.find(p);
            let ghost before = *self;
            self.parent.set(i, root);
            assert(self.root_set() =~= before.root_set());
            root
        }
    }

    /// Merges the classes of `i` and `j`; tells whether they were apart.
    pub(crate) fn union(&mut self, i: usize, j: usize) -> (merged: bool)
        requires
            old(self).wf(),
            i < old(self).size(),
            j < old(self).size(),
        ensures
            final(self).wf(),
            final(self).size() == old(self).size(),
            merged == !old(self).same(i as int, j as int),
            final(self).root_set().len() + (if merged { 1int } else { 0int }) == old(
                self,
            ).root_set().len(),
            forall|x: int, y: int|
                0 <= x < old(self).size() && 0 <= y < old(self).size() ==> (#[trigger] final(self).same(x, y) <==> old(self).joined(i as int, j as int, x, y)),
    {
        let ri = self.find(i);
        let rj = self.find(j);
        if ri == rj {
            return false;
        }
        proof {
            self.lemma_root_set_finite();
            vstd::set::axiom_set_remove_len(self.root_set(), ri as int);
            vstd::set::axiom_set_remove_len(self.root_set(), rj as int);
        }
        let ghost before = *self;
        let ghost n = self.size();
        proof {
            self.lemma_root_set_finite();
        }
        assert(before.root_set().contains(ri as int));
        assert(before.root_set().contains(rj as int));
        if self.rank[ri] < self.rank[rj] {
            self.parent.set(ri, rj);
            self.rep = Ghost(
                before.rep@.map_values(|r: int| if r == ri as int { rj as int } else { r }),
            );
            assert(self.root_set() =~= before.root_set().remove(ri as int));
        } else {
            self.parent.set(rj, ri);
            self.rep = Ghost(
                before.rep@.map_values(|r: int| if r == rj as int { ri as int } else { r }),
            );
            assert(self.root_set() =~= before.root_set().remove(rj as int));
            if self.rank[ri] == self.rank[rj] {
                assert(before.rank@[ri as int] + before.root_set().len() <= n);
                proof {
                    vstd::set::axiom_set_remove_len(before.root_set(), rj as int);
                }
                assert(n == before.parent.len());
                let k = self.rank[ri] + 1;
                self.rank.set(ri, k);
            }
        }
        true
    }
}

} // verus!
