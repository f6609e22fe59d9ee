//! A map from texts to texts, kept as two vectors, for the few lookups the
//! library makes by name.
use vstd::prelude::*;
use crate::text::{lemma_lex_irreflexive, lemma_lex_total, lemma_lex_transitive, lex_lt, search_sorted, strictly_sorted, views};

verus! {

pub(crate) struct StrMap {
    pub(crate) keys: Vec<Vec<char>>,
    pub(crate) vals: Vec<Vec<char>>,
    pub(crate) m: Ghost<Map<Seq<char>, Seq<char>>>,
}

impl StrMap {
    pub(crate) open spec fn view(&self) -> Map<Seq<char>, Seq<char>> {
        self.m@
    }

    pub(crate) open spec fn wf(&self) -> bool {
        &&& self.keys@.len() == self.vals@.len()
        &&& strictly_sorted(views(self.keys@))
        &&& forall|i: int, j: int|
            0 <= i < self.keys@.len() && 0 <= j < self.keys@.len() && i != j ==> (#[trigger] self.keys@[i])@
                != (#[trigger] self.keys@[j])@
        &&& forall|i: int|
            0 <= i < self.keys@.len() ==> self.m@.contains_key((#[trigger] self.keys@[i])@)
                && self.m@[self.keys@[i]@] == self.vals@[i]@
        &&& forall|k: Seq<char>|
            #[trigger] self.m@.contains_key(k) ==> exists|i: int|
                0 <= i < self.keys@.len() && (#[trigger] self.keys@[i])@ == k
    }

    pub(crate) fn new() -> (r: StrMap)
        ensures
            r.wf(),
            r.view() == Map::<Seq<char>, Seq<char>>::empty(),
    {
        StrMap { keys: Vec::new(), vals: Vec::new(), m: Ghost(Map::empty()) }
    }

    pub(crate) fn find(&self, k: &Vec<char>) -> (r: Option<usize>)
        requires
            self.wf(),
        ensures
            match r {
                Some(i) => i < self.keys@.len() && self.keys@[i as int]@ == k@
                    && self.view().contains_key(k@) && self.view()[k@] == self.vals@[i as int]@,
                None => !self.view().contains_key(k@),
            },
    {
        let (pos, found) = search_sorted(&self.keys, k);
        if found {
            Some(pos)
        } else {
            proof {
                if self.view().contains_key(k@) {
                    let t = choose|t: int| 0 <= t < self.keys@.len() && (#[trigger] self.keys@[t])@ == k@;
                    assert(views(self.keys@)[t] == k@);
                }
            }
            None
        }
    }

    pub(crate) fn is_empty(&self) -> (r: bool)
        requires
            self.wf(),
        ensures
            r == (self.view() == Map::<Seq<char>, Seq<char>>::empty()),
    {
        if self.keys.len() == 0 {
            assert(self.view() =~= Map::<Seq<char>, Seq<char>>::empty());
            true
        } else {
            assert(self.view().contains_key(self.keys@[0]@));
            false
        }
    }

    pub(crate) fn insert(&mut self, k: Vec<char>, v: Vec<char>)
        requires
            old(self).wf(),
        ensures
            final(self).wf(),
            final(self).view() == old(self).view().insert(k@, v@),
    {
        let ghost nm = self.m@.insert(k@, v@);
        let (pos, found) = search_sorted(&self.keys, &k);
        if found {
            self.vals.set(pos, v);
            self.m = Ghost(nm);
            assert forall|q: Seq<char>| #[trigger] self.m@.contains_key(q) implies exists|t: int|
                0 <= t < self.keys@.len() && (#[trigger] self.keys@[t])@ == q by {
                if q != k@ {
                    assert(old(self).m@.contains_key(q));
                } else {
                    assert(self.keys@[pos as int]@ == q);
                }
            };
        } else {
            let ghost kv = k@;
            let ghost ok = old(self).keys@;
            self.keys.insert(pos, k);
            self.vals.insert(pos, v);
            self.m = Ghost(nm);
            assert(self.keys@ == ok.insert(pos as int, self.keys@[pos as int]));
            assert(self.keys@[pos as int]@ == kv);
            let ghost nv = views(self.keys@);
            let ghost ov = views(ok);
            assert forall|t: int| 0 <= t < ok.len() implies (#[trigger] ok[t])@ != kv by {
                assert(ov[t] == ok[t]@);
            };
            assert forall|a: int, b: int| 0 <= a < b < nv.len() implies lex_lt(#[trigger] nv[a], #[trigger] nv[b]) by {
                if b < pos {
                    assert(lex_lt(ov[a], ov[b]));
                } else if b == pos {
                    assert(lex_lt(ok[a]@, kv));
                } else if a < pos {
                    assert(lex_lt(ov[a], ov[b - 1]));
                } else if a == pos {
                    assert(!lex_lt(ok[pos as int]@, kv));
                    lemma_lex_total(ok[pos as int]@, kv);
                    if b - 1 > pos {
                        assert(lex_lt(ov[pos as int], ov[b - 1]));
                        lemma_lex_transitive(kv, ok[pos as int]@, ok[b - 1]@);
                    }
                } else {
                    assert(lex_lt(ov[a - 1], ov[b - 1]));
                }
            };
            assert forall|a: int, b: int|
                0 <= a < self.keys@.len() && 0 <= b < self.keys@.len() && a != b implies (#[trigger] self.keys@[a])@
                    != (#[trigger] self.keys@[b])@ by {
                if a < b {
                    assert(lex_lt(nv[a], nv[b]));
                    lemma_lex_irreflexive(nv[a]);
                } else {
                    assert(lex_lt(nv[b], nv[a]));
                    lemma_lex_irreflexive(nv[b]);
                }
            };
            assert forall|t: int|
                0 <= t < self.keys@.len() implies self.m@.contains_key((#[trigger] self.keys@[t])@)
                    && self.m@[self.keys@[t]@] == self.vals@[t]@ by {
                if t != pos {
                    let ot = if t < pos { t } else { t - 1 };
                    assert(self.keys@[t] == ok[ot]);
                    assert(self.vals@[t] == old(self).vals@[ot]);
                    assert(old(self).m@.contains_key(ok[ot]@));
                }
            };
            assert forall|q: Seq<char>| #[trigger] self.m@.contains_key(q) implies exists|t: int|
                0 <= t < self.keys@.len() && (#[trigger] self.keys@[t])@ == q by {
                if q != kv {
                    assert(old(self).m@.contains_key(q));
                    let t = choose|t: int| 0 <= t < ok.len() && (#[trigger] ok[t])@ == q;
                    let nt = if t < pos { t } else { t + 1 };
                    assert(self.keys@[nt] == ok[t]);
                } else {
                    assert(self.keys@[pos as int]@ == q);
                }
            };
        }
    }

    pub(crate) fn remove(&mut self, k: &Vec<char>)
        requires
            old(self).wf(),
        ensures
            final(self).wf(),
            final(self).view() == old(self).view().remove(k@),
    {
        match self.find(k) {
            Some(i) => {
                self.keys.remove(i);
                self.vals.remove(i);
                self.m = Ghost(old(self).m@.remove(k@));
                assert forall|a: int, b: int| 0 <= a < b < self.keys@.len() implies lex_lt(
                    #[trigger] views(self.keys@)[a],
                    #[trigger] views(self.keys@)[b],
                ) by {
                    let oa = if a < i { a } else { a + 1 };
                    let ob = if b < i { b } else { b + 1 };
                    assert(self.keys@[a] == old(self).keys@[oa]);
                    assert(self.keys@[b] == old(self).keys@[ob]);
                    assert(lex_lt(views(old(self).keys@)[oa], views(old(self).keys@)[ob]));
                };
                assert forall|a: int, b: int|
                    0 <= a < self.keys@.len() && 0 <= b < self.keys@.len() && a != b implies (#[trigger] self.keys@[a])@
                        != (#[trigger] self.keys@[b])@ by {
                    let oa = if a < i { a } else { a + 1 };
                    let ob = if b < i { b } else { b + 1 };
                    assert(self.keys@[a] == old(self).keys@[oa]);
                    assert(self.keys@[b] == old(self).keys@[ob]);
                };
                assert forall|t: int|
                    0 <= t < self.keys@.len() implies self.m@.contains_key((#[trigger] self.keys@[t])@)
                        && self.m@[self.keys@[t]@] == self.vals@[t]@ by {
                    let ot = if t < i { t } else { t + 1 };
                    assert(self.keys@[t] == old(self).keys@[ot]);
                    assert(self.vals@[t] == old(self).vals@[ot]);
                    assert(old(self).keys@[ot]@ != old(self).keys@[i as int]@);
                };
                assert forall|q: Seq<char>| #[trigger] self.m@.contains_key(q) implies exists|t: int|
                    0 <= t < self.keys@.len() && (#[trigger] self.keys@[t])@ == q by {
                    assert(old(self).m@.contains_key(q));
                    let t = choose|t: int| 0 <= t < old(self).keys@.len() && (#[trigger] old(self).keys@[t])@ == q;
                    assert(t != i);
                    let nt = if t < i { t } else { t - 1 };
                    assert(self.keys@[nt] == old(self).keys@[t]);
                };
            },
            None => {
                assert(self.view() =~= old(self).view().remove(k@));
            },
        }
    }
}

} // verus!
