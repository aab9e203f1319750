//! A table of language-file lines keyed by rank, kept in ascending rank order.

use vstd::prelude::*;
use crate::sync::{Mas, MasView};

verus! {

/// Lines of a language file keyed by rank. Iteration goes by ascending rank.
#[derive(Debug)]
pub struct RankMap {
    entries: Vec<(usize, Mas)>,
}

impl RankMap {
    /// The entries, in storage order, by value.
    pub closed spec fn seq(self) -> Seq<(usize, MasView)> {
        self.entries@.map_values(|e: (usize, Mas)| (e.0, e.1@))
    }

    /// The ranks are strictly increasing along the entries.
    pub closed spec fn wf(self) -> bool {
        forall|i: int, j: int|
            0 <= i < j < self.seq().len() ==> (#[trigger] self.seq()[i]).0 < (
            #[trigger] self.seq()[j]).0
    }

    /// Whether some entry has rank `k`.
    pub closed spec fn has(self, k: usize) -> bool {
        exists|i: int| 0 <= i < self.seq().len() && (#[trigger] self.seq()[i]).0 == k
    }

    /// The position of the entry with rank `k`.
    pub closed spec fn pos(self, k: usize) -> int {
        choose|i: int| 0 <= i < self.seq().len() && (#[trigger] self.seq()[i]).0 == k
    }

    proof fn lemma_pos(self, i: int)
        requires
            self.wf(),
            0 <= i < self.seq().len(),
        ensures
            self.has(self.seq()[i].0),
            self.pos(self.seq()[i].0) == i,
    {
        let k = self.seq()[i].0;
        assert(self.has(k));
        let p = self.pos(k);
        if p < i {
            assert(self.seq()[p].0 < self.seq()[i].0);
        } else if p > i {
            assert(self.seq()[i].0 < self.seq()[p].0);
        }
    }

    /// Each entry is in the map under its rank, with its line.
    pub proof fn lemma_entry_in_view(self, i: int)
        requires
            self.wf(),
            0 <= i < self.seq().len(),
        ensures
            self@.contains_key(self.seq()[i].0),
            self@[self.seq()[i].0] == self.seq()[i].1,
    {
        self.lemma_pos(i);
    }

    /// The entries are those of the map, in ascending rank order.
    pub proof fn lemma_view_in_entries(self, k: usize)
        requires
            self.wf(),
            self@.contains_key(k),
        ensures
            0 <= self.pos(k) < self.seq().len(),
            self.seq()[self.pos(k)] == (k, self@[k]),
    {
    }

    /// The entries come in strictly ascending rank order.
    pub proof fn lemma_sorted(self)
        requires
            self.wf(),
        ensures
            forall|i: int, j: int|
                0 <= i < j < self.seq().len() ==> (#[trigger] self.seq()[i]).0 < (
                #[trigger] self.seq()[j]).0,
    {
    }

    pub fn new() -> (m: RankMap)
        ensures
            m.wf(),
            m@ == Map::<usize, MasView>::empty(),
            m.seq().len() == 0,
    {
        let m = RankMap { entries: Vec::new() };
        assert(m@ =~= Map::<usize, MasView>::empty());
        m
    }

    /// Number of entries.
    pub fn len(&self) -> (n: usize)
        ensures
            n == self.seq().len(),
    {
        self.entries.len()
    }

    /// The entry at position `i`.
    pub fn entry(&self, i: usize) -> (e: (usize, &Mas))
        requires
            i < self.seq().len(),
        ensures
            e.0 == self.seq()[i as int].0,
            e.1@ == self.seq()[i as int].1,
    {
        (self.entries[i].0, &self.entries[i].1)
    }

    /// Position of the first entry whose rank is at least `k`.
    fn locate(&self, k: usize) -> (p: usize)
        requires
            self.wf(),
        ensures
            p <= self.seq().len(),
            forall|i: int| 0 <= i < p ==> (#[trigger] self.seq()[i]).0 < k,
            forall|i: int| p <= i < self.seq().len() ==> (#[trigger] self.seq()[i]).0 >= k,
    {
        let mut p: usize = 0;
        while p < self.entries.len() && self.entries[p].0 < k
            invariant
                self.wf(),
                p <= self.seq().len(),
                forall|i: int| 0 <= i < p ==> (#[trigger] self.seq()[i]).0 < k,
            decreases self.seq().len() - p,
        {
            p = p + 1;
        }
        proof {
            assert forall|i: int| p <= i < self.seq().len() implies (
            #[trigger] self.seq()[i]).0 >= k by {
                if i > p {
                    assert(self.seq()[p as int].0 < self.seq()[i].0);
                }
            }
        }
        p
    }

    /// The line under rank `k`, if any.
    pub fn get(&self, k: usize) -> (r: Option<&Mas>)
        requires
            self.wf(),
        ensures
            match r {
                Some(m) => self@.contains_key(k) && m@ == self@[k],
                None => !self@.contains_key(k),
            },
    {
        let p = self.locate(k);
        if p < self.entries.len() && self.entries[p].0 == k {
            proof {
                self.lemma_entry_in_view(p as int);
                assert(self.seq()[p as int].1 == self.entries@[p as int].1@);
            }
            Some(&self.entries[p].1)
        } else {
            proof {
                if self.has(k) {
                    let i = self.pos(k);
                    if i > p {
                        assert(self.seq()[p as int].0 < self.seq()[i].0);
                    }
                    assert(self.seq()[p as int].0 == self.entries@[p as int].0);
                }
            }
            None
        }
    }

    /// Whether rank `k` has a line.
    pub fn contains(&self, k: usize) -> (b: bool)
        requires
            self.wf(),
        ensures
            b == self@.contains_key(k),
    {
        self.get(k).is_some()
    }

    /// The map of a well-formed table is the map `m` that holds exactly its entries.
    proof fn lemma_view_is(self, m: Map<usize, MasView>)
        requires
            self.wf(),
            forall|i: int|
                0 <= i < self.seq().len() ==> m.contains_key((#[trigger] self.seq()[i]).0) && m[self.seq()[i].0]
                    == self.seq()[i].1,
            forall|x: usize| #[trigger] m.contains_key(x) ==> self.has(x),
        ensures
            self@ == m,
    {
        assert forall|x: usize| #[trigger] self@.contains_key(x) implies m.contains_key(x) && self@[x]
            == m[x] by {
            let i = self.pos(x);
            assert(m.contains_key(self.seq()[i].0));
        }
        assert(self@ =~= m);
    }

    /// Puts `m` under rank `k`, replacing any line there.
    pub fn insert(&mut self, k: usize, m: Mas)
        requires
            old(self).wf(),
        ensures
            final(self).wf(),
            final(self)@ == old(self)@.insert(k, m@),
    {
        let ghost mv = m@;
        let ghost target = old(self)@.insert(k, mv);
        let p = self.locate(k);
        let ghost s0 = self.seq();
        proof {
            assert forall|i: int| 0 <= i < s0.len() implies #[trigger] old(self)@.contains_key(s0[i].0)
                && old(self)@[s0[i].0] == s0[i].1 by {
                old(self).lemma_entry_in_view(i);
            }
        }
        if p < self.entries.len() && self.entries[p].0 == k {
            self.entries.set(p, (k, m));
            proof {
                let s1 = self.seq();
                assert(s1 =~= s0.update(p as int, (k, mv)));
                assert forall|i: int| 0 <= i < s1.len() implies target.contains_key(
                    (#[trigger] s1[i]).0,
                ) && target[s1[i].0] == s1[i].1 by {
                    if i != p {
                        assert(s1[i] == s0[i]);
                        if i < p {
                            assert(s0[i].0 < s0[p as int].0);
                        } else {
                            assert(s0[p as int].0 < s0[i].0);
                        }
                    }
                }
                assert forall|x: usize| #[trigger] target.contains_key(x) implies self.has(x) by {
                    if x == k {
                        assert(s1[p as int].0 == k);
                    } else {
                        let j = old(self).pos(x);
                        assert(s1[j] == s0[j]);
                    }
                }
                self.lemma_view_is(target);
            }
        } else {
            self.entries.insert(p, (k, m));
            proof {
                let s1 = self.seq();
                assert(s1 =~= s0.insert(p as int, (k, mv)));
                assert forall|i: int, j: int| 0 <= i < j < s1.len() implies (#[trigger] s1[i]).0 < (
                #[trigger] s1[j]).0 by {
                    if j < p {
                        assert(s1[i] == s0[i] && s1[j] == s0[j]);
                    } else if j == p {
                        assert(s1[i] == s0[i]);
                    } else if i < p {
                        assert(s1[i] == s0[i] && s1[j] == s0[j - 1]);
                        assert(s0[j - 1].0 >= k);
                    } else if i == p {
                        assert(s1[j] == s0[j - 1]);
                        assert(s0[j - 1].0 >= k);
                        if j - 1 > p {
                            assert(s0[p as int].0 < s0[j - 1].0);
                        }
                    } else {
                        assert(s1[i] == s0[i - 1] && s1[j] == s0[j - 1]);
                    }
                }
                assert forall|i: int| 0 <= i < s1.len() implies target.contains_key(
                    (#[trigger] s1[i]).0,
                ) && target[s1[i].0] == s1[i].1 by {
                    if i < p {
                        assert(s1[i] == s0[i]);
                    } else if i > p {
                        assert(s1[i] == s0[i - 1]);
                        assert(s0[i - 1].0 >= k);
                        if i - 1 > p {
                            assert(s0[p as int].0 < s0[i - 1].0);
                        }
                    }
                }
                assert forall|x: usize| #[trigger] target.contains_key(x) implies self.has(x) by {
                    if x == k {
                        assert(s1[p as int].0 == k);
                    } else {
                        let j = old(self).pos(x);
                        if j < p {
                            assert(s1[j] == s0[j]);
                        } else {
                            assert(s1[j + 1] == s0[j]);
                        }
                    }
                }
                self.lemma_view_is(target);
            }
        }
    }
}

impl View for RankMap {
    type V = Map<usize, MasView>;

    closed spec fn view(&self) -> Map<usize, MasView> {
        Map::new(|k: usize| self.has(k), |k: usize| self.seq()[self.pos(k)].1)
    }
}

} // verus!
