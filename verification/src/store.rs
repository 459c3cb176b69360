//! Small verified containers keyed by question number: an association map
//! and a set, both with `Map`/`Set` views that the session contracts use.
use vstd::prelude::*;

verus! {

/// An association map from question numbers to values, with unique keys.
pub struct QMap<V> {
    pairs: Vec<(u32, V)>,
}

/// Folds an association list into a map, later entries winning.
pub open spec fn map_of_pairs<V>(s: Seq<(u32, V)>) -> Map<u32, V>
    decreases s.len(),
{
    if s.len() == 0 {
        Map::empty()
    } else {
        map_of_pairs(s.drop_last()).insert(s.last().0, s.last().1)
    }
}

proof fn lemma_map_of_pairs_contains<V>(s: Seq<(u32, V)>, k: u32)
    ensures
        map_of_pairs(s).contains_key(k) <==> exists|i: int| 0 <= i < s.len() && s[i].0 == k,
    decreases s.len(),
{
    if s.len() > 0 {
        lemma_map_of_pairs_contains(s.drop_last(), k);
        if map_of_pairs(s).contains_key(k) {
            if s.last().0 != k {
                let i = choose|i: int| 0 <= i < s.drop_last().len() && s.drop_last()[i].0 == k;
                assert(s[i].0 == k);
            } else {
                assert(s[s.len() - 1].0 == k);
            }
        } else {
            assert(forall|i: int| 0 <= i < s.len() - 1 ==> s.drop_last()[i] == s[i]);
        }
    }
}

proof fn lemma_map_of_pairs_at<V>(s: Seq<(u32, V)>, i: int)
    requires
        0 <= i < s.len(),
        forall|a: int, b: int| 0 <= a < b < s.len() ==> s[a].0 != s[b].0,
    ensures
        map_of_pairs(s).contains_key(s[i].0),
        map_of_pairs(s)[s[i].0] == s[i].1,
    decreases s.len(),
{
    lemma_map_of_pairs_contains(s, s[i].0);
    if i < s.len() - 1 {
        assert(s.last().0 != s[i].0);
        assert(forall|j: int| 0 <= j < s.len() - 1 ==> s.drop_last()[j] == s[j]);
        lemma_map_of_pairs_at(s.drop_last(), i);
    }
}

impl<V> QMap<V> {
    /// Keys are pairwise distinct.
    pub closed spec fn wf(&self) -> bool {
        forall|a: int, b: int|
            0 <= a < b < self.pairs@.len() ==> self.pairs@[a].0 != self.pairs@[b].0
    }

    pub closed spec fn view(&self) -> Map<u32, V> {
        map_of_pairs(self.pairs@)
    }

    pub fn new() -> (r: Self)
        ensures
            r@ == Map::<u32, V>::empty(),
            r.wf(),
    {
        QMap { pairs: Vec::new() }
    }

    pub fn contains_key(&self, k: u32) -> (r: bool)
        requires
            self.wf(),
        ensures
            r == self@.contains_key(k),
    {
        self.get(k).is_some()
    }

    #[verifier::loop_isolation(false)]
    pub fn get(&self, k: u32) -> (r: Option<&V>)
        requires
            self.wf(),
        ensures
            match r {
                Some(v) => self@.contains_key(k) && *v == self@[k],
                None => !self@.contains_key(k),
            },
    {
        proof {
            lemma_map_of_pairs_contains(self.pairs@, k);
        }
        let n = self.pairs.len();
        let mut i: usize = 0;
        while i < n
            invariant
                0 <= i <= n,
                n == self.pairs@.len(),
                forall|j: int| 0 <= j < i ==> self.pairs@[j].0 != k,
            decreases n - i,
        {
            if self.pairs[i].0 == k {
                proof {
                    lemma_map_of_pairs_at(self.pairs@, i as int);
                }
                return Some(&self.pairs[i].1);
            }
            i += 1;
        }
        None
    }

    /// Removes the entry for `k`, if any.
    #[verifier::loop_isolation(false)]
    pub fn remove(&mut self, k: u32)
        requires
            old(self).wf(),
        ensures
            final(self)@ == old(self)@.remove(k),
            final(self).wf(),
    {
        let ghost s0 = self.pairs@;
        let n = self.pairs.len();
        let mut i: usize = 0;
        while i < n
            invariant
                0 <= i <= n,
                n == self.pairs@.len(),
                self.pairs@ == s0,
                forall|j: int| 0 <= j < i ==> self.pairs@[j].0 != k,
            decreases n - i,
        {
            if self.pairs[i].0 == k {
                self.pairs.remove(i);
                proof {
                    lemma_map_of_pairs_remove(s0, i as int);
                }
                return ;
            }
            i += 1;
        }
        proof {
            lemma_map_of_pairs_contains(s0, k);
            assert(map_of_pairs(s0).remove(k) =~= map_of_pairs(s0));
        }
    }

    /// Inserts or replaces the entry for `k`.
    pub fn insert(&mut self, k: u32, v: V)
        requires
            old(self).wf(),
        ensures
            final(self)@ == old(self)@.insert(k, v),
            final(self).wf(),
    {
        self.remove(k);
        proof {
            lemma_map_of_pairs_contains(self.pairs@, k);
        }
        let ghost s1 = self.pairs@;
        self.pairs.push((k, v));
        proof {
            assert(self.pairs@.drop_last() =~= s1);
            assert(map_of_pairs(self.pairs@) == map_of_pairs(s1).insert(k, v));
            assert(old(self)@.remove(k).insert(k, v) =~= old(self)@.insert(k, v));
            assert forall|a: int, b: int|
                0 <= a < b < self.pairs@.len() implies self.pairs@[a].0 != self.pairs@[b].0 by {
                if b < self.pairs@.len() - 1 {
                    assert(self.pairs@[a] == s1[a] && self.pairs@[b] == s1[b]);
                } else {
                    assert(self.pairs@[a] == s1[a]);
                    assert(!map_of_pairs(s1).contains_key(k));
                    lemma_map_of_pairs_contains(s1, k);
                }
            }
        }
    }
}

proof fn lemma_map_of_pairs_remove<V>(s: Seq<(u32, V)>, i: int)
    requires
        0 <= i < s.len(),
        forall|a: int, b: int| 0 <= a < b < s.len() ==> s[a].0 != s[b].0,
    ensures
        map_of_pairs(s.remove(i)) == map_of_pairs(s).remove(s[i].0),
        forall|a: int, b: int|
            0 <= a < b < s.remove(i).len() ==> s.remove(i)[a].0 != s.remove(i)[b].0,
    decreases s.len(),
{
    let k = s[i].0;
    let r = s.remove(i);
    assert(forall|a: int| 0 <= a < i ==> r[a] == s[a]);
    assert(forall|a: int| i <= a < r.len() ==> r[a] == s[a + 1]);
    if i == s.len() - 1 {
        assert(r =~= s.drop_last());
        lemma_map_of_pairs_contains(s.drop_last(), k);
        assert(!map_of_pairs(s.drop_last()).contains_key(k)) by {
            assert(forall|j: int| 0 <= j < s.len() - 1 ==> s.drop_last()[j] == s[j]);
        }
        assert(map_of_pairs(s) == map_of_pairs(s.drop_last()).insert(k, s[i].1));
        assert(map_of_pairs(s).remove(k) =~= map_of_pairs(s.drop_last()));
    } else {
        assert(r.drop_last() =~= s.drop_last().remove(i));
        assert(forall|j: int| 0 <= j < s.len() - 1 ==> s.drop_last()[j] == s[j]);
        lemma_map_of_pairs_remove(s.drop_last(), i);
        assert(r.last() == s.last());
        assert(map_of_pairs(r) == map_of_pairs(s.drop_last()).remove(k).insert(
            s.last().0,
            s.last().1,
        ));
        assert(s.last().0 != k);
        assert(map_of_pairs(s.drop_last()).remove(k).insert(s.last().0, s.last().1)
            =~= map_of_pairs(s.drop_last()).insert(s.last().0, s.last().1).remove(k));
    }
}

/// A set of question numbers.
pub struct NumSet {
    elems: Vec<u32>,
}

impl NumSet {
    /// Elements are pairwise distinct.
    pub closed spec fn wf(&self) -> bool {
        forall|a: int, b: int|
            0 <= a < b < self.elems@.len() ==> self.elems@[a] != self.elems@[b]
    }

    pub closed spec fn view(&self) -> Set<u32> {
        Set::new(|x: u32| self.elems@.contains(x))
    }

    pub fn new() -> (r: Self)
        ensures
            r@ == Set::<u32>::empty(),
            r.wf(),
    {
        let r = NumSet { elems: Vec::new() };
        proof {
            assert(r@ =~= Set::<u32>::empty());
        }
        r
    }

    #[verifier::loop_isolation(false)]
    pub fn contains(&self, k: u32) -> (r: bool)
        ensures
            r == self@.contains(k),
    {
        let n = self.elems.len();
        let mut i: usize = 0;
        while i < n
            invariant
                0 <= i <= n,
                n == self.elems@.len(),
                forall|j: int| 0 <= j < i ==> self.elems@[j] != k,
            decreases n - i,
        {
            if self.elems[i] == k {
                return true;
            }
            i += 1;
        }
        assert(!self.elems@.contains(k));
        false
    }

    /// Adds `k` to the set.
    pub fn insert(&mut self, k: u32)
        requires
            old(self).wf(),
        ensures
            final(self)@ == old(self)@.insert(k),
            final(self).wf(),
    {
        if !self.contains(k) {
            let ghost s0 = self.elems@;
            self.elems.push(k);
            proof {
                assert forall|a: int, b: int|
                    0 <= a < b < self.elems@.len() implies self.elems@[a] != self.elems@[b] by {
                    if b < self.elems@.len() - 1 {
                        assert(self.elems@[a] == s0[a] && self.elems@[b] == s0[b]);
                    } else {
                        assert(self.elems@[a] == s0[a]);
                        assert(!s0.contains(k));
                    }
                }
                assert forall|x: u32| #[trigger] self.elems@.contains(x) <==> (s0.contains(x) || x
                    == k) by {
                    if self.elems@.contains(x) {
                        let j = choose|j: int|
                            0 <= j < self.elems@.len() && self.elems@[j] == x;
                        if j < s0.len() {
                            assert(s0[j] == x);
                        }
                    }
                    if s0.contains(x) {
                        let j = choose|j: int| 0 <= j < s0.len() && s0[j] == x;
                        assert(self.elems@[j] == x);
                    }
                    if x == k {
                        assert(self.elems@[self.elems@.len() - 1] == x);
                    }
                }
                assert(self@ =~= old(self)@.insert(k));
            }
        } else {
            proof {
                assert(self@ =~= old(self)@.insert(k));
            }
        }
    }

    /// Removes `k` from the set.
    #[verifier::loop_isolation(false)]
    pub fn remove(&mut self, k: u32)
        requires
            old(self).wf(),
        ensures
            final(self)@ == old(self)@.remove(k),
            final(self).wf(),
    {
        let ghost s0 = self.elems@;
        let n = self.elems.len();
        let mut i: usize = 0;
        while i < n
            invariant
                0 <= i <= n,
                n == self.elems@.len(),
                self.elems@ == s0,
                forall|j: int| 0 <= j < i ==> self.elems@[j] != k,
            decreases n - i,
        {
            if self.elems[i] == k {
                self.elems.remove(i);
                proof {
                    let r = self.elems@;
                    assert(forall|a: int| 0 <= a < i ==> r[a] == s0[a]);
                    assert(forall|a: int| i <= a < r.len() ==> r[a] == s0[a + 1]);
                    assert forall|x: u32| #[trigger] r.contains(x) <==> (s0.contains(x) && x != k)
                        by {
                        if r.contains(x) {
                            let j = choose|j: int| 0 <= j < r.len() && r[j] == x;
                            if j < i {
                                assert(s0[j] == x);
                            } else {
                                assert(s0[j + 1] == x);
                            }
                        }
                        if s0.contains(x) && x != k {
                            let j = choose|j: int| 0 <= j < s0.len() && s0[j] == x;
                            if j < i {
                                assert(r[j] == x);
                            } else {
                                assert(s0[i as int] == k);
                                assert(j != i);
                                assert(r[j - 1] == x);
                            }
                        }
                    }
                    assert(self@ =~= old(self)@.remove(k));
                }
                return ;
            }
            i += 1;
        }
        proof {
            assert(!s0.contains(k));
            assert(self@ =~= old(self)@.remove(k));
        }
    }
}

} // verus!
