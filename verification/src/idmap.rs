use vstd::prelude::*;

verus! {

/// A mapping from integer identifiers to values, backed by a vector of
/// entries with pairwise-distinct keys. Its view is the corresponding
/// mathematical `Map`; the entry order is kept stable so that a snapshot of
/// the store reproduces it exactly.
pub struct IdMap<V> {
    pub entries: Vec<(i32, V)>,
}

impl<V> IdMap<V> {
    /// Keys are pairwise distinct.
    pub open spec fn wf(self) -> bool {
        forall|i: int, j: int|
            0 <= i < j < self.entries@.len() ==> self.entries@[i].0 != self.entries@[j].0
    }

    pub open spec fn has_key(self, k: i32) -> bool {
        exists|i: int| 0 <= i < self.entries@.len() && self.entries@[i].0 == k
    }

    pub open spec fn index_of_key(self, k: i32) -> int {
        choose|i: int| 0 <= i < self.entries@.len() && self.entries@[i].0 == k
    }

    /// Each entry is the unique witness for its own key.
    pub proof fn lemma_at(self, i: int)
        requires
            self.wf(),
            0 <= i < self.entries@.len(),
        ensures
            self.has_key(self.entries@[i].0),
            self.index_of_key(self.entries@[i].0) == i,
            self@.dom().contains(self.entries@[i].0),
            self@[self.entries@[i].0] == self.entries@[i].1,
    {
        let k = self.entries@[i].0;
        assert(self.has_key(k));
        let j = self.index_of_key(k);
        assert(0 <= j < self.entries@.len() && self.entries@[j].0 == k);
        if i != j {
            assert(self.entries@[i].0 != self.entries@[j].0);
        }
    }

    pub proof fn lemma_key(self, k: i32)
        requires
            self.has_key(k),
        ensures
            0 <= self.index_of_key(k) < self.entries@.len(),
            self.entries@[self.index_of_key(k)].0 == k,
            self@.dom().contains(k),
    {
    }

    pub fn new() -> (m: Self)
        ensures
            m.wf(),
            m.entries@ == Seq::<(i32, V)>::empty(),
            m@ == Map::<i32, V>::empty(),
    {
        let m = IdMap { entries: Vec::new() };
        proof {
            assert(m.entries@ =~= Seq::<(i32, V)>::empty());
            assert(m@ =~= Map::<i32, V>::empty());
        }
        m
    }

    pub fn len(&self) -> (n: usize)
        ensures
            n == self.entries@.len(),
    {
        self.entries.len()
    }

    #[verifier::loop_isolation(false)]
    pub fn contains_key(&self, k: &i32) -> (b: bool)
        ensures
            b == self.has_key(*k),
    {
        let mut i: usize = 0;
        while i < self.entries.len()
            invariant
                0 <= i <= self.entries@.len(),
                forall|j: int| 0 <= j < i ==> self.entries@[j].0 != *k,
            decreases self.entries@.len() - i,
        {
            if self.entries[i].0 == *k {
                return true;
            }
            i = i + 1;
        }
        false
    }

    #[verifier::loop_isolation(false)]
    pub fn get(&self, k: &i32) -> (r: Option<&V>)
        requires
            self.wf(),
        ensures
            match r {
                Some(v) => self.has_key(*k) && *v == self@[*k],
                None => !self.has_key(*k),
            },
    {
        let mut i: usize = 0;
        while i < self.entries.len()
            invariant
                0 <= i <= self.entries@.len(),
                forall|j: int| 0 <= j < i ==> self.entries@[j].0 != *k,
                self.wf(),
            decreases self.entries@.len() - i,
        {
            if self.entries[i].0 == *k {
                proof {
                    self.lemma_at(i as int);
                }
                return Some(&self.entries[i].1);
            }
            i = i + 1;
        }
        None
    }

    pub fn insert(&mut self, k: i32, v: V)
        requires
            old(self).wf(),
            !old(self).has_key(k),
        ensures
            final(self).wf(),
            final(self).entries@ == old(self).entries@.push((k, v)),
            final(self)@ == old(self)@.insert(k, v),
            final(self).has_key(k),
    {
        self.entries.push((k, v));
        proof {
            let oe = old(self).entries@;
            let ne = self.entries@;
            assert forall|i: int, j: int|
                0 <= i < j < ne.len() implies ne[i].0 != ne[j].0 by {
                if j < ne.len() - 1 {
                    assert(oe[i].0 != oe[j].0);
                } else {
                    if oe[i].0 == k {
                        assert(old(self).has_key(k));
                    }
                }
            }
            self.lemma_at(ne.len() - 1);
            assert forall|x: i32| #[trigger] self@.dom().contains(x) implies old(
                self,
            )@.insert(k, v).dom().contains(x) by {
                if x != k {
                    let i = self.index_of_key(x);
                    assert(oe[i].0 == x);
                    old(self).lemma_at(i);
                }
            }
            assert forall|x: i32|
                old(self)@.insert(k, v).dom().contains(x) implies #[trigger] self@.dom().contains(
                x,
            ) && self@[x] == old(self)@.insert(k, v)[x] by {
                if x == k {
                    assert(self@[k] == v);
                } else {
                    let i = old(self).index_of_key(x);
                    old(self).lemma_key(x);
                    assert(ne[i].0 == x);
                    self.lemma_at(i);
                    old(self).lemma_at(i);
                }
            }
            assert(self@ =~= old(self)@.insert(k, v));
        }
    }

    #[verifier::loop_isolation(false)]
    pub fn remove(&mut self, k: &i32) -> (r: Option<V>)
        requires
            old(self).wf(),
        ensures
            final(self).wf(),
            match r {
                Some(v) => {
                    &&& old(self).has_key(*k)
                    &&& v == old(self)@[*k]
                    &&& final(self).entries@ == old(self).entries@.remove(
                        old(self).index_of_key(*k),
                    )
                    &&& final(self)@ == old(self)@.remove(*k)
                },
                None => {
                    &&& !old(self).has_key(*k)
                    &&& *final(self) == *old(self)
                },
            },
    {
        let ghost om = *self;
        let mut i: usize = 0;
        while i < self.entries.len()
            invariant
                *self == om,
                om.wf(),
                0 <= i <= self.entries@.len(),
                forall|j: int| 0 <= j < i ==> self.entries@[j].0 != *k,
            decreases self.entries@.len() - i,
        {
            if self.entries[i].0 == *k {
                proof {
                    om.lemma_at(i as int);
                }
                let p = self.entries.remove(i);
                proof {
                    let oe = om.entries@;
                    let ne = self.entries@;
                    assert(ne == oe.remove(i as int));
                    assert forall|a: int, b: int|
                        0 <= a < b < ne.len() implies ne[a].0 != ne[b].0 by {
                        let oa: int = if a < i { a } else { a + 1 };
                        let ob: int = if b < i { b } else { b + 1 };
                        assert(ne[a] == oe[oa] && ne[b] == oe[ob]);
                        assert(oe[oa].0 != oe[ob].0);
                    }
                    assert forall|x: i32| #[trigger] self@.dom().contains(x) implies om@.remove(
                        *k,
                    ).dom().contains(x) by {
                        let a = self.index_of_key(x);
                        let oa: int = if a < i { a } else { a + 1 };
                        assert(ne[a] == oe[oa]);
                        om.lemma_at(oa);
                        if x == *k {
                            assert(oa != i && oe[oa].0 == oe[i as int].0);
                        }
                    }
                    assert forall|x: i32|
                        om@.remove(*k).dom().contains(x) implies #[trigger] self@.dom().contains(
                        x,
                    ) && self@[x] == om@.remove(*k)[x] by {
                        let oa = om.index_of_key(x);
                        om.lemma_key(x);
                        assert(oa != i);
                        let a: int = if oa < i { oa } else { oa - 1 };
                        assert(ne[a] == oe[oa]);
                        self.lemma_at(a);
                        om.lemma_at(oa);
                    }
                    assert(self@ =~= om@.remove(*k));
                }
                return Some(p.1);
            }
            i = i + 1;
        }
        None
    }

    /// A mutable borrow of the value stored under a present key. The entry
    /// sequence afterwards is the old one with that entry's value replaced;
    /// `lemma_update_view` lifts this to the map view once the borrow ends.
    #[verifier::loop_isolation(false)]
    pub fn get_mut(&mut self, k: &i32) -> (r: &mut V)
        requires
            old(self).wf(),
            old(self).has_key(*k),
        ensures
            *r == old(self)@[*k],
            final(self).entries@ == old(self).entries@.update(
                old(self).index_of_key(*k),
                (*k, *final(r)),
            ),
    {
        let ghost om = *self;
        let mut i: usize = 0;
        loop
            invariant
                *self == om,
                om.wf(),
                om.has_key(*k),
                0 <= i <= self.entries@.len(),
                forall|j: int| 0 <= j < i ==> self.entries@[j].0 != *k,
            decreases self.entries@.len() - i,
        {
            proof {
                om.lemma_key(*k);
                let ix = om.index_of_key(*k);
                if ix < i {
                    assert(self.entries@[ix].0 != *k);
                }
                assert(i <= ix);
            }
            let n = self.entries.len();
            proof {
                assert(i < n);
            }
            if self.entries[i].0 == *k {
                proof {
                    om.lemma_at(i as int);
                }
                let e = &mut self.entries[i];
                return &mut e.1;
            }
            i = i + 1;
        }
    }
}

/// Replacing the value of the entry at `i` — keeping its key — updates the
/// map view at that key only, and preserves well-formedness.
pub proof fn lemma_update_view<V>(m1: IdMap<V>, m2: IdMap<V>, i: int)
    requires
        m1.wf(),
        0 <= i < m1.entries@.len(),
        m2.entries@ == m1.entries@.update(i, (m1.entries@[i].0, m2.entries@[i].1)),
    ensures
        m2.wf(),
        m2@ == m1@.insert(m1.entries@[i].0, m2.entries@[i].1),
{
    let k = m1.entries@[i].0;
    let v = m2.entries@[i].1;
    assert forall|a: int, b: int|
        0 <= a < b < m2.entries@.len() implies m2.entries@[a].0 != m2.entries@[b].0 by {
        assert(m2.entries@[a].0 == m1.entries@[a].0);
        assert(m2.entries@[b].0 == m1.entries@[b].0);
    }
    m1.lemma_at(i);
    m2.lemma_at(i);
    assert forall|x: i32| #[trigger] m2@.dom().contains(x) implies m1@.insert(
        k,
        v,
    ).dom().contains(x) by {
        let a = m2.index_of_key(x);
        m2.lemma_key(x);
        assert(m2.entries@[a].0 == m1.entries@[a].0);
        m1.lemma_at(a);
    }
    assert forall|x: i32|
        m1@.insert(k, v).dom().contains(x) implies #[trigger] m2@.dom().contains(x) && m2@[x]
        == m1@.insert(k, v)[x] by {
        if x == k {
            assert(m2@[k] == v);
        } else {
            let a = m1.index_of_key(x);
            m1.lemma_key(x);
            assert(a != i);
            assert(m2.entries@[a] == m1.entries@[a]);
            m2.lemma_at(a);
            m1.lemma_at(a);
        }
    }
    assert(m2@ =~= m1@.insert(k, v));
}

impl<V> View for IdMap<V> {
    type V = Map<i32, V>;

    open spec fn view(&self) -> Map<i32, V> {
        Map::new(|k: i32| self.has_key(k), |k: i32| self.entries@[self.index_of_key(k)].1)
    }
}

} // verus!
