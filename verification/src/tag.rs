use vstd::prelude::*;

verus! {

/// Issues integer identifiers from a monotone counter and recycles
/// released identifiers in last-in-first-out order.
pub struct Tagger {
    /// The next never-issued identifier; starts at 0 and only grows.
    pub n: i32,
    /// Released identifiers awaiting reissue; the last entry is reissued first.
    pub available_ids: Vec<i32>,
}

impl Tagger {
    /// The recycle list holds only values below the counter, each at most once.
    pub open spec fn wf(self) -> bool {
        &&& 0 <= self.n
        &&& forall|i: int|
            0 <= i < self.available_ids@.len() ==> 0 <= #[trigger] self.available_ids@[i] < self.n
        &&& forall|i: int, j: int|
            0 <= i < j < self.available_ids@.len() ==> self.available_ids@[i]
                != self.available_ids@[j]
    }

    /// Identifiers issued and not yet released: everything below the counter
    /// that is not waiting on the recycle list. Being a set, the live
    /// identifiers are pairwise distinct by construction.
    pub open spec fn live_ids(self) -> Set<i32> {
        Set::new(|id: i32| 0 <= id < self.n && !self.available_ids@.contains(id))
    }

    /// A fresh identifier can be issued without the counter overflowing.
    pub open spec fn can_issue(self) -> bool {
        self.available_ids@.len() > 0 || self.n < i32::MAX
    }

    pub fn new() -> (t: Tagger)
        ensures
            t.wf(),
            t.n == 0,
            t.available_ids@ == Seq::<i32>::empty(),
            t.live_ids() == Set::<i32>::empty(),
    {
        let t = Tagger { n: 0, available_ids: Vec::new() };
        proof {
            assert(t.available_ids@ =~= Seq::<i32>::empty());
            assert(t.live_ids() =~= Set::<i32>::empty());
        }
        t
    }

    /// Issues an identifier that is not currently live: the most recently
    /// released one if any is available, else the counter value.
    pub fn new_tag(&mut self) -> (id: i32)
        requires
            old(self).wf(),
            old(self).can_issue(),
        ensures
            final(self).wf(),
            0 <= id,
            !old(self).live_ids().contains(id),
            final(self).live_ids() == old(self).live_ids().insert(id),
            old(self).available_ids@.len() > 0 ==> {
                &&& id == old(self).available_ids@.last()
                &&& final(self).available_ids@ == old(self).available_ids@.drop_last()
                &&& final(self).n == old(self).n
            },
            old(self).available_ids@.len() == 0 ==> {
                &&& id == old(self).n
                &&& final(self).n == old(self).n + 1
                &&& final(self).available_ids@ == old(self).available_ids@
            },
    {
        let ans = self.available_ids.pop();
        match ans {
            Some(id) => {
                proof {
                    let oa = old(self).available_ids@;
                    let na = self.available_ids@;
                    assert(na == oa.drop_last() && id == oa.last());
                    assert(oa.contains(id)) by {
                        assert(oa[oa.len() - 1] == id);
                    }
                    assert(!na.contains(id)) by {
                        if na.contains(id) {
                            let k = choose|k: int| 0 <= k < na.len() && na[k] == id;
                            assert(oa[k] == oa[oa.len() - 1]);
                        }
                    }
                    assert forall|x: i32| #[trigger] self.live_ids().contains(x) implies old(
                        self,
                    ).live_ids().insert(id).contains(x) by {
                        if x != id {
                            if oa.contains(x) {
                                let k = choose|k: int| 0 <= k < oa.len() && oa[k] == x;
                                assert(k < oa.len() - 1);
                                assert(na[k] == x);
                            }
                        }
                    }
                    assert forall|x: i32| old(self).live_ids().insert(id).contains(
                        x,
                    ) implies #[trigger] self.live_ids().contains(x) by {
                        if na.contains(x) {
                            let k = choose|k: int| 0 <= k < na.len() && na[k] == x;
                            assert(oa[k] == x);
                        }
                    }
                    assert(self.live_ids() =~= old(self).live_ids().insert(id));
                }
                id
            },
            None => {
                let id = self.n;
                self.n = self.n + 1;
                proof {
                    assert(self.live_ids() =~= old(self).live_ids().insert(id));
                }
                id
            },
        }
    }

    /// Returns a live identifier to the recycle list. The caller guarantees
    /// that `idx` is live: releasing an identifier twice is ruled out here,
    /// since it would let the allocator reissue one identifier to two holders.
    pub fn remove_tag(&mut self, idx: i32)
        requires
            old(self).wf(),
            old(self).live_ids().contains(idx),
        ensures
            final(self).wf(),
            final(self).n == old(self).n,
            final(self).available_ids@ == old(self).available_ids@.push(idx),
            final(self).live_ids() == old(self).live_ids().remove(idx),
    {
        proof {
            assert(!old(self).available_ids@.contains(idx));
        }
        self.available_ids.push(idx);
        proof {
            let oa = old(self).available_ids@;
            let na = self.available_ids@;
            assert forall|i: int, j: int|
                0 <= i < j < na.len() implies na[i] != na[j] by {
                if j < na.len() - 1 {
                    assert(oa[i] != oa[j]);
                } else {
                    assert(na[j] == idx);
                    assert(na[i] == oa[i]);
                    if oa[i] == idx {
                        assert(oa.contains(idx));
                    }
                }
            }
            assert forall|x: i32| #[trigger] self.live_ids().contains(x) implies old(
                self,
            ).live_ids().remove(idx).contains(x) by {
                if oa.contains(x) {
                    let k = choose|k: int| 0 <= k < oa.len() && oa[k] == x;
                    assert(na[k] == x);
                }
                assert(na[na.len() - 1] == idx);
            }
            assert forall|x: i32| old(self).live_ids().remove(idx).contains(
                x,
            ) implies #[trigger] self.live_ids().contains(x) by {
                if na.contains(x) {
                    let k = choose|k: int| 0 <= k < na.len() && na[k] == x;
                    if k < na.len() - 1 {
                        assert(oa[k] == x);
                    }
                }
            }
            assert(self.live_ids() =~= old(self).live_ids().remove(idx));
        }
    }
}

} // verus!
