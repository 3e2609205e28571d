use vstd::prelude::*;

verus! {

/// A graph vertex: a display name, free-text notes, and the identifiers of
/// the edges currently incident to it. The store keeps `edges` equal to the
/// set of live edge identifiers whose endpoints include this node.
pub struct Node {
    pub name: String,
    pub notes: String,
    pub edges: Vec<i32>,
}

impl Node {
    /// The incident-edge list mentions each edge identifier at most once.
    pub open spec fn edges_no_dups(self) -> bool {
        forall|i: int, j: int|
            0 <= i < j < self.edges@.len() ==> self.edges@[i] != self.edges@[j]
    }

    pub fn new() -> (n: Node)
        ensures
            n.name@ == Seq::<char>::empty(),
            n.notes@ == Seq::<char>::empty(),
            n.edges@ == Seq::<i32>::empty(),
            n.edges_no_dups(),
    {
        let n = Node { name: String::new(), notes: String::new(), edges: Vec::new() };
        proof {
            assert(n.edges@ =~= Seq::<i32>::empty());
        }
        n
    }

    /// Drops `eid` from the incident-edge list, leaving everything else alone.
    #[verifier::loop_isolation(false)]
    pub fn drop_edge(&mut self, eid: i32)
        requires
            old(self).edges_no_dups(),
        ensures
            final(self).edges_no_dups(),
            final(self).name == old(self).name,
            final(self).notes == old(self).notes,
            forall|e: i32|
                #[trigger] final(self).edges@.contains(e) <==> (old(self).edges@.contains(e) && e
                    != eid),
    {
        let ghost o = *self;
        let mut i: usize = 0;
        while i < self.edges.len()
            invariant
                0 <= i <= self.edges@.len(),
                *self == o,
                forall|j: int| 0 <= j < i ==> self.edges@[j] != eid,
            decreases self.edges@.len() - i,
        {
            if self.edges[i] == eid {
                self.edges.remove(i);
                proof {
                    let oe = o.edges@;
                    let ne = self.edges@;
                    assert(ne == oe.remove(i as int));
                    assert forall|a: int, b: int|
                        0 <= a < b < ne.len() implies ne[a] != ne[b] by {
                        let oa: int = if a < i { a } else { a + 1 };
                        let ob: int = if b < i { b } else { b + 1 };
                        assert(ne[a] == oe[oa] && ne[b] == oe[ob]);
                    }
                    assert forall|e: i32| #[trigger] ne.contains(e) implies (oe.contains(e) && e
                        != eid) by {
                        let a = choose|a: int| 0 <= a < ne.len() && ne[a] == e;
                        let oa: int = if a < i { a } else { a + 1 };
                        assert(oe[oa] == e);
                        if e == eid {
                            assert(oa != i && oe[i as int] == eid);
                        }
                    }
                    assert forall|e: i32| oe.contains(e) && e != eid implies #[trigger] ne.contains(
                        e,
                    ) by {
                        let oa = choose|a: int| 0 <= a < oe.len() && oe[a] == e;
                        assert(oa != i);
                        let a: int = if oa < i { oa } else { oa - 1 };
                        assert(ne[a] == oe[oa]);
                    }
                }
                return ;
            }
            i = i + 1;
        }
        proof {
            assert(!o.edges@.contains(eid));
        }
    }
}

} // verus!
