use vstd::prelude::*;

use crate::edge::Edge;
use crate::idmap::lemma_update_view;
use crate::idmap::IdMap;
use crate::node::Node;
use crate::tag::Tagger;

verus! {

/// The graph store: all nodes and edges, plus one identifier allocator per
/// namespace. Every mutation keeps the incident-edge lists synchronized with
/// the edge map, so deleting a node cascades over exactly its incident edges.
pub struct Board {
    pub nodes: IdMap<Node>,
    pub node_tagger: Tagger,
    pub edges: IdMap<Edge>,
    pub edge_tagger: Tagger,
}

impl Board {
    /// Node identifiers in the map are exactly the live ones of the node
    /// allocator.
    pub open spec fn nodes_ok(self) -> bool {
        &&& self.nodes.wf()
        &&& self.node_tagger.wf()
        &&& self.nodes@.dom() == self.node_tagger.live_ids()
    }

    /// Edge identifiers in the map are exactly the live ones of the edge
    /// allocator.
    pub open spec fn edges_ok(self) -> bool {
        &&& self.edges.wf()
        &&& self.edge_tagger.wf()
        &&& self.edges@.dom() == self.edge_tagger.live_ids()
    }

    /// No edge connects a node to itself.
    pub open spec fn no_self_loops(self) -> bool {
        forall|e: i32| #[trigger]
            self.edges@.dom().contains(e) ==> self.edges@[e].from != self.edges@[e].to
    }

    /// Every node's incident-edge list is duplicate-free.
    pub open spec fn lists_no_dups(self) -> bool {
        forall|n: i32| #[trigger] self.nodes@.dom().contains(n) ==> self.nodes@[n].edges_no_dups()
    }

    /// A node's list holds an edge identifier exactly when that edge is live
    /// and touches the node.
    pub open spec fn incidence_ok(self) -> bool {
        forall|n: i32, e: i32|
            #![trigger self.nodes@[n].edges@.contains(e)]
            #![trigger self.nodes@.dom().contains(n), self.edges@.dom().contains(e)]
            self.nodes@.dom().contains(n) ==> (self.nodes@[n].edges@.contains(e)
                <==> (self.edges@.dom().contains(e) && self.edges@[e].incident_to(n)))
    }

    /// Both endpoints of every live edge are live nodes. This is the one part
    /// of well-formedness that is suspended while a node removal cascades
    /// over the removed node's incident edges.
    pub open spec fn endpoints_live(self) -> bool {
        forall|e: i32| #[trigger]
            self.edges@.dom().contains(e) ==> self.nodes@.dom().contains(self.edges@[e].from)
                && self.nodes@.dom().contains(self.edges@[e].to)
    }

    /// Referential integrity, except endpoint liveness.
    pub open spec fn core_wf(self) -> bool {
        &&& self.nodes_ok()
        &&& self.edges_ok()
        &&& self.no_self_loops()
        &&& self.lists_no_dups()
        &&& self.incidence_ok()
    }

    pub open spec fn wf(self) -> bool {
        self.core_wf() && self.endpoints_live()
    }

    pub fn new() -> (b: Board)
        ensures
            b.wf(),
            b.nodes@ == Map::<i32, Node>::empty(),
            b.edges@ == Map::<i32, Edge>::empty(),
            b.node_tagger.n == 0,
            b.node_tagger.available_ids@.len() == 0,
            b.edge_tagger.n == 0,
            b.edge_tagger.available_ids@.len() == 0,
    {
        let b = Board {
            nodes: IdMap::new(),
            node_tagger: Tagger::new(),
            edges: IdMap::new(),
            edge_tagger: Tagger::new(),
        };
        proof {
            assert(b.nodes@.dom() =~= b.node_tagger.live_ids());
            assert(b.edges@.dom() =~= b.edge_tagger.live_ids());
        }
        b
    }

    /// Inserts a fresh empty node under a newly issued identifier.
    pub fn add_node(&mut self) -> (id: i32)
        requires
            old(self).wf(),
            old(self).node_tagger.can_issue(),
        ensures
            final(self).wf(),
            0 <= id,
            !old(self).nodes@.dom().contains(id),
            final(self).nodes@.dom() == old(self).nodes@.dom().insert(id),
            final(self).nodes@[id].name@ == Seq::<char>::empty(),
            final(self).nodes@[id].notes@ == Seq::<char>::empty(),
            final(self).nodes@[id].edges@ == Seq::<i32>::empty(),
            forall|k: i32|
                k != id && old(self).nodes@.dom().contains(k) ==> final(self).nodes@[k] == old(self).nodes@[k],
            final(self).edges == old(self).edges,
            final(self).edge_tagger == old(self).edge_tagger,
            final(self).node_tagger.live_ids() == old(self).node_tagger.live_ids().insert(id),
            old(self).node_tagger.available_ids@.len() > 0 ==> {
                &&& id == old(self).node_tagger.available_ids@.last()
                &&& final(self).node_tagger.available_ids@ == old(
                    self,
                ).node_tagger.available_ids@.drop_last()
                &&& final(self).node_tagger.n == old(self).node_tagger.n
            },
            old(self).node_tagger.available_ids@.len() == 0 ==> {
                &&& id == old(self).node_tagger.n
                &&& final(self).node_tagger.available_ids@ == old(self).node_tagger.available_ids@
                &&& final(self).node_tagger.n == old(self).node_tagger.n + 1
            },
    {
        let idx = self.node_tagger.new_tag();
        proof {
            assert(old(self).nodes@.dom() == old(self).node_tagger.live_ids());
            assert(!old(self).nodes@.dom().contains(idx));
            assert(!old(self).nodes.has_key(idx));
        }
        self.nodes.insert(idx, Node::new());
        proof {
            assert(self.nodes@.dom() =~= self.node_tagger.live_ids());
            assert forall|n: i32, e: i32|
                #![trigger self.nodes@[n].edges@.contains(e)]
                #![trigger self.nodes@.dom().contains(n), self.edges@.dom().contains(e)]
                self.nodes@.dom().contains(n) implies (self.nodes@[n].edges@.contains(e) <==> (
            self.edges@.dom().contains(e) && self.edges@[e].incident_to(n))) by {
                if n == idx {
                    assert(self.nodes@[n].edges@.len() == 0);
                    if self.edges@.dom().contains(e) && self.edges@[e].incident_to(n) {
                        assert(old(self).nodes@.dom().contains(old(self).edges@[e].from));
                        assert(old(self).nodes@.dom().contains(old(self).edges@[e].to));
                    }
                } else {
                    assert(self.nodes@[n] == old(self).nodes@[n]);
                    assert(old(self).nodes@.dom().contains(n));
                }
            }
        }
        idx
    }

    /// Inserts an edge between two distinct live nodes and records it in both
    /// endpoints' incident-edge lists; rejects a self-loop or a dead endpoint
    /// with `None`, leaving the store unchanged.
    pub fn add_edge(&mut self, from: i32, to: i32) -> (r: Option<i32>)
        requires
            old(self).wf(),
            old(self).edge_tagger.can_issue(),
        ensures
            final(self).wf(),
            (from == to || !old(self).nodes@.dom().contains(from) || !old(self).nodes@.dom().contains(to)) ==> (r is None && *final(self) == *old(self)),
            (from != to && old(self).nodes@.dom().contains(from) && old(self).nodes@.dom().contains(
                to,
            )) ==> (r matches Some(eid) && {
                &&& !old(self).edges@.dom().contains(eid)
                &&& 0 <= eid
                &&& final(self).edges@.dom() == old(self).edges@.dom().insert(eid)
                &&& final(self).edges@[eid].from == from
                &&& final(self).edges@[eid].to == to
                &&& final(self).edges@[eid].name@ == Seq::<char>::empty()
                &&& final(self).edges@[eid].notes@ == Seq::<char>::empty()
                &&& forall|k: i32|
                    k != eid && old(self).edges@.dom().contains(k) ==> final(self).edges@[k] == old(self).edges@[k]
                &&& final(self).nodes@.dom() == old(self).nodes@.dom()
                &&& final(self).nodes@[from].edges@ == old(self).nodes@[from].edges@.push(eid)
                &&& final(self).nodes@[to].edges@ == old(self).nodes@[to].edges@.push(eid)
                &&& final(self).nodes@[from].name == old(self).nodes@[from].name
                &&& final(self).nodes@[from].notes == old(self).nodes@[from].notes
                &&& final(self).nodes@[to].name == old(self).nodes@[to].name
                &&& final(self).nodes@[to].notes == old(self).nodes@[to].notes
                &&& forall|k: i32|
                    k != from && k != to && old(self).nodes@.dom().contains(k) ==> final(self).nodes@[k] == old(self).nodes@[k]
                &&& final(self).node_tagger == old(self).node_tagger
                &&& final(self).edge_tagger.live_ids() == old(self).edge_tagger.live_ids().insert(
                    eid,
                )
                &&& old(self).edge_tagger.available_ids@.len() > 0 ==> {
                    &&& eid == old(self).edge_tagger.available_ids@.last()
                    &&& final(self).edge_tagger.available_ids@ == old(
                        self,
                    ).edge_tagger.available_ids@.drop_last()
                    &&& final(self).edge_tagger.n == old(self).edge_tagger.n
                }
                &&& old(self).edge_tagger.available_ids@.len() == 0 ==> {
                    &&& eid == old(self).edge_tagger.n
                    &&& final(self).edge_tagger.available_ids@ == old(
                        self,
                    ).edge_tagger.available_ids@
                    &&& final(self).edge_tagger.n == old(self).edge_tagger.n + 1
                }
            }),
    {
        if from == to {
            return None;
        }
        if !self.nodes.contains_key(&from) {
            proof {
                assert(!old(self).nodes@.dom().contains(from));
            }
            return None;
        }
        if !self.nodes.contains_key(&to) {
            proof {
                assert(!old(self).nodes@.dom().contains(to));
            }
            return None;
        }
        proof {
            assert(old(self).nodes@.dom().contains(from));
            assert(old(self).nodes@.dom().contains(to));
        }
        let idx = self.edge_tagger.new_tag();
        proof {
            assert(!old(self).edges@.dom().contains(idx));
            assert(!old(self).edges.has_key(idx));
        }
        self.edges.insert(idx, Edge::new(from, to));
        let ghost b1 = *self;
        proof {
            self.nodes.lemma_key(from);
        }
        let ghost fi = self.nodes.index_of_key(from);
        let nf = self.nodes.get_mut(&from);
        nf.edges.push(idx);
        let ghost b2 = *self;
        proof {
            assert(b2.nodes.entries@ == b1.nodes.entries@.update(fi, (from, b2.nodes.entries@[fi].1)));
            lemma_update_view(b1.nodes, b2.nodes, fi);
            assert(b2.nodes@ == b1.nodes@.insert(from, b2.nodes.entries@[fi].1));
            assert(b2.nodes@[from].edges@ == b1.nodes@[from].edges@.push(idx));
            assert(b2.nodes@.dom() =~= b1.nodes@.dom());
            self.nodes.lemma_key(to);
        }
        let ghost ti = self.nodes.index_of_key(to);
        let nt = self.nodes.get_mut(&to);
        nt.edges.push(idx);
        let ghost b3 = *self;
        proof {
            assert(b3.nodes.entries@ == b2.nodes.entries@.update(ti, (to, b3.nodes.entries@[ti].1)));
            lemma_update_view(b2.nodes, b3.nodes, ti);
            assert(b3.nodes@ == b2.nodes@.insert(to, b3.nodes.entries@[ti].1));
            assert(b3.nodes@[to].edges@ == b2.nodes@[to].edges@.push(idx));
            assert(b3.nodes@.dom() =~= b2.nodes@.dom());
            assert(self.nodes@.dom() =~= old(self).nodes@.dom());
            assert(self.edges@.dom() =~= self.edge_tagger.live_ids());

            // the fresh edge was on no list before
            assert forall|n: i32| old(self).nodes@.dom().contains(n) implies !old(self).nodes@[n].edges@.contains(idx) by {
                if old(self).nodes@[n].edges@.contains(idx) {
                    assert(old(self).edges@.dom().contains(idx));
                }
            }

            assert forall|n: i32| #[trigger]
                self.nodes@.dom().contains(n) implies self.nodes@[n].edges_no_dups() by {
                assert(old(self).nodes@.dom().contains(n));
                if n == from || n == to {
                    let oe = old(self).nodes@[n].edges@;
                    let ne = self.nodes@[n].edges@;
                    assert(ne == oe.push(idx));
                    assert forall|a: int, b: int| 0 <= a < b < ne.len() implies ne[a] != ne[b] by {
                        if b < ne.len() - 1 {
                            assert(oe[a] != oe[b]);
                        } else {
                            assert(ne[b] == idx);
                            if oe[a] == idx {
                                assert(oe.contains(idx));
                            }
                        }
                    }
                } else {
                    assert(self.nodes@[n] == old(self).nodes@[n]);
                }
            }

            assert forall|n: i32, e: i32|
                #![trigger self.nodes@[n].edges@.contains(e)]
                #![trigger self.nodes@.dom().contains(n), self.edges@.dom().contains(e)]
                self.nodes@.dom().contains(n) implies (self.nodes@[n].edges@.contains(e) <==> (
            self.edges@.dom().contains(e) && self.edges@[e].incident_to(n))) by {
                assert(old(self).nodes@.dom().contains(n));
                if n == from || n == to {
                    let oe = old(self).nodes@[n].edges@;
                    let ne = self.nodes@[n].edges@;
                    assert(ne == oe.push(idx));
                    assert(ne[ne.len() - 1] == idx);
                    if e == idx {
                        assert(ne.contains(idx));
                    } else {
                        assert(ne.contains(e) <==> oe.contains(e)) by {
                            if ne.contains(e) {
                                let a = choose|a: int| 0 <= a < ne.len() && ne[a] == e;
                                assert(a < ne.len() - 1);
                                assert(oe[a] == e);
                            }
                            if oe.contains(e) {
                                let a = choose|a: int| 0 <= a < oe.len() && oe[a] == e;
                                assert(ne[a] == e);
                            }
                        }
                        assert(self.edges@[e] == old(self).edges@[e]) by {
                            if self.edges@.dom().contains(e) {
                                assert(old(self).edges@.dom().contains(e));
                            }
                        }
                    }
                } else {
                    assert(self.nodes@[n] == old(self).nodes@[n]);
                    if e == idx {
                        assert(!old(self).nodes@[n].edges@.contains(idx));
                        assert(!self.edges@[idx].incident_to(n));
                    }
                }
            }

            assert forall|e: i32| #[trigger]
                self.edges@.dom().contains(e) implies self.nodes@.dom().contains(
                self.edges@[e].from,
            ) && self.nodes@.dom().contains(self.edges@[e].to) && self.edges@[e].from
                != self.edges@[e].to by {
                if e != idx {
                    assert(old(self).edges@.dom().contains(e));
                    assert(self.edges@[e] == old(self).edges@[e]);
                }
            }
        }
        Some(idx)
    }

    /// Clears `eid` from the incident-edge list of `nid`, if that node is
    /// still present; a missing node is left for the caller's cascade.
    fn scrub_edge_from(&mut self, nid: i32, eid: i32)
        requires
            old(self).nodes.wf(),
            old(self).lists_no_dups(),
        ensures
            final(self).nodes.wf(),
            final(self).lists_no_dups(),
            final(self).nodes@.dom() == old(self).nodes@.dom(),
            final(self).edges == old(self).edges,
            final(self).node_tagger == old(self).node_tagger,
            final(self).edge_tagger == old(self).edge_tagger,
            !old(self).nodes@.dom().contains(nid) ==> *final(self) == *old(self),
            old(self).nodes@.dom().contains(nid) ==> {
                &&& final(self).nodes@[nid].name == old(self).nodes@[nid].name
                &&& final(self).nodes@[nid].notes == old(self).nodes@[nid].notes
                &&& forall|e2: i32|
                    #[trigger] final(self).nodes@[nid].edges@.contains(e2) <==> (old(
                        self,
                    ).nodes@[nid].edges@.contains(e2) && e2 != eid)
                &&& forall|k: i32|
                    k != nid && old(self).nodes@.dom().contains(k) ==> final(self).nodes@[k] == old(
                        self,
                    ).nodes@[k]
            },
    {
        if self.nodes.contains_key(&nid) {
            proof {
                self.nodes.lemma_key(nid);
            }
            let ghost m1 = self.nodes;
            let ghost i1 = self.nodes.index_of_key(nid);
            let n = self.nodes.get_mut(&nid);
            n.drop_edge(eid);
            proof {
                lemma_update_view(m1, self.nodes, i1);
                assert(self.nodes@ == m1@.insert(nid, self.nodes.entries@[i1].1));
                assert(self.nodes@.dom() =~= old(self).nodes@.dom());
                assert forall|k: i32| #[trigger]
                    self.nodes@.dom().contains(k) implies self.nodes@[k].edges_no_dups() by {
                    if k != nid {
                        assert(self.nodes@[k] == old(self).nodes@[k]);
                    }
                }
            }
        }
    }

    /// Removes a live edge: deletes it from the edge map, releases its
    /// identifier, and clears it from the incident lists of whichever of its
    /// endpoints are still present. Shared by `remove_edge` and the cascade
    /// in `remove_node`, which runs it while the removed node is already gone.
    fn remove_edge_at(&mut self, idx: &i32) -> (e: Edge)
        requires
            old(self).core_wf(),
            old(self).edges@.dom().contains(*idx),
        ensures
            final(self).core_wf(),
            e == old(self).edges@[*idx],
            final(self).edges@ == old(self).edges@.remove(*idx),
            final(self).nodes@.dom() == old(self).nodes@.dom(),
            forall|k: i32| #[trigger]
                final(self).nodes@.dom().contains(k) ==> {
                    &&& final(self).nodes@[k].name == old(self).nodes@[k].name
                    &&& final(self).nodes@[k].notes == old(self).nodes@[k].notes
                    &&& forall|e2: i32|
                        #[trigger] final(self).nodes@[k].edges@.contains(e2) <==> (old(
                            self,
                        ).nodes@[k].edges@.contains(e2) && e2 != *idx)
                },
            final(self).node_tagger == old(self).node_tagger,
            final(self).edge_tagger.n == old(self).edge_tagger.n,
            final(self).edge_tagger.available_ids@ == old(self).edge_tagger.available_ids@.push(
                *idx,
            ),
            old(self).endpoints_live() ==> final(self).endpoints_live(),
    {
        let e = self.edges.remove(idx).unwrap();
        self.edge_tagger.remove_tag(*idx);
        let ghost b1 = *self;
        self.scrub_edge_from(e.to, *idx);
        let ghost b2 = *self;
        self.scrub_edge_from(e.from, *idx);
        proof {
            let b0 = *old(self);
            assert(e == b0.edges@[*idx]);
            assert(e.from != e.to);
            assert(self.edges@.dom() =~= self.edge_tagger.live_ids());

            // each surviving node's list: the old one minus the removed edge
            assert forall|k: i32| #[trigger] self.nodes@.dom().contains(k) implies {
                &&& self.nodes@[k].name == b0.nodes@[k].name
                &&& self.nodes@[k].notes == b0.nodes@[k].notes
                &&& forall|e2: i32|
                    #[trigger] self.nodes@[k].edges@.contains(e2) <==> (b0.nodes@[k].edges@.contains(
                        e2,
                    ) && e2 != *idx)
            } by {
                assert(b0.nodes@.dom().contains(k));
                if k == e.to {
                    assert forall|e2: i32| #[trigger]
                        self.nodes@[k].edges@.contains(e2) <==> (b0.nodes@[k].edges@.contains(e2)
                            && e2 != *idx) by {
                        assert(b2.nodes@[k] == self.nodes@[k]);
                        assert(b1.nodes@[k] == b0.nodes@[k]);
                    }
                } else if k == e.from {
                    assert(b2.nodes@[k] == b1.nodes@[k] && b1.nodes@[k] == b0.nodes@[k]);
                } else {
                    assert(self.nodes@[k] == b0.nodes@[k]);
                    assert(!b0.nodes@[k].edges@.contains(*idx)) by {
                        if b0.nodes@[k].edges@.contains(*idx) {
                            assert(b0.edges@[*idx].incident_to(k));
                        }
                    }
                }
            }

            assert forall|n: i32, e2: i32|
                #![trigger self.nodes@[n].edges@.contains(e2)]
                #![trigger self.nodes@.dom().contains(n), self.edges@.dom().contains(e2)]
                self.nodes@.dom().contains(n) implies (self.nodes@[n].edges@.contains(e2) <==> (
            self.edges@.dom().contains(e2) && self.edges@[e2].incident_to(n))) by {
                assert(b0.nodes@.dom().contains(n));
                assert(self.nodes@[n].edges@.contains(e2) <==> (b0.nodes@[n].edges@.contains(e2)
                    && e2 != *idx));
                if e2 != *idx && self.edges@.dom().contains(e2) {
                    assert(self.edges@[e2] == b0.edges@[e2]);
                }
            }

            assert forall|e2: i32| #[trigger]
                self.edges@.dom().contains(e2) implies self.edges@[e2].from
                != self.edges@[e2].to by {
                assert(self.edges@[e2] == b0.edges@[e2]);
            }

            if b0.endpoints_live() {
                assert forall|e2: i32| #[trigger]
                    self.edges@.dom().contains(e2) implies self.nodes@.dom().contains(
                    self.edges@[e2].from,
                ) && self.nodes@.dom().contains(self.edges@[e2].to) by {
                    assert(self.edges@[e2] == b0.edges@[e2]);
                    assert(b0.edges@.dom().contains(e2));
                }
            }
        }
        e
    }

    /// Removes the edge under `idx`, releasing its identifier and clearing
    /// it from both endpoints' incident lists; `None` when no such edge is
    /// live, with the store left unchanged.
    pub fn remove_edge(&mut self, idx: &i32) -> (r: Option<Edge>)
        requires
            old(self).wf(),
        ensures
            final(self).wf(),
            !old(self).edges@.dom().contains(*idx) ==> (r is None && *final(self) == *old(self)),
            old(self).edges@.dom().contains(*idx) ==> (r matches Some(e) && {
                &&& e == old(self).edges@[*idx]
                &&& final(self).edges@ == old(self).edges@.remove(*idx)
                &&& final(self).nodes@.dom() == old(self).nodes@.dom()
                &&& forall|k: i32| #[trigger]
                    final(self).nodes@.dom().contains(k) ==> {
                        &&& final(self).nodes@[k].name == old(self).nodes@[k].name
                        &&& final(self).nodes@[k].notes == old(self).nodes@[k].notes
                        &&& forall|e2: i32|
                            #[trigger] final(self).nodes@[k].edges@.contains(e2) <==> (old(
                                self,
                            ).nodes@[k].edges@.contains(e2) && e2 != *idx)
                    }
                &&& final(self).node_tagger == old(self).node_tagger
                &&& final(self).edge_tagger.n == old(self).edge_tagger.n
                &&& final(self).edge_tagger.available_ids@ == old(
                    self,
                ).edge_tagger.available_ids@.push(*idx)
            }),
    {
        if !self.edges.contains_key(idx) {
            proof {
                assert(!old(self).edges@.dom().contains(*idx));
            }
            return None;
        }
        let e = self.remove_edge_at(idx);
        Some(e)
    }

    /// Removes the node under `idx`, releases its identifier, and cascades
    /// over every edge that was incident to it, clearing each from the other
    /// endpoint's list; `None` when no such node is live, with the store left
    /// unchanged. The returned node still carries its incident-edge list as
    /// captured before the cascade.
    #[verifier::loop_isolation(false)]
    pub fn remove_node(&mut self, idx: &i32) -> (r: Option<Node>)
        requires
            old(self).wf(),
        ensures
            final(self).wf(),
            !old(self).nodes@.dom().contains(*idx) ==> (r is None && *final(self) == *old(self)),
            old(self).nodes@.dom().contains(*idx) ==> (r matches Some(node) && {
                &&& node == old(self).nodes@[*idx]
                &&& final(self).nodes@.dom() == old(self).nodes@.dom().remove(*idx)
                &&& forall|k: i32| #[trigger]
                    final(self).nodes@.dom().contains(k) ==> final(self).nodes@[k].name == old(
                        self,
                    ).nodes@[k].name && final(self).nodes@[k].notes == old(self).nodes@[k].notes
                &&& forall|e2: i32|
                    #[trigger] final(self).edges@.dom().contains(e2) <==> (old(
                        self,
                    ).edges@.dom().contains(e2) && !old(self).edges@[e2].incident_to(*idx))
                &&& forall|e2: i32|
                    #[trigger] final(self).edges@.dom().contains(e2) ==> final(self).edges@[e2]
                        == old(self).edges@[e2]
                &&& final(self).node_tagger.live_ids() == old(self).node_tagger.live_ids().remove(
                    *idx,
                )
                &&& final(self).node_tagger.available_ids@ == old(
                    self,
                ).node_tagger.available_ids@.push(*idx)
                &&& final(self).node_tagger.n == old(self).node_tagger.n
            }),
    {
        let p = self.nodes.remove(idx);
        match p {
            None => {
                proof {
                    assert(!old(self).nodes@.dom().contains(*idx)) by {
                        if old(self).nodes@.dom().contains(*idx) {
                            old(self).nodes.lemma_key(*idx);
                        }
                    }
                }
                None
            },
            Some(node) => {
                let ghost b0 = *old(self);
                proof {
                    assert(b0.nodes@.dom().contains(*idx));
                    assert(b0.nodes@.dom() == b0.node_tagger.live_ids());
                }
                self.node_tagger.remove_tag(*idx);
                proof {
                    assert(self.nodes@.dom() =~= self.node_tagger.live_ids());
                    assert(node.edges_no_dups());
                    // every listed edge is live and incident to the removed node
                    assert forall|j: int| 0 <= j < node.edges@.len() implies #[trigger] b0.edges@.dom().contains(
                        node.edges@[j],
                    ) && b0.edges@[node.edges@[j]].incident_to(*idx) by {
                        assert(b0.nodes@[*idx].edges@.contains(node.edges@[j]));
                    }
                    assert forall|e2: i32| #[trigger]
                        b0.edges@.dom().contains(e2) && b0.edges@[e2].incident_to(*idx)
                        implies node.edges@.contains(e2) by {
                        assert(b0.nodes@[*idx].edges@.contains(e2));
                    }
                }
                let mut i: usize = 0;
                while i < node.edges.len()
                    invariant
                        0 <= i <= node.edges@.len(),
                        self.core_wf(),
                        node == b0.nodes@[*idx],
                        self.nodes@.dom() == b0.nodes@.dom().remove(*idx),
                        forall|k: i32| #[trigger]
                            self.nodes@.dom().contains(k) ==> self.nodes@[k].name
                                == b0.nodes@[k].name && self.nodes@[k].notes == b0.nodes@[k].notes,
                        forall|e2: i32| #[trigger]
                            self.edges@.dom().contains(e2) <==> (b0.edges@.dom().contains(e2)
                                && !node.edges@.take(i as int).contains(e2)),
                        forall|e2: i32| #[trigger]
                            self.edges@.dom().contains(e2) ==> self.edges@[e2] == b0.edges@[e2],
                        self.node_tagger.live_ids() == b0.node_tagger.live_ids().remove(*idx),
                        self.node_tagger.available_ids@ == b0.node_tagger.available_ids@.push(
                            *idx,
                        ),
                        self.node_tagger.n == b0.node_tagger.n,
                        self.edge_tagger.n == b0.edge_tagger.n,
                        self.edge_tagger.available_ids@ == b0.edge_tagger.available_ids@
                            + node.edges@.take(i as int),
                    decreases node.edges@.len() - i,
                {
                    let eid = node.edges[i];
                    proof {
                        assert(b0.nodes@[*idx].edges@.contains(eid));
                        assert(!node.edges@.take(i as int).contains(eid)) by {
                            if node.edges@.take(i as int).contains(eid) {
                                let a = choose|a: int|
                                    0 <= a < i && node.edges@.take(i as int)[a] == eid;
                                assert(node.edges@[a] == node.edges@[i as int]);
                            }
                        }
                        assert(self.edges@.dom().contains(eid));
                    }
                    let ghost bpre = *self;
                    self.remove_edge_at(&eid);
                    proof {
                        assert(self.edge_tagger.available_ids@ =~= b0.edge_tagger.available_ids@
                            + node.edges@.take(i as int + 1)) by {
                            assert(node.edges@.take(i as int + 1) =~= node.edges@.take(
                                i as int,
                            ).push(eid));
                        }
                        assert forall|e2: i32| #[trigger]
                            self.edges@.dom().contains(e2) <==> (b0.edges@.dom().contains(e2)
                                && !node.edges@.take(i as int + 1).contains(e2)) by {
                            assert(node.edges@.take(i as int + 1) == node.edges@.take(
                                i as int,
                            ).push(eid));
                            let tk = node.edges@.take(i as int);
                            let tk1 = node.edges@.take(i as int + 1);
                            assert forall|x: i32| #[trigger]
                                tk1.contains(x) <==> (tk.contains(x) || x == eid) by {
                                if tk1.contains(x) {
                                    let a = choose|a: int| 0 <= a < tk1.len() && tk1[a] == x;
                                    if a < tk.len() {
                                        assert(tk[a] == x);
                                    }
                                }
                                if tk.contains(x) {
                                    let a = choose|a: int| 0 <= a < tk.len() && tk[a] == x;
                                    assert(tk1[a] == x);
                                }
                                assert(tk1[tk1.len() - 1] == eid);
                            }
                            assert(self.edges@.dom() =~= bpre.edges@.dom().remove(eid));
                        }
                    }
                    i = i + 1;
                }
                proof {
                    assert(node.edges@.take(node.edges@.len() as int) == node.edges@);
                    // no surviving edge touches the removed node
                    assert forall|e2: i32| #[trigger]
                        self.edges@.dom().contains(e2) implies (b0.edges@.dom().contains(e2)
                        && !b0.edges@[e2].incident_to(*idx)) by {
                        if b0.edges@[e2].incident_to(*idx) {
                            assert(node.edges@.contains(e2));
                        }
                    }
                    assert forall|e2: i32|
                        b0.edges@.dom().contains(e2) && !b0.edges@[e2].incident_to(
                            *idx,
                        ) implies #[trigger] self.edges@.dom().contains(e2) by {
                        if node.edges@.contains(e2) {
                            assert(b0.edges@[e2].incident_to(*idx));
                        }
                    }
                    // endpoint liveness is restored once the cascade is done
                    assert forall|e2: i32| #[trigger]
                        self.edges@.dom().contains(e2) implies self.nodes@.dom().contains(
                        self.edges@[e2].from,
                    ) && self.nodes@.dom().contains(self.edges@[e2].to) by {
                        assert(self.edges@[e2] == b0.edges@[e2]);
                        assert(b0.edges@.dom().contains(e2));
                        assert(!b0.edges@[e2].incident_to(*idx));
                        assert(b0.nodes@.dom().contains(b0.edges@[e2].from));
                        assert(b0.nodes@.dom().contains(b0.edges@[e2].to));
                    }
                }
                Some(node)
            },
        }
    }

    /// Every live edge connects two distinct live nodes and is listed in
    /// both endpoints' incident-edge lists.
    pub proof fn lemma_edge_listed(self, e: i32)
        requires
            self.wf(),
            self.edges@.dom().contains(e),
        ensures
            self.nodes@.dom().contains(self.edges@[e].from),
            self.nodes@.dom().contains(self.edges@[e].to),
            self.nodes@[self.edges@[e].from].edges@.contains(e),
            self.nodes@[self.edges@[e].to].edges@.contains(e),
            self.edges@[e].from != self.edges@[e].to,
    {
        let f = self.edges@[e].from;
        let t = self.edges@[e].to;
        assert(self.edges@[e].incident_to(f));
        assert(self.edges@[e].incident_to(t));
        assert(self.nodes@[f].edges@.contains(e));
        assert(self.nodes@[t].edges@.contains(e));
    }

    /// The identifiers of all live nodes, in storage order.
    pub fn node_ids(&self) -> (ids: Vec<i32>)
        ensures
            ids@.len() == self.nodes.entries@.len(),
            forall|j: int| 0 <= j < ids@.len() ==> ids@[j] == self.nodes.entries@[j].0,
            self.nodes.wf() ==> forall|k: i32|
                #[trigger] ids@.contains(k) <==> self.nodes@.dom().contains(k),
    {
        let mut ids: Vec<i32> = Vec::new();
        let mut i: usize = 0;
        while i < self.nodes.entries.len()
            invariant
                0 <= i <= self.nodes.entries@.len(),
                ids@.len() == i,
                forall|j: int| 0 <= j < i ==> ids@[j] == self.nodes.entries@[j].0,
            decreases self.nodes.entries@.len() - i,
        {
            ids.push(self.nodes.entries[i].0);
            i = i + 1;
        }
        proof {
            if self.nodes.wf() {
                assert forall|k: i32| #[trigger]
                    ids@.contains(k) <==> self.nodes@.dom().contains(k) by {
                    if ids@.contains(k) {
                        let j = choose|j: int| 0 <= j < ids@.len() && ids@[j] == k;
                        self.nodes.lemma_at(j);
                    }
                    if self.nodes@.dom().contains(k) {
                        self.nodes.lemma_key(k);
                        assert(ids@[self.nodes.index_of_key(k)] == k);
                    }
                }
            }
        }
        ids
    }

    /// Overwrites the name of the node under `idx`; `false` and no change
    /// when no such node is live.
    pub fn set_node_name(&mut self, idx: &i32, name: String) -> (ok: bool)
        requires
            old(self).wf(),
        ensures
            final(self).wf(),
            ok == old(self).nodes@.dom().contains(*idx),
            !ok ==> *final(self) == *old(self),
            ok ==> {
                &&& final(self).nodes@.dom() == old(self).nodes@.dom()
                &&& final(self).nodes@[*idx].name == name
                &&& final(self).nodes@[*idx].notes == old(self).nodes@[*idx].notes
                &&& final(self).nodes@[*idx].edges@ == old(self).nodes@[*idx].edges@
                &&& forall|k: i32|
                    k != *idx && old(self).nodes@.dom().contains(k) ==> final(self).nodes@[k]
                        == old(self).nodes@[k]
                &&& final(self).edges == old(self).edges
                &&& final(self).node_tagger == old(self).node_tagger
                &&& final(self).edge_tagger == old(self).edge_tagger
            },
    {
        if !self.nodes.contains_key(idx) {
            return false;
        }
        proof {
            self.nodes.lemma_key(*idx);
        }
        let ghost m1 = self.nodes;
        let ghost i1 = self.nodes.index_of_key(*idx);
        let n = self.nodes.get_mut(idx);
        n.name = name;
        proof {
            lemma_update_view(m1, self.nodes, i1);
            lemma_node_content_update(*old(self), *self, *idx);
        }
        true
    }

    /// Overwrites the notes of the node under `idx`; `false` and no change
    /// when no such node is live.
    pub fn set_node_notes(&mut self, idx: &i32, notes: String) -> (ok: bool)
        requires
            old(self).wf(),
        ensures
            final(self).wf(),
            ok == old(self).nodes@.dom().contains(*idx),
            !ok ==> *final(self) == *old(self),
            ok ==> {
                &&& final(self).nodes@.dom() == old(self).nodes@.dom()
                &&& final(self).nodes@[*idx].notes == notes
                &&& final(self).nodes@[*idx].name == old(self).nodes@[*idx].name
                &&& final(self).nodes@[*idx].edges@ == old(self).nodes@[*idx].edges@
                &&& forall|k: i32|
                    k != *idx && old(self).nodes@.dom().contains(k) ==> final(self).nodes@[k]
                        == old(self).nodes@[k]
                &&& final(self).edges == old(self).edges
                &&& final(self).node_tagger == old(self).node_tagger
                &&& final(self).edge_tagger == old(self).edge_tagger
            },
    {
        if !self.nodes.contains_key(idx) {
            return false;
        }
        proof {
            self.nodes.lemma_key(*idx);
        }
        let ghost m1 = self.nodes;
        let ghost i1 = self.nodes.index_of_key(*idx);
        let n = self.nodes.get_mut(idx);
        n.notes = notes;
        proof {
            lemma_update_view(m1, self.nodes, i1);
            lemma_node_content_update(*old(self), *self, *idx);
        }
        true
    }

    /// Overwrites the name of the edge under `idx`; `false` and no change
    /// when no such edge is live. Endpoints cannot be edited: reconnecting
    /// takes a delete and a re-create.
    pub fn set_edge_name(&mut self, idx: &i32, name: String) -> (ok: bool)
        requires
            old(self).wf(),
        ensures
            final(self).wf(),
            ok == old(self).edges@.dom().contains(*idx),
            !ok ==> *final(self) == *old(self),
            ok ==> {
                &&& final(self).edges@.dom() == old(self).edges@.dom()
                &&& final(self).edges@[*idx].name == name
                &&& final(self).edges@[*idx].notes == old(self).edges@[*idx].notes
                &&& final(self).edges@[*idx].from == old(self).edges@[*idx].from
                &&& final(self).edges@[*idx].to == old(self).edges@[*idx].to
                &&& forall|k: i32|
                    k != *idx && old(self).edges@.dom().contains(k) ==> final(self).edges@[k]
                        == old(self).edges@[k]
                &&& final(self).nodes == old(self).nodes
                &&& final(self).node_tagger == old(self).node_tagger
                &&& final(self).edge_tagger == old(self).edge_tagger
            },
    {
        if !self.edges.contains_key(idx) {
            return false;
        }
        proof {
            self.edges.lemma_key(*idx);
        }
        let ghost m1 = self.edges;
        let ghost i1 = self.edges.index_of_key(*idx);
        let e = self.edges.get_mut(idx);
        e.name = name;
        proof {
            lemma_update_view(m1, self.edges, i1);
            lemma_edge_content_update(*old(self), *self, *idx);
        }
        true
    }

    /// Overwrites the notes of the edge under `idx`; `false` and no change
    /// when no such edge is live.
    pub fn set_edge_notes(&mut self, idx: &i32, notes: String) -> (ok: bool)
        requires
            old(self).wf(),
        ensures
            final(self).wf(),
            ok == old(self).edges@.dom().contains(*idx),
            !ok ==> *final(self) == *old(self),
            ok ==> {
                &&& final(self).edges@.dom() == old(self).edges@.dom()
                &&& final(self).edges@[*idx].notes == notes
                &&& final(self).edges@[*idx].name == old(self).edges@[*idx].name
                &&& final(self).edges@[*idx].from == old(self).edges@[*idx].from
                &&& final(self).edges@[*idx].to == old(self).edges@[*idx].to
                &&& forall|k: i32|
                    k != *idx && old(self).edges@.dom().contains(k) ==> final(self).edges@[k]
                        == old(self).edges@[k]
                &&& final(self).nodes == old(self).nodes
                &&& final(self).node_tagger == old(self).node_tagger
                &&& final(self).edge_tagger == old(self).edge_tagger
            },
    {
        if !self.edges.contains_key(idx) {
            return false;
        }
        proof {
            self.edges.lemma_key(*idx);
        }
        let ghost m1 = self.edges;
        let ghost i1 = self.edges.index_of_key(*idx);
        let e = self.edges.get_mut(idx);
        e.notes = notes;
        proof {
            lemma_update_view(m1, self.edges, i1);
            lemma_edge_content_update(*old(self), *self, *idx);
        }
        true
    }
}

/// Editing one node's name or notes — its incident-edge list kept — leaves
/// the store well-formed.
proof fn lemma_node_content_update(b1: Board, b2: Board, idx: i32)
    requires
        b1.wf(),
        b1.nodes@.dom().contains(idx),
        b2.nodes.wf(),
        b2.nodes@ == b1.nodes@.insert(idx, b2.nodes@[idx]),
        b2.nodes@[idx].edges@ == b1.nodes@[idx].edges@,
        b2.edges == b1.edges,
        b2.node_tagger == b1.node_tagger,
        b2.edge_tagger == b1.edge_tagger,
    ensures
        b2.wf(),
        b2.nodes@.dom() == b1.nodes@.dom(),
{
    assert(b2.nodes@.dom() =~= b1.nodes@.dom());
    assert forall|n: i32| #[trigger] b2.nodes@.dom().contains(n) implies b2.nodes@[n].edges@
        == b1.nodes@[n].edges@ && b1.nodes@.dom().contains(n) by {
        if n != idx {
            assert(b2.nodes@[n] == b1.nodes@[n]);
        }
    }
    assert forall|n: i32| #[trigger] b2.nodes@.dom().contains(n) implies b2.nodes@[
        n
    ].edges_no_dups() by {
        assert(b1.nodes@[n].edges_no_dups());
    }
    assert forall|n: i32, e: i32|
        #![trigger b2.nodes@[n].edges@.contains(e)]
        #![trigger b2.nodes@.dom().contains(n), b2.edges@.dom().contains(e)]
        b2.nodes@.dom().contains(n) implies (b2.nodes@[n].edges@.contains(e) <==> (
    b2.edges@.dom().contains(e) && b2.edges@[e].incident_to(n))) by {
        assert(b1.nodes@[n].edges@.contains(e) <==> (b1.edges@.dom().contains(e)
            && b1.edges@[e].incident_to(n)));
    }
    assert forall|e: i32| #[trigger] b2.edges@.dom().contains(e) implies b2.nodes@.dom().contains(
        b2.edges@[e].from,
    ) && b2.nodes@.dom().contains(b2.edges@[e].to) by {
        assert(b1.edges@.dom().contains(e));
    }
}

/// Editing one edge's name or notes — its endpoints kept — leaves the store
/// well-formed.
proof fn lemma_edge_content_update(b1: Board, b2: Board, idx: i32)
    requires
        b1.wf(),
        b1.edges@.dom().contains(idx),
        b2.edges.wf(),
        b2.edges@ == b1.edges@.insert(idx, b2.edges@[idx]),
        b2.edges@[idx].from == b1.edges@[idx].from,
        b2.edges@[idx].to == b1.edges@[idx].to,
        b2.nodes == b1.nodes,
        b2.node_tagger == b1.node_tagger,
        b2.edge_tagger == b1.edge_tagger,
    ensures
        b2.wf(),
        b2.edges@.dom() == b1.edges@.dom(),
{
    assert(b2.edges@.dom() =~= b1.edges@.dom());
    assert forall|e: i32| #[trigger] b2.edges@.dom().contains(e) implies b2.edges@[e].from
        == b1.edges@[e].from && b2.edges@[e].to == b1.edges@[e].to && b1.edges@.dom().contains(
        e,
    ) by {
        if e != idx {
            assert(b2.edges@[e] == b1.edges@[e]);
        }
    }
    assert forall|e: i32| #[trigger] b2.edges@.dom().contains(e) implies b2.edges@[e].from
        != b2.edges@[e].to && b2.nodes@.dom().contains(b2.edges@[e].from)
        && b2.nodes@.dom().contains(b2.edges@[e].to) by {
        assert(b1.edges@[e].from != b1.edges@[e].to);
    }
    assert forall|n: i32, e: i32|
        #![trigger b2.nodes@[n].edges@.contains(e)]
        #![trigger b2.nodes@.dom().contains(n), b2.edges@.dom().contains(e)]
        b2.nodes@.dom().contains(n) implies (b2.nodes@[n].edges@.contains(e) <==> (
    b2.edges@.dom().contains(e) && b2.edges@[e].incident_to(n))) by {
        assert(b1.nodes@[n].edges@.contains(e) <==> (b1.edges@.dom().contains(e)
            && b1.edges@[e].incident_to(n)));
        if b2.edges@.dom().contains(e) {
            assert(b2.edges@[e].incident_to(n) == b1.edges@[e].incident_to(n));
        }
    }
}

} // verus!
