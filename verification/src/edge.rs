use vstd::prelude::*;

verus! {

/// A connection record between two node identifiers, with a display name and
/// free-text notes. The endpoints are fixed at creation: editing an edge
/// reaches its name and notes only.
pub struct Edge {
    pub name: String,
    pub notes: String,
    pub from: i32,
    pub to: i32,
}

impl Edge {
    /// Whether this edge touches the node identified by `nid`.
    pub open spec fn incident_to(self, nid: i32) -> bool {
        self.from == nid || self.to == nid
    }

    pub fn new(from: i32, to: i32) -> (e: Edge)
        ensures
            e.from == from,
            e.to == to,
            e.name@ == Seq::<char>::empty(),
            e.notes@ == Seq::<char>::empty(),
    {
        Edge { name: String::new(), notes: String::new(), from, to }
    }
}

} // verus!
