use vstd::prelude::*;

verus! {

/// Stable identity of a node.
pub type NodeID = String;

/// The versioned fact about one node's liveness.
pub struct HeartBeat {
    pub id: NodeID,
    pub address: String,
    pub generation: u64,
    pub version: u64,
    pub status: String,
    pub timestamp: u64,
}

/// Mathematical model of a `HeartBeat`.
pub ghost struct RecordView {
    pub id: Seq<char>,
    pub address: Seq<char>,
    pub generation: u64,
    pub version: u64,
    pub status: Seq<char>,
    pub timestamp: u64,
}

impl View for HeartBeat {
    type V = RecordView;

    open spec fn view(&self) -> RecordView {
        RecordView {
            id: self.id@,
            address: self.address@,
            generation: self.generation,
            version: self.version,
            status: self.status@,
            timestamp: self.timestamp,
        }
    }
}

/// `(g1, v1) < (g2, v2)`, generation first, then version.
pub open spec fn pair_lt(g1: u64, v1: u64, g2: u64, v2: u64) -> bool {
    g1 < g2 || (g1 == g2 && v1 < v2)
}

/// `a` carries a strictly greater `(generation, version)` pair than `b`.
pub open spec fn is_newer(a: RecordView, b: RecordView) -> bool {
    pair_lt(b.generation, b.version, a.generation, a.version)
}

impl Clone for HeartBeat {
    fn clone(&self) -> (r: HeartBeat)
        ensures
            r@ == self@,
    {
        HeartBeat {
            id: self.id.clone(),
            address: self.address.clone(),
            generation: self.generation,
            version: self.version,
            status: self.status.clone(),
            timestamp: self.timestamp,
        }
    }
}

impl HeartBeat {
    /// Whether this record's `(generation, version)` is strictly greater than `other`'s.
    pub fn is_newer_than(&self, other: &HeartBeat) -> (r: bool)
        ensures
            r == is_newer(self@, other@),
    {
        self.generation > other.generation || (self.generation == other.generation
            && self.version > other.version)
    }
}

} // verus!
