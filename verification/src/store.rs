//! An in-memory, content-addressed node store: the backing collaborator
//! that a flushed change set is handed to, and that snapshots are read
//! back from.
use vstd::prelude::*;
use crate::hash::HashValue;
use crate::node::{HMap, Node, n_hash, n_wf};

verus! {

/// A record that a node became superseded at some version, kept so the
/// store can prune it later. The store itself never deletes eagerly.
pub struct StaleNodeIndex {
    pub stale_since_version: u64,
    pub node_key: HashValue,
}

/// An in-memory node store keyed by node hash. Every entry is stored
/// under the hash of its own content.
pub struct MockStateNodeStore {
    pub nodes: HMap<Node>,
    pub stale: Vec<StaleNodeIndex>,
}

impl MockStateNodeStore {
    /// Content addressing: every node sits under its own hash, well-formed.
    pub open spec fn wf(&self) -> bool {
        self.nodes.wf() && forall|x: Seq<u8>|
            #![trigger self.nodes.m().contains_key(x)]
            self.nodes.m().contains_key(x) ==> n_wf(self.nodes.m()[x]) && n_hash(
                self.nodes.m()[x],
            ) == x
    }

    /// The mapping from node hash to node.
    pub open spec fn m(&self) -> Map<Seq<u8>, Node> {
        self.nodes.m()
    }

    /// An empty store.
    pub fn new() -> (r: MockStateNodeStore)
        ensures
            r.wf(),
            r.m() == Map::<Seq<u8>, Node>::empty(),
    {
        MockStateNodeStore { nodes: HMap::new(), stale: Vec::new() }
    }

    /// Reads the node stored under `h`, if any.
    pub fn get(&self, h: &HashValue) -> (r: Option<&Node>)
        requires
            self.wf(),
        ensures
            match r {
                Some(n) => self.m().contains_key(h@) && self.m()[h@] == *n && n_wf(*n) && n_hash(
                    *n,
                ) == h@,
                None => !self.m().contains_key(h@),
            },
    {
        self.nodes.get(h)
    }

    /// Writes one node under its content hash.
    pub fn put_node(&mut self, h: HashValue, n: Node)
        requires
            old(self).wf(),
            h.wf(),
            h@ == n_hash(n),
            n_wf(n),
        ensures
            final(self).wf(),
            final(self).m() == old(self).m().insert(h@, n),
            final(self).stale@ == old(self).stale@,
    {
        self.nodes.insert(h, n);
    }

    /// Records that a node became stale; prunable later, never deleted now.
    pub fn put_stale(&mut self, s: StaleNodeIndex)
        requires
            old(self).wf(),
        ensures
            final(self).wf(),
            final(self).m() == old(self).m(),
            final(self).stale@ == old(self).stale@.push(s),
    {
        self.stale.push(s);
    }
}

} // verus!
