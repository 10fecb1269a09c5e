//! Innovation numbering: two counters of ids handed out, one for nodes and
//! one for connections. Ids start at 1 and are never reused.

use vstd::prelude::*;

verus! {

/// The ids handed out so far. One registry numbers every genome that is
/// built with it.
pub struct InnovationRegistry {
    latest_node: i8,
    latest_connection: i8,
}

impl InnovationRegistry {
    /// How many node ids have been handed out; the latest is this one.
    pub closed spec fn nodes_issued(&self) -> int {
        self.latest_node as int
    }

    /// How many connection ids have been handed out; the latest is this one.
    pub closed spec fn connections_issued(&self) -> int {
        self.latest_connection as int
    }

    /// Neither counter is negative.
    pub open spec fn wf(&self) -> bool {
        self.nodes_issued() >= 0 && self.connections_issued() >= 0
    }

    /// A registry that has handed out nothing.
    pub fn new() -> (r: InnovationRegistry)
        ensures
            r.wf(),
            r.nodes_issued() == 0,
            r.connections_issued() == 0,
    {
        InnovationRegistry { latest_node: 0, latest_connection: 0 }
    }

    /// The latest node id, 0 before any.
    pub fn current_node(&self) -> (r: i8)
        ensures
            r == self.nodes_issued(),
    {
        self.latest_node
    }

    /// The latest connection id, 0 before any.
    pub fn current_connection(&self) -> (r: i8)
        ensures
            r == self.connections_issued(),
    {
        self.latest_connection
    }

    /// Hands out the next node id: one above every node id before it.
    pub fn next_node(&mut self) -> (r: i8)
        requires
            old(self).wf(),
            old(self).nodes_issued() < i8::MAX,
        ensures
            final(self).wf(),
            r == old(self).nodes_issued() + 1,
            r > old(self).nodes_issued(),
            final(self).nodes_issued() == r,
            final(self).connections_issued() == old(self).connections_issued(),
    {
        self.latest_node = self.latest_node + 1;
        self.latest_node
    }

    /// Hands out the next connection id: one above every connection id
    /// before it.
    pub fn next_connection(&mut self) -> (r: i8)
        requires
            old(self).wf(),
            old(self).connections_issued() < i8::MAX,
        ensures
            final(self).wf(),
            r == old(self).connections_issued() + 1,
            r > old(self).connections_issued(),
            final(self).connections_issued() == r,
            final(self).nodes_issued() == old(self).nodes_issued(),
    {
        self.latest_connection = self.latest_connection + 1;
        self.latest_connection
    }
}

} // verus!
