//! Events flowing between the network and its sections.

use vstd::prelude::*;
use crate::node::Node;
use crate::prefix::Prefix;

verus! {

/// Events the network sends to a section. Sections handle them and report
/// section events back.
#[derive(Clone, Copy, PartialEq, Eq, Structural, Debug)]
pub enum NetworkEvent {
    /// A node joins. The flag says whether the event counts for ageing;
    /// it is false only for the joins generated during a merge.
    Live(Node, bool),
    /// The node with this name dropped out of the network.
    Lost(u64),
    /// A node leaves silently during a merge; membership moves, no drop.
    Gone(Node),
    /// A node leaves because it is being relocated elsewhere.
    Relocated(Node),
    /// The section adopts a new prefix; clears any merge in progress.
    PrefixChange(Prefix),
    /// The section starts merging towards the target prefix.
    StartMerge(Prefix),
}

impl NetworkEvent {
    /// Whether the event counts towards churn when ageing a section.
    pub open spec fn spec_should_count(self) -> bool {
        match self {
            NetworkEvent::StartMerge(_) => false,
            NetworkEvent::Gone(_) => false,
            NetworkEvent::Live(_, counts) => counts,
            _ => true,
        }
    }

    /// Whether the event counts towards churn when ageing a section.
    /// False exactly for `StartMerge`, `Gone` and non-counting `Live`.
    pub fn should_count(&self) -> (r: bool)
        ensures
            r == self.spec_should_count(),
    {
        match *self {
            NetworkEvent::StartMerge(_) => false,
            NetworkEvent::Gone(_) => false,
            NetworkEvent::Live(_, counts) => counts,
            _ => true,
        }
    }
}

/// Events a section reports to the network in response to network events.
#[derive(Clone, Copy, PartialEq, Eq, Structural, Debug)]
pub enum SectionEvent {
    /// The node left the network and may rejoin later.
    NodeDropped(Node),
    /// The node was refused entry.
    NodeRejected(Node),
    /// The node is due for relocation to a neighbour section.
    NeedRelocate(Node),
    /// The section shrank below the group size and asks to merge.
    RequestMerge,
    /// The section grew past the threshold and asks to split.
    RequestSplit,
}

} // verus!
