//! What a routing strategy is told: the cluster's shards, and the nodes a read may go to.

use vstd::prelude::*;

use crate::node_address::{NodeAddress, NodeKey};
use crate::node_collections::NodeZones;

verus! {

/// A part of the cluster: ranges of slots and the nodes that hold them.
#[derive(Debug)]
pub struct Shard {
    slot_ranges: Vec<(u16, u16)>,
    primary: NodeAddress,
    replicas: Vec<NodeAddress>,
}

impl Shard {
    /// The ranges of slots, with both their bounds.
    pub closed spec fn ranges(&self) -> Seq<(u16, u16)> {
        self.slot_ranges@
    }

    /// The node that takes writes.
    pub closed spec fn writer(&self) -> NodeAddress {
        self.primary
    }

    /// The nodes that take reads.
    pub closed spec fn readers(&self) -> Seq<NodeAddress> {
        self.replicas@
    }

    /// The shard of `slot_ranges`, with its nodes.
    pub fn new(
        slot_ranges: Vec<(u16, u16)>,
        primary: NodeAddress,
        replicas: Vec<NodeAddress>,
    ) -> (shard: Self)
        ensures
            shard.ranges() == slot_ranges@,
            shard.writer() == primary,
            shard.readers() == replicas@,
    {
        Shard { slot_ranges, primary, replicas }
    }

    /// The ranges of slots, with both their bounds.
    pub fn slot_ranges(&self) -> (ranges: &[(u16, u16)])
        ensures
            ranges@ == self.ranges(),
    {
        self.slot_ranges.as_slice()
    }

    /// The node that takes writes.
    pub fn primary(&self) -> (primary: &NodeAddress)
        ensures
            *primary == self.writer(),
    {
        &self.primary
    }

    /// The nodes that take reads.
    pub fn replicas(&self) -> (replicas: &[NodeAddress])
        ensures
            replicas@ == self.readers(),
    {
        self.replicas.as_slice()
    }
}

/// The shards of a cluster, with the zones of their nodes as far as they are known.
#[derive(Debug)]
pub struct ClusterTopology {
    shards: Vec<Shard>,
    zones: NodeZones,
}

impl ClusterTopology {
    /// Each node has at most one zone.
    pub closed spec fn wf(&self) -> bool {
        self.zones.wf()
    }

    /// The shards.
    pub closed spec fn parts(&self) -> Seq<Shard> {
        self.shards@
    }

    /// The zones of the nodes.
    pub closed spec fn node_zones(&self) -> Map<NodeKey, Seq<char>> {
        self.zones@
    }

    /// The cluster of `shards`, whose nodes have the zones `zones`.
    pub fn from_shards_with_node_availability_zones(
        shards: Vec<Shard>,
        zones: NodeZones,
    ) -> (topology: Self)
        requires
            zones.wf(),
        ensures
            topology.wf(),
            topology.parts() == shards@,
            topology.node_zones() == zones@,
    {
        ClusterTopology { shards, zones }
    }

    /// The shards.
    pub fn shards(&self) -> (shards: &[Shard])
        ensures
            shards@ == self.parts(),
    {
        self.shards.as_slice()
    }

    /// The zone of `node`, if it is known.
    pub fn availability_zone_for_node(&self, node: &NodeAddress) -> (zone: Option<&str>)
        requires
            self.wf(),
        ensures
            zone is Some == self.node_zones().contains_key(node@),
            zone matches Some(zone) ==> zone@ == self.node_zones()[node@],
    {
        match self.zones.get(node) {
            Some(zone) => Some(zone.as_str()),
            None => None,
        }
    }
}

/// The replicas that a read may go to: at least one.
#[derive(Debug)]
pub struct Replicas<'a> {
    nodes: &'a [NodeAddress],
}

impl<'a> View for Replicas<'a> {
    type V = Seq<NodeAddress>;

    closed spec fn view(&self) -> Seq<NodeAddress> {
        self.nodes@
    }
}

impl<'a> Replicas<'a> {
    #[verifier::type_invariant]
    spec fn nonempty(&self) -> bool {
        self.nodes@.len() > 0
    }

    /// `nodes` as replicas, unless there is none of them.
    pub fn new(nodes: &'a [NodeAddress]) -> (replicas: Option<Self>)
        ensures
            replicas is Some == (nodes@.len() > 0),
            replicas matches Some(replicas) ==> replicas@ == nodes@,
    {
        if nodes.len() == 0 {
            None
        } else {
            Some(Replicas { nodes })
        }
    }

    /// How many they are.
    pub fn len(&self) -> (len: usize)
        ensures
            len == self@.len(),
            len > 0,
    {
        proof {
            use_type_invariant(self);
        }
        self.nodes.len()
    }

    /// The replica at `index`.
    pub fn get(&self, index: usize) -> (replica: Option<&'a NodeAddress>)
        ensures
            replica == if index < self@.len() {
                Some(&self@[index as int])
            } else {
                None
            },
    {
        if index < self.nodes.len() {
            Some(&self.nodes[index])
        } else {
            None
        }
    }

    /// The first replica.
    pub fn first(&self) -> (replica: &'a NodeAddress)
        ensures
            self@.len() > 0,
            *replica == self@[0],
    {
        proof {
            use_type_invariant(self);
        }
        &self.nodes[0]
    }
}

/// The nodes for a read that any node of the shard may answer.
#[derive(Debug)]
pub struct AnyNodeCandidates<'a> {
    slot: u16,
    primary: &'a NodeAddress,
    replicas: Replicas<'a>,
}

/// The nodes for a read that only replicas may answer.
#[derive(Debug)]
pub struct ReplicaCandidates<'a> {
    slot: u16,
    replicas: Replicas<'a>,
}

impl<'a> AnyNodeCandidates<'a> {
    /// The replicas.
    pub closed spec fn readers(&self) -> Seq<NodeAddress> {
        self.replicas@
    }

    /// The node that takes writes.
    pub closed spec fn writer(&self) -> NodeAddress {
        *self.primary
    }

    /// The slot that is read.
    pub closed spec fn read_slot(&self) -> u16 {
        self.slot
    }

    /// The node that takes writes.
    pub fn primary(&self) -> (primary: &'a NodeAddress)
        ensures
            *primary == self.writer(),
    {
        self.primary
    }

    /// The replicas.
    pub fn replicas(&self) -> (replicas: &Replicas<'a>)
        ensures
            replicas@ == self.readers(),
    {
        &self.replicas
    }
}

impl<'a> ReplicaCandidates<'a> {
    /// The replicas.
    pub closed spec fn readers(&self) -> Seq<NodeAddress> {
        self.replicas@
    }

    /// The slot that is read.
    pub closed spec fn read_slot(&self) -> u16 {
        self.slot
    }

    /// The replicas.
    pub fn replicas(&self) -> (replicas: &Replicas<'a>)
        ensures
            replicas@ == self.readers(),
    {
        &self.replicas
    }
}

/// The nodes that a read may go to.
#[derive(Debug)]
pub enum ReadCandidates<'a> {
    /// Any node of the shard.
    AnyNode(AnyNodeCandidates<'a>),
    /// The replicas of the shard.
    ReplicasOnly(ReplicaCandidates<'a>),
}

impl<'a> ReadCandidates<'a> {
    /// The replicas.
    pub open spec fn readers(&self) -> Seq<NodeAddress> {
        match self {
            ReadCandidates::AnyNode(nodes) => nodes.readers(),
            ReadCandidates::ReplicasOnly(nodes) => nodes.readers(),
        }
    }

    /// The slot that is read.
    pub open spec fn read_slot(&self) -> u16 {
        match self {
            ReadCandidates::AnyNode(nodes) => nodes.read_slot(),
            ReadCandidates::ReplicasOnly(nodes) => nodes.read_slot(),
        }
    }

    /// Any node of the shard of `slot`.
    pub fn any_node(slot: u16, primary: &'a NodeAddress, replicas: Replicas<'a>) -> (nodes: Self)
        ensures
            nodes matches ReadCandidates::AnyNode(any) && any.writer() == *primary,
            nodes.read_slot() == slot,
            nodes.readers() == replicas@,
    {
        ReadCandidates::AnyNode(AnyNodeCandidates { slot, primary, replicas })
    }

    /// The replicas of the shard of `slot`.
    pub fn replicas_only(slot: u16, replicas: Replicas<'a>) -> (nodes: Self)
        ensures
            nodes is ReplicasOnly,
            nodes.read_slot() == slot,
            nodes.readers() == replicas@,
    {
        ReadCandidates::ReplicasOnly(ReplicaCandidates { slot, replicas })
    }

    /// The slot that is read.
    pub fn slot(&self) -> (slot: u16)
        ensures
            slot == self.read_slot(),
    {
        match self {
            ReadCandidates::AnyNode(nodes) => nodes.slot,
            ReadCandidates::ReplicasOnly(nodes) => nodes.slot,
        }
    }
}

} // verus!
