//! Reads that stay in the caller's availability zone.

use arcstr::ArcStr;
use std::sync::Arc;
use vstd::prelude::*;

use crate::arc_str::{arc_from, arc_text};
use crate::node_address::{NodeAddress, NodeKey};
use crate::node_collections::{keys_of, lemma_keys_of_take, NodeSet};
use crate::read_routing::{ClusterTopology, ReadCandidates, Replicas, Shard};
use crate::slot_range_map::{lookup, with_ranges, SlotRangeMap};
use crate::text::same_text;
use crate::zone_discovery::NodeAvailabilityZoneDiscoveryState;

verus! {

/// Whether the node `key` is known to be in `zone`.
pub open spec fn in_zone(zones: Map<NodeKey, Seq<char>>, zone: Seq<char>, key: NodeKey) -> bool {
    zones.contains_key(key) && zones[key] == zone
}

/// The addresses of those of `nodes` that are in `zone`.
pub open spec fn local_keys(
    nodes: Seq<NodeAddress>,
    zones: Map<NodeKey, Seq<char>>,
    zone: Seq<char>,
) -> Set<NodeKey> {
    Set::new(
        |key: NodeKey|
            in_zone(zones, zone, key) && exists|i: int|
                0 <= i < nodes.len() && (#[trigger] nodes[i])@ == key,
    )
}

/// Those of `nodes` whose address is in `keys`.
pub open spec fn nodes_in(nodes: Seq<NodeAddress>, keys: Set<NodeKey>) -> Seq<NodeAddress> {
    nodes.filter(|node: NodeAddress| keys.contains(node@))
}

/// The replicas that the reads of a shard with the local replicas `local` go to: the local
/// ones, or all of them where none is local.
pub open spec fn routing_pool(replicas: Seq<NodeAddress>, local: Set<NodeKey>) -> Seq<NodeAddress> {
    if nodes_in(replicas, local).len() > 0 {
        nodes_in(replicas, local)
    } else {
        replicas
    }
}

/// Whose turn the read number `count` is, in a pool of `len` replicas.
pub open spec fn turn(count: nat, len: nat) -> nat {
    count % len
}

/// The replica for the read number `count`: the pool takes turns.
pub open spec fn replica_in_turn(
    replicas: Seq<NodeAddress>,
    local: Set<NodeKey>,
    count: nat,
) -> NodeAddress {
    let pool = routing_pool(replicas, local);
    pool[turn(count, pool.len()) as int]
}

/// The ranges of `ranges`, each with the index of its shard.
pub open spec fn numbered(ranges: Seq<(u16, u16)>, shard: usize) -> Seq<(u16, u16, usize)> {
    ranges.map_values(|range: (u16, u16)| (range.0, range.1, shard))
}

/// The ranges of all of `shards`, each with the index of its shard.
pub open spec fn shard_ranges(shards: Seq<Shard>) -> Seq<(u16, u16, usize)>
    decreases shards.len(),
{
    if shards.len() == 0 {
        Seq::empty()
    } else {
        shard_ranges(shards.drop_last()) + numbered(
            shards.last().ranges(),
            (shards.len() - 1) as usize,
        )
    }
}

/// The nodes of `shard` that a strategy for `zone` may route to: the primary, and the
/// local replicas or, where none is local, all of them.
pub open spec fn eager_nodes_of_shard(
    shard: Shard,
    zones: Map<NodeKey, Seq<char>>,
    zone: Seq<char>,
) -> Set<NodeKey> {
    Set::new(
        |key: NodeKey|
            {
                ||| key == shard.writer()@
                ||| local_keys(shard.readers(), zones, zone).contains(key)
                ||| (forall|i: int|
                    0 <= i < shard.readers().len() ==> !in_zone(
                        zones,
                        zone,
                        (#[trigger] shard.readers()[i])@,
                    )) && exists|i: int|
                    0 <= i < shard.readers().len() && (#[trigger] shard.readers()[i])@ == key
            },
    )
}

/// The nodes that a strategy for `zone` may route to.
pub open spec fn eager_nodes(
    shards: Seq<Shard>,
    zones: Map<NodeKey, Seq<char>>,
    zone: Seq<char>,
) -> Set<NodeKey> {
    Set::new(
        |key: NodeKey|
            exists|i: int|
                0 <= i < shards.len() && eager_nodes_of_shard(
                    #[trigger] shards[i],
                    zones,
                    zone,
                ).contains(key),
    )
}

/// The count after `count`: after the greatest, counting starts again.
pub open spec fn next_count(count: usize) -> usize {
    if count == usize::MAX {
        0
    } else {
        (count + 1) as usize
    }
}

proof fn lemma_local_keys_take(
    nodes: Seq<NodeAddress>,
    zones: Map<NodeKey, Seq<char>>,
    zone: Seq<char>,
    i: int,
)
    requires
        0 <= i < nodes.len(),
    ensures
        local_keys(nodes.take(i + 1), zones, zone) == if in_zone(zones, zone, nodes[i]@) {
            local_keys(nodes.take(i), zones, zone).insert(nodes[i]@)
        } else {
            local_keys(nodes.take(i), zones, zone)
        },
{
    lemma_keys_of_take(nodes, i);
    assert forall|key: NodeKey, n: int| 0 <= n <= nodes.len() implies #[trigger] local_keys(
        nodes.take(n),
        zones,
        zone,
    ).contains(key) == (in_zone(zones, zone, key) && keys_of(nodes.take(n)).contains(key)) by {}
    let after = local_keys(nodes.take(i + 1), zones, zone);
    if in_zone(zones, zone, nodes[i]@) {
        assert(after =~= local_keys(nodes.take(i), zones, zone).insert(nodes[i]@));
    } else {
        assert(after =~= local_keys(nodes.take(i), zones, zone));
    }
}

proof fn lemma_eager_nodes_take(
    shards: Seq<Shard>,
    zones: Map<NodeKey, Seq<char>>,
    zone: Seq<char>,
    i: int,
)
    requires
        0 <= i < shards.len(),
    ensures
        eager_nodes(shards.take(i + 1), zones, zone) == eager_nodes(
            shards.take(i),
            zones,
            zone,
        ).union(eager_nodes_of_shard(shards[i], zones, zone)),
{
    let before = shards.take(i);
    let after = shards.take(i + 1);
    let union = eager_nodes(before, zones, zone).union(
        eager_nodes_of_shard(shards[i], zones, zone),
    );
    assert forall|key: NodeKey| eager_nodes(after, zones, zone).contains(key) implies union.contains(
        key,
    ) by {
        let j = choose|j: int|
            0 <= j < after.len() && eager_nodes_of_shard(#[trigger] after[j], zones, zone).contains(
                key,
            );
        if j < i {
            assert(before[j] == after[j]);
        }
    }
    assert forall|key: NodeKey| union.contains(key) implies eager_nodes(after, zones, zone).contains(
        key,
    ) by {
        if eager_nodes_of_shard(shards[i], zones, zone).contains(key) {
            assert(after[i] == shards[i]);
        } else {
            let j = choose|j: int|
                0 <= j < before.len() && eager_nodes_of_shard(
                    #[trigger] before[j],
                    zones,
                    zone,
                ).contains(key);
            assert(after[j] == before[j]);
        }
    }
    assert(eager_nodes(after, zones, zone) =~= union);
}

/// How many of `replicas` are in `set`.
fn count_in<'a>(replicas: &Replicas<'a>, set: &NodeSet) -> (count: usize)
    ensures
        count == nodes_in(replicas@, set@).len(),
{
    let ghost keep = |node: NodeAddress| set@.contains(node@);
    let mut count: usize = 0;
    let len: usize = replicas.len();
    let mut i: usize = 0;
    proof {
        reveal(Seq::filter);
    }
    while i < len
        invariant
            len == replicas@.len(),
            i <= len,
            keep == (|node: NodeAddress| set@.contains(node@)),
            count == replicas@.take(i as int).filter(keep).len(),
            count <= i,
        decreases len - i,
    {
        proof {
            reveal(Seq::filter);
            assert(replicas@.take(i + 1).drop_last() =~= replicas@.take(i as int));
        }
        if let Some(replica) = replicas.get(i) {
            if set.contains(replica) {
                count = count + 1;
            }
        }
        i = i + 1;
    }
    assert(replicas@.take(len as int) =~= replicas@);
    count
}

/// The one of `replicas` in `set` before which `index` others are in it.
fn nth_in<'a>(replicas: &Replicas<'a>, set: &NodeSet, index: usize) -> (node: &'a NodeAddress)
    requires
        index < nodes_in(replicas@, set@).len(),
    ensures
        *node == nodes_in(replicas@, set@)[index as int],
{
    let ghost keep = |node: NodeAddress| set@.contains(node@);
    let mut seen: usize = 0;
    let len: usize = replicas.len();
    let mut i: usize = 0;
    let first = replicas.first();
    proof {
        reveal(Seq::filter);
    }
    while i < len
        invariant
            len == replicas@.len(),
            i <= len,
            keep == (|node: NodeAddress| set@.contains(node@)),
            seen == replicas@.take(i as int).filter(keep).len(),
            seen <= index,
            seen <= i,
        decreases len - i,
    {
        proof {
            reveal(Seq::filter);
            assert(replicas@.take(i + 1).drop_last() =~= replicas@.take(i as int));
        }
        if let Some(replica) = replicas.get(i) {
            if set.contains(replica) {
                if seen == index {
                    proof {
                        lemma_filter_take(replicas@, keep, i + 1);
                        assert(replicas@.take(i + 1).filter(keep)[index as int] == *replica);
                    }
                    return replica;
                }
                seen = seen + 1;
            }
        }
        i = i + 1;
    }
    assert(replicas@.take(len as int) =~= replicas@);
    first
}

proof fn lemma_filter_take(nodes: Seq<NodeAddress>, keep: spec_fn(NodeAddress) -> bool, n: int)
    requires
        0 <= n <= nodes.len(),
    ensures
        nodes.take(n).filter(keep).is_prefix_of(nodes.filter(keep)),
    decreases nodes.len() - n,
{
    reveal(Seq::filter);
    if n == nodes.len() {
        assert(nodes.take(n) =~= nodes);
    } else {
        lemma_filter_take(nodes, keep, n + 1);
        assert(nodes.take(n + 1).drop_last() =~= nodes.take(n));
    }
}

/// How the reads of one shard are routed.
struct ShardRoutingState {
    local_replicas: NodeSet,
    counter: usize,
}

/// Routes reads to replicas in the caller's availability zone first.
///
/// For each shard, reads are routed round-robin across replicas whose
/// discovered availability zone matches the caller-provided zone. If a shard
/// has no same-zone replicas, reads fall back to all replicas for that shard.
/// If a shard has no replicas at all, the cluster connection falls back to the
/// primary without invoking the strategy.
///
/// During topology refresh this strategy asks the connection to discover node
/// availability zones and to eagerly connect only to nodes it may route to:
/// all primaries, same-zone replicas when present, and otherwise all replicas
/// for shards with no same-zone replica.
pub struct ZonalReadRoutingStrategy {
    availability_zone: ArcStr,
    shared_state: Arc<NodeAvailabilityZoneDiscoveryState>,
    slots: SlotRangeMap<usize>,
    shards: Vec<ShardRoutingState>,
}

impl ZonalReadRoutingStrategy {
    /// Every slot that is known belongs to a known shard.
    pub closed spec fn wf(&self) -> bool {
        &&& self.slots.wf()
        &&& forall|end: u16| #[trigger]
            self.slots@.contains_key(end) ==> self.slots@[end].1 < self.shards@.len()
        &&& forall|i: int|
            0 <= i < self.shards@.len() ==> (#[trigger] self.shards@[i]).local_replicas.wf()
    }

    /// The caller's zone.
    pub closed spec fn zone(&self) -> Seq<char> {
        arc_text(self.availability_zone)
    }

    /// What is known about the zones of nodes.
    pub closed spec fn discovery(&self) -> Arc<NodeAvailabilityZoneDiscoveryState> {
        self.shared_state
    }

    /// The ranges of slots, with the indices of their shards.
    pub closed spec fn slots(&self) -> Map<u16, (u16, usize)> {
        self.slots@
    }

    /// The local replicas of each shard.
    pub closed spec fn local(&self) -> Seq<Set<NodeKey>> {
        self.shards@.map_values(|shard: ShardRoutingState| shard.local_replicas@)
    }

    /// How many reads of each shard have been routed, modulo the range of `usize`.
    pub closed spec fn counters(&self) -> Seq<usize> {
        self.shards@.map_values(|shard: ShardRoutingState| shard.counter)
    }

    /// Creates a zonal read-routing strategy for the caller's availability zone.
    pub fn new(availability_zone: &str) -> (strategy: Self)
        ensures
            strategy.wf(),
            strategy.zone() == availability_zone@,
            strategy.slots() == Map::<u16, (u16, usize)>::empty(),
            strategy.counters().len() == 0,
            strategy.local().len() == 0,
    {
        let strategy = ZonalReadRoutingStrategy {
            availability_zone: arc_from(availability_zone),
            shared_state: Arc::new(NodeAvailabilityZoneDiscoveryState::default()),
            slots: SlotRangeMap::new(),
            shards: Vec::new(),
        };
        assert(strategy.wf());
        strategy
    }

    /// Creates a cloneable zonal strategy handle for sharing discovery state
    /// across multiple clients in the same process.
    ///
    /// Clones of the returned strategy share availability-zone discovery
    /// results, but each connection keeps independent per-slot routing counters.
    pub fn shared(availability_zone: &str) -> (strategy: Self)
        ensures
            strategy.wf(),
            strategy.zone() == availability_zone@,
            strategy.slots() == Map::<u16, (u16, usize)>::empty(),
            strategy.counters().len() == 0,
            strategy.local().len() == 0,
    {
        Self::new(availability_zone)
    }

    /// Returns the caller availability zone this strategy prefers.
    pub fn availability_zone(&self) -> (zone: &str)
        ensures
            zone@ == self.zone(),
    {
        self.availability_zone.as_str()
    }

    /// A strategy for one more connection.
    pub fn create_strategy(&self) -> (strategy: Self)
        ensures
            strategy.wf(),
            strategy.zone() == self.zone(),
            strategy.discovery() == self.discovery(),
            strategy.slots() == Map::<u16, (u16, usize)>::empty(),
            strategy.counters().len() == 0,
            strategy.local().len() == 0,
    {
        self.clone()
    }

    /// What is known about the zones of nodes: a strategy and its clones share it.
    pub fn node_availability_zone_discovery_cache(&self) -> (cache: Option<
        Arc<NodeAvailabilityZoneDiscoveryState>,
    >)
        ensures
            cache == Some(self.discovery()),
    {
        Some(self.shared_state.clone())
    }

    /// Whether `node` is known to be in the caller's zone.
    fn is_local(&self, topology: &ClusterTopology, node: &NodeAddress) -> (local: bool)
        requires
            topology.wf(),
        ensures
            local == in_zone(topology.node_zones(), self.zone(), node@),
    {
        match topology.availability_zone_for_node(node) {
            Some(zone) => same_text(zone, self.availability_zone.as_str()),
            None => false,
        }
    }

    /// The replicas of `shard` that are known to be in the caller's zone.
    fn local_replicas(&self, topology: &ClusterTopology, shard: &Shard) -> (local: NodeSet)
        requires
            topology.wf(),
        ensures
            local.wf(),
            local@ == local_keys(shard.readers(), topology.node_zones(), self.zone()),
    {
        let replicas = shard.replicas();
        let ghost zones = topology.node_zones();
        let ghost zone = self.zone();
        let mut local = NodeSet::new();
        assert(local@ =~= local_keys(replicas@.take(0), zones, zone));
        for i in 0..replicas.len()
            invariant
                topology.wf(),
                zones == topology.node_zones(),
                zone == self.zone(),
                local.wf(),
                local@ == local_keys(replicas@.take(i as int), zones, zone),
        {
            proof {
                lemma_local_keys_take(replicas@, zones, zone, i as int);
            }
            if self.is_local(topology, &replicas[i]) {
                local.insert(replicas[i].clone());
            }
        }
        assert(replicas@.take(replicas@.len() as int) =~= replicas@);
        local
    }

    /// Takes over a new topology: every counter starts again.
    pub fn on_topology_changed(&mut self, topology: ClusterTopology)
        requires
            topology.wf(),
        ensures
            final(self).wf(),
            final(self).zone() == old(self).zone(),
            final(self).discovery() == old(self).discovery(),
            final(self).slots() == with_ranges(Map::empty(), shard_ranges(topology.parts())),
            final(self).local() == topology.parts().map_values(
                |shard: Shard| local_keys(shard.readers(), topology.node_zones(), old(self).zone()),
            ),
            final(self).counters() == topology.parts().map_values(|shard: Shard| 0usize),
    {
        let mut slots: SlotRangeMap<usize> = SlotRangeMap::new();
        let mut states: Vec<ShardRoutingState> = Vec::new();
        let shards = topology.shards();
        let ghost zones = topology.node_zones();
        let ghost zone = self.zone();
        for i in 0..shards.len()
            invariant
                *self == *old(self),
                topology.wf(),
                shards@ == topology.parts(),
                zones == topology.node_zones(),
                zone == self.zone(),
                slots.wf(),
                slots@ == with_ranges(Map::empty(), shard_ranges(shards@.take(i as int))),
                forall|end: u16| #[trigger] slots@.contains_key(end) ==> slots@[end].1 < i,
                states@.len() == i,
                forall|j: int|
                    0 <= j < i ==> (#[trigger] states@[j]).local_replicas.wf()
                        && states@[j].counter == 0 && states@[j].local_replicas@ == local_keys(
                        shards@[j].readers(),
                        zones,
                        zone,
                    ),
        {
            let local_replicas = self.local_replicas(&topology, &shards[i]);
            states.push(ShardRoutingState { local_replicas, counter: 0 });
            let ranges = shards[i].slot_ranges();
            let ghost before = shard_ranges(shards@.take(i as int));
            assert(before + numbered(ranges@.take(0), i) =~= before);
            for j in 0..ranges.len()
                invariant
                    i < shards@.len(),
                    slots.wf(),
                    slots@ == with_ranges(Map::empty(), before + numbered(ranges@.take(j as int), i)),
                    forall|end: u16| #[trigger] slots@.contains_key(end) ==> slots@[end].1 < i + 1,
            {
                let (start, end) = ranges[j];
                slots.insert(start, end, i);
                proof {
                    let next = before + numbered(ranges@.take(j + 1), i);
                    assert(next.drop_last() =~= before + numbered(ranges@.take(j as int), i));
                    assert(next.last() == (start, end, i));
                }
            }
            proof {
                let next = shards@.take(i + 1);
                assert(next.drop_last() =~= shards@.take(i as int));
                assert(ranges@.take(ranges@.len() as int) =~= ranges@);
                assert(shard_ranges(next) =~= before + numbered(ranges@, i));
            }
        }
        assert(shards@.take(shards@.len() as int) =~= shards@);
        self.slots = slots;
        self.shards = states;
        proof {
            assert(self.local() =~= topology.parts().map_values(
                |shard: Shard| local_keys(shard.readers(), zones, zone),
            ));
            assert(self.counters() =~= topology.parts().map_values(|shard: Shard| 0usize));
        }
    }

    /// The nodes of `topology` to connect to early: those that reads may be routed to, and
    /// the primaries.
    pub fn eager_connection_nodes(&self, topology: &ClusterTopology) -> (nodes: Option<NodeSet>)
        requires
            topology.wf(),
        ensures
            nodes matches Some(nodes) && nodes.wf() && nodes@ == eager_nodes(
                topology.parts(),
                topology.node_zones(),
                self.zone(),
            ),
    {
        let mut nodes = NodeSet::new();
        let shards = topology.shards();
        let ghost zones = topology.node_zones();
        let ghost zone = self.zone();
        assert(nodes@ =~= eager_nodes(shards@.take(0), zones, zone));
        for i in 0..shards.len()
            invariant
                topology.wf(),
                shards@ == topology.parts(),
                zones == topology.node_zones(),
                zone == self.zone(),
                nodes.wf(),
                nodes@ == eager_nodes(shards@.take(i as int), zones, zone),
        {
            let ghost before = nodes@;
            self.add_eager_nodes(topology, &shards[i], &mut nodes);
            proof {
                lemma_eager_nodes_take(shards@, zones, zone, i as int);
            }
        }
        assert(shards@.take(shards@.len() as int) =~= shards@);
        Some(nodes)
    }

    /// Adds the nodes of `shard` to connect to early.
    fn add_eager_nodes(&self, topology: &ClusterTopology, shard: &Shard, nodes: &mut NodeSet)
        requires
            topology.wf(),
            old(nodes).wf(),
        ensures
            final(nodes).wf(),
            final(nodes)@ == old(nodes)@.union(
                eager_nodes_of_shard(*shard, topology.node_zones(), self.zone()),
            ),
    {
        let ghost zones = topology.node_zones();
        let ghost zone = self.zone();
        nodes.insert(shard.primary().clone());
        let ghost first = nodes@;
        let replicas = shard.replicas();
        let mut any_local = false;
        assert(nodes@ =~= first.union(local_keys(replicas@.take(0), zones, zone)));
        for i in 0..replicas.len()
            invariant
                topology.wf(),
                zones == topology.node_zones(),
                zone == self.zone(),
                nodes.wf(),
                nodes@ == first.union(local_keys(replicas@.take(i as int), zones, zone)),
                any_local == exists|j: int|
                    0 <= j < i && in_zone(zones, zone, (#[trigger] replicas@[j])@),
        {
            proof {
                lemma_local_keys_take(replicas@, zones, zone, i as int);
            }
            if self.is_local(topology, &replicas[i]) {
                any_local = true;
                nodes.insert(replicas[i].clone());
                assert(in_zone(zones, zone, replicas@[i as int]@));
            }
            assert(nodes@ =~= first.union(local_keys(replicas@.take(i + 1), zones, zone)));
        }
        assert(replicas@.take(replicas@.len() as int) =~= replicas@);
        let ghost second = nodes@;
        if !any_local {
            assert(keys_of(replicas@.take(0)) =~= Set::<NodeKey>::empty());
            assert(nodes@ =~= second.union(keys_of(replicas@.take(0))));
            for i in 0..replicas.len()
                invariant
                    nodes.wf(),
                    nodes@ == second.union(keys_of(replicas@.take(i as int))),
            {
                proof {
                    lemma_keys_of_take(replicas@, i as int);
                }
                nodes.insert(replicas[i].clone());
                assert(nodes@ =~= second.union(keys_of(replicas@.take(i + 1))));
            }
            assert(replicas@.take(replicas@.len() as int) =~= replicas@);
        }
        assert(nodes@ =~= old(nodes)@.union(eager_nodes_of_shard(*shard, zones, zone)));
    }

    /// The replica that a read goes to, which counts as one more read of its shard.
    pub fn route_read<'a>(&mut self, candidates: &ReadCandidates<'a>) -> (node: &'a NodeAddress)
        requires
            old(self).wf(),
        ensures
            final(self).wf(),
            final(self).zone() == old(self).zone(),
            final(self).discovery() == old(self).discovery(),
            final(self).slots() == old(self).slots(),
            final(self).local() == old(self).local(),
            candidates.readers().len() > 0,
            match lookup(old(self).slots(), candidates.read_slot()) {
                Some(shard) => {
                    let count = old(self).counters()[shard as int];
                    &&& shard < old(self).counters().len()
                    &&& final(self).counters() == old(self).counters().update(
                        shard as int,
                        next_count(count),
                    )
                    &&& *node == replica_in_turn(
                        candidates.readers(),
                        old(self).local()[shard as int],
                        count as nat,
                    )
                },
                None => {
                    &&& final(self).counters() == old(self).counters()
                    &&& *node == candidates.readers()[0]
                },
            },
    {
        let replicas = match candidates {
            ReadCandidates::AnyNode(nodes) => nodes.replicas(),
            ReadCandidates::ReplicasOnly(nodes) => nodes.replicas(),
        };
        let first = replicas.first();
        let shard: usize = match self.slots.get(candidates.slot()) {
            Some(shard) => *shard,
            None => {
                return first;
            },
        };
        let count: usize = self.shards[shard].counter;
        let ghost local = self.shards@[shard as int].local_replicas@;
        assert(self.local()[shard as int] == local);
        assert(self.counters()[shard as int] == count);
        self.shards[shard].counter = count.wrapping_add(1);
        assert(self.local() =~= old(self).local());
        assert(self.counters() =~= old(self).counters().update(shard as int, next_count(count)));
        let local_len: usize = count_in(replicas, &self.shards[shard].local_replicas);
        if local_len > 0 {
            return nth_in(replicas, &self.shards[shard].local_replicas, count % local_len);
        }
        let len: usize = replicas.len();
        match replicas.get(count % len) {
            Some(replica) => replica,
            None => first,
        }
    }
}

impl Clone for ZonalReadRoutingStrategy {
    fn clone(&self) -> (strategy: Self)
        ensures
            strategy.wf(),
            strategy.zone() == self.zone(),
            strategy.discovery() == self.discovery(),
            strategy.slots() == Map::<u16, (u16, usize)>::empty(),
            strategy.counters().len() == 0,
            strategy.local().len() == 0,
    {
        let strategy = ZonalReadRoutingStrategy {
            availability_zone: self.availability_zone.clone(),
            shared_state: self.shared_state.clone(),
            slots: SlotRangeMap::new(),
            shards: Vec::new(),
        };
        assert(strategy.wf());
        strategy
    }
}

} // verus!
