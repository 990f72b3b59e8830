//! What holds of every read that a zonal strategy routes.

use vstd::arithmetic::div_mod::{
    lemma_fundamental_div_mod, lemma_mod_bound, lemma_mod_equivalence, lemma_mod_multiples_vanish,
    lemma_small_mod,
};
use vstd::prelude::*;

use crate::node_address::{NodeAddress, NodeKey};
use crate::read_routing::{ClusterTopology, Shard};
use crate::slot_range_laws::{law_insert, law_lookup, non_overlapping};
use crate::slot_range_map::{lookup, with_ranges};
use crate::zonal_read_routing::{
    eager_nodes, eager_nodes_of_shard, in_zone, local_keys, nodes_in, replica_in_turn, routing_pool,
    shard_ranges, turn, ZonalReadRoutingStrategy,
};

verus! {

proof fn lemma_nodes_in(nodes: Seq<NodeAddress>, keys: Set<NodeKey>)
    ensures
        forall|i: int|
            0 <= i < nodes_in(nodes, keys).len() ==> keys.contains(
                (#[trigger] nodes_in(nodes, keys)[i])@,
            ) && nodes.contains(nodes_in(nodes, keys)[i]),
        forall|i: int|
            0 <= i < nodes.len() && keys.contains((#[trigger] nodes[i])@) ==> nodes_in(
                nodes,
                keys,
            ).contains(nodes[i]),
{
    broadcast use vstd::seq_lib::group_filter_ensures;

    let keep = |node: NodeAddress| keys.contains(node@);
    assert forall|i: int| 0 <= i < nodes_in(nodes, keys).len() implies keys.contains(
        (#[trigger] nodes_in(nodes, keys)[i])@,
    ) && nodes.contains(nodes_in(nodes, keys)[i]) by {
        assert(keep(nodes.filter(keep)[i]));
        nodes.lemma_filter_contains_rev(keep, nodes.filter(keep)[i]);
    }
    assert forall|i: int| 0 <= i < nodes.len() && keys.contains(
        (#[trigger] nodes[i])@,
    ) implies nodes_in(nodes, keys).contains(nodes[i]) by {
        assert(keep(nodes[i]));
    }
}

/// A read goes to one of the replicas that it may go to. Where one of them is local, it
/// goes to a local one.
pub proof fn law_reads_stay_local(replicas: Seq<NodeAddress>, local: Set<NodeKey>, count: nat)
    requires
        replicas.len() > 0,
    ensures
        replicas.contains(replica_in_turn(replicas, local, count)),
        (exists|i: int| 0 <= i < replicas.len() && local.contains((#[trigger] replicas[i])@))
            ==> local.contains(replica_in_turn(replicas, local, count)@),
{
    lemma_nodes_in(replicas, local);
    let pool = routing_pool(replicas, local);
    lemma_mod_bound(count as int, pool.len() as int);
    if exists|i: int| 0 <= i < replicas.len() && local.contains((#[trigger] replicas[i])@) {
        let i = choose|i: int| 0 <= i < replicas.len() && local.contains((#[trigger] replicas[i])@);
        assert(nodes_in(replicas, local).contains(replicas[i]));
    }
    if nodes_in(replicas, local).len() > 0 {
        assert(local.contains(pool[turn(count, pool.len()) as int]@));
    }
}

proof fn lemma_turns(count: nat, len: nat)
    requires
        len > 0,
    ensures
        turn(count + len, len) == turn(count, len),
        turn(count, len) < len,
        forall|a: nat, b: nat|
            count <= a < b < count + len ==> #[trigger] turn(a, len) != #[trigger] turn(b, len),
{
    lemma_mod_bound(count as int, len as int);
    lemma_mod_multiples_vanish(1, count as int, len as int);
    assert forall|a: nat, b: nat| count <= a < b < count + len implies #[trigger] turn(a, len)
        != #[trigger] turn(b, len) by {
        lemma_mod_equivalence(b as int, a as int, len as int);
        lemma_small_mod((b - a) as nat, len);
    }
}

proof fn lemma_later_turn(count: nat, len: nat, i: nat) -> (later: nat)
    requires
        i < len,
    ensures
        count <= later < count + len,
        turn(later, len) == i,
{
    let modulus = len as int;
    let rest = count as int % modulus;
    let quotient = count as int / modulus;
    lemma_fundamental_div_mod(count as int, modulus);
    lemma_mod_bound(count as int, modulus);
    lemma_small_mod(i, len);
    if i >= rest {
        lemma_mod_multiples_vanish(quotient, i as int, modulus);
        (count + i - rest) as nat
    } else {
        lemma_mod_multiples_vanish(1, i as int, modulus);
        lemma_mod_multiples_vanish(quotient, modulus + i, modulus);
        (count + i + modulus - rest) as nat
    }
}

/// Reads take turns: as many reads in a row as the pool has replicas reach each of them
/// once, and then the turns begin again.
pub proof fn law_round_robin(replicas: Seq<NodeAddress>, local: Set<NodeKey>, count: nat)
    requires
        replicas.len() > 0,
    ensures
        replica_in_turn(replicas, local, count + routing_pool(replicas, local).len())
            == replica_in_turn(replicas, local, count),
        forall|i: int|
            0 <= i < routing_pool(replicas, local).len() ==> exists|later: nat|
                count <= later < count + routing_pool(replicas, local).len()
                    && #[trigger] replica_in_turn(replicas, local, later)
                    == #[trigger] routing_pool(replicas, local)[i],
        forall|a: nat, b: nat|
            count <= a < b < count + routing_pool(replicas, local).len() ==> #[trigger] turn(
                a,
                routing_pool(replicas, local).len(),
            ) != #[trigger] turn(b, routing_pool(replicas, local).len()),
{
    let pool = routing_pool(replicas, local);
    assert(pool.len() > 0);
    lemma_turns(count, pool.len());
    assert forall|i: int| 0 <= i < routing_pool(replicas, local).len() implies exists|later: nat|
        count <= later < count + routing_pool(replicas, local).len() && #[trigger] replica_in_turn(
            replicas,
            local,
            later,
        ) == #[trigger] routing_pool(replicas, local)[i] by {
        let later = lemma_later_turn(count, pool.len(), i as nat);
        assert(replica_in_turn(replicas, local, later) == pool[i]);
    }
}

/// A shard's reads go to nodes that the strategy asks to connect to early.
pub proof fn law_routed_nodes_are_connected(
    shards: Seq<Shard>,
    zones: Map<NodeKey, Seq<char>>,
    zone: Seq<char>,
    shard: int,
    count: nat,
)
    requires
        0 <= shard < shards.len(),
        shards[shard].readers().len() > 0,
    ensures
        eager_nodes(shards, zones, zone).contains(
            replica_in_turn(
                shards[shard].readers(),
                local_keys(shards[shard].readers(), zones, zone),
                count,
            )@,
        ),
{
    let replicas = shards[shard].readers();
    let local = local_keys(replicas, zones, zone);
    let node = replica_in_turn(replicas, local, count);
    law_reads_stay_local(replicas, local, count);
    assert(replicas.contains(node));
    let index = choose|i: int| 0 <= i < replicas.len() && replicas[i] == node;
    if !local.contains(node@) {
        assert forall|i: int| 0 <= i < replicas.len() implies !in_zone(
            zones,
            zone,
            (#[trigger] replicas[i])@,
        ) by {
            if in_zone(zones, zone, replicas[i]@) {
                assert(local.contains(replicas[i]@));
            }
        }
        assert(replicas[index]@ == node@);
    }
    assert(eager_nodes_of_shard(shards[shard], zones, zone).contains(node@));
}

/// Of a shard with a local replica, no remote one is connected to early, and of a shard
/// without one, every replica is. The primary always is.
pub proof fn law_early_connections(
    shard: Shard,
    zones: Map<NodeKey, Seq<char>>,
    zone: Seq<char>,
    key: NodeKey,
)
    ensures
        eager_nodes_of_shard(shard, zones, zone).contains(shard.writer()@),
        eager_nodes_of_shard(shard, zones, zone).contains(key) && key != shard.writer()@ && (
        exists|i: int|
            0 <= i < shard.readers().len() && in_zone(zones, zone, (#[trigger] shard.readers()[i])@))
            ==> in_zone(zones, zone, key),
        (forall|i: int|
            0 <= i < shard.readers().len() ==> !in_zone(zones, zone, (#[trigger] shard.readers()[i])@))
            ==> forall|i: int|
            0 <= i < shard.readers().len() ==> eager_nodes_of_shard(shard, zones, zone).contains(
                (#[trigger] shard.readers()[i])@,
            ),
{
}

/// Whether every range holds a slot and no two of them share one.
pub open spec fn ranges_apart(ranges: Seq<(u16, u16, usize)>) -> bool {
    &&& forall|i: int| 0 <= i < ranges.len() ==> (#[trigger] ranges[i]).0 <= ranges[i].1
    &&& forall|i: int, j: int|
        0 <= i < j < ranges.len() ==> (#[trigger] ranges[i]).1 < (#[trigger] ranges[j]).0
            || ranges[j].1 < ranges[i].0
}

proof fn lemma_entered(ranges: Seq<(u16, u16, usize)>, end: u16)
    requires
        with_ranges(Map::empty(), ranges).contains_key(end),
    ensures
        exists|i: int|
            0 <= i < ranges.len() && (#[trigger] ranges[i]).1 == end && ranges[i].0 == with_ranges(
                Map::empty(),
                ranges,
            )[end].0,
    decreases ranges.len(),
{
    if ranges.len() > 0 {
        if ranges.last().1 == end {
            assert(ranges[ranges.len() - 1].1 == end);
        } else {
            lemma_entered(ranges.drop_last(), end);
            let i = choose|i: int|
                0 <= i < ranges.drop_last().len() && (#[trigger] ranges.drop_last()[i]).1 == end
                    && ranges.drop_last()[i].0 == with_ranges(
                    Map::empty(),
                    ranges.drop_last(),
                )[end].0;
            assert(ranges[i].1 == end);
        }
    }
}

proof fn lemma_ranges_found(ranges: Seq<(u16, u16, usize)>)
    requires
        ranges_apart(ranges),
    ensures
        non_overlapping(with_ranges(Map::empty(), ranges)),
        forall|i: int, slot: u16|
            0 <= i < ranges.len() && (#[trigger] ranges[i]).0 <= slot <= ranges[i].1
                ==> #[trigger] lookup(with_ranges(Map::empty(), ranges), slot) == Some(ranges[i].2),
        forall|slot: u16|
            (forall|i: int|
                0 <= i < ranges.len() ==> !((#[trigger] ranges[i]).0 <= slot <= ranges[i].1))
                ==> #[trigger] lookup(with_ranges(Map::empty(), ranges), slot) is None,
    decreases ranges.len(),
{
    let map = with_ranges(Map::empty(), ranges);
    if ranges.len() == 0 {
        assert forall|slot: u16| #[trigger] lookup(map, slot) is None by {
            law_lookup(map, slot);
        }
    } else {
        let before = ranges.drop_last();
        let (start, end, shard) = ranges.last();
        let earlier = with_ranges(Map::empty(), before);
        assert(ranges_apart(before)) by {
            assert forall|i: int| 0 <= i < before.len() implies (#[trigger] before[i]).0
                <= before[i].1 by {
                assert(before[i] == ranges[i]);
            }
            assert forall|i: int, j: int| 0 <= i < j < before.len() implies (
            #[trigger] before[i]).1 < (#[trigger] before[j]).0 || before[j].1 < before[i].0 by {
                assert(before[i] == ranges[i] && before[j] == ranges[j]);
            }
        }
        lemma_ranges_found(before);
        assert(ranges[ranges.len() - 1] == (start, end, shard));
        assert forall|other: u16| #[trigger] earlier.contains_key(other) implies other < start
            || end < earlier[other].0 by {
            lemma_entered(before, other);
            let i = choose|i: int|
                0 <= i < before.len() && (#[trigger] before[i]).1 == other && before[i].0
                    == earlier[other].0;
            assert(before[i] == ranges[i]);
        }
        law_insert(earlier, start, end, shard);
        assert forall|i: int, slot: u16|
            0 <= i < ranges.len() && (#[trigger] ranges[i]).0 <= slot
                <= ranges[i].1 implies #[trigger] lookup(map, slot) == Some(ranges[i].2) by {
            if i < before.len() {
                assert(before[i] == ranges[i]);
                assert(lookup(earlier, slot) == Some(before[i].2));
            }
        }
        assert forall|slot: u16|
            (forall|i: int|
                0 <= i < ranges.len() ==> !((#[trigger] ranges[i]).0 <= slot
                    <= ranges[i].1)) implies #[trigger] lookup(map, slot) is None by {
            assert forall|i: int| 0 <= i < before.len() implies !((#[trigger] before[i]).0 <= slot
                <= before[i].1) by {
                assert(before[i] == ranges[i]);
            }
            assert(lookup(earlier, slot) is None);
        }
    }
}

/// Whether the shard at `shard` has `slot` in one of its ranges.
pub open spec fn has_slot(shards: Seq<Shard>, shard: int, slot: u16) -> bool {
    0 <= shard < shards.len() && exists|i: int|
        0 <= i < shards[shard].ranges().len() && (#[trigger] shards[shard].ranges()[i]).0 <= slot
            <= shards[shard].ranges()[i].1
}

/// Whether range `i` of `ranges` is one of the shard at `shard` and holds `slot`.
spec fn numbered_slot(ranges: Seq<(u16, u16, usize)>, shard: int, slot: u16, i: int) -> bool {
    0 <= i < ranges.len() && ranges[i].2 == shard && ranges[i].0 <= slot <= ranges[i].1
}

proof fn lemma_numbered_slots(shards: Seq<Shard>, slot: u16)
    requires
        shards.len() <= usize::MAX,
    ensures
        forall|shard: int| #[trigger]
            has_slot(shards, shard, slot) ==> exists|i: int|
                numbered_slot(shard_ranges(shards), shard, slot, i),
        forall|i: int|
            0 <= i < shard_ranges(shards).len() && (#[trigger] shard_ranges(shards)[i]).0 <= slot
                <= shard_ranges(shards)[i].1 ==> has_slot(
                shards,
                shard_ranges(shards)[i].2 as int,
                slot,
            ),
    decreases shards.len(),
{
    if shards.len() > 0 {
        let last = shards.len() - 1;
        let before = shards.drop_last();
        let earlier = shard_ranges(before);
        let own = shards.last().ranges();
        let all = shard_ranges(shards);
        lemma_numbered_slots(before, slot);
        assert forall|shard: int| #[trigger] has_slot(shards, shard, slot) implies exists|i: int|
            numbered_slot(all, shard, slot, i) by {
            if shard == last {
                let i = choose|i: int|
                    0 <= i < own.len() && (#[trigger] own[i]).0 <= slot <= own[i].1;
                assert(all[earlier.len() + i] == (own[i].0, own[i].1, last as usize));
                assert(numbered_slot(all, shard, slot, earlier.len() + i));
            } else {
                assert(before[shard] == shards[shard]);
                assert(has_slot(before, shard, slot));
                let i = choose|i: int| numbered_slot(earlier, shard, slot, i);
                assert(all[i] == earlier[i]);
                assert(numbered_slot(all, shard, slot, i));
            }
        }
        assert forall|i: int|
            0 <= i < all.len() && (#[trigger] all[i]).0 <= slot <= all[i].1 implies has_slot(
            shards,
            all[i].2 as int,
            slot,
        ) by {
            if i < earlier.len() {
                assert(earlier[i] == all[i]);
                assert(has_slot(before, earlier[i].2 as int, slot));
                assert(before[earlier[i].2 as int] == shards[earlier[i].2 as int]);
            } else {
                let own_range = own[i - earlier.len()];
                assert(all[i] == (own_range.0, own_range.1, last as usize));
            }
        }
    }
}

/// Where the ranges of a topology lie apart, a slot is routed by the shard that has it in
/// one of its ranges, and by none where no shard has it.
pub proof fn law_slots_of_topology(shards: Seq<Shard>, slot: u16)
    requires
        shards.len() <= usize::MAX,
        ranges_apart(shard_ranges(shards)),
    ensures
        forall|shard: int| #[trigger]
            has_slot(shards, shard, slot) ==> lookup(
                with_ranges(Map::empty(), shard_ranges(shards)),
                slot,
            ) == Some(shard as usize),
        (forall|shard: int| !#[trigger] has_slot(shards, shard, slot)) ==> lookup(
            with_ranges(Map::empty(), shard_ranges(shards)),
            slot,
        ) is None,
{
    let ranges = shard_ranges(shards);
    lemma_ranges_found(ranges);
    lemma_numbered_slots(shards, slot);
    assert forall|shard: int| #[trigger] has_slot(shards, shard, slot) implies lookup(
        with_ranges(Map::empty(), ranges),
        slot,
    ) == Some(shard as usize) by {
        let i = choose|i: int| numbered_slot(ranges, shard, slot, i);
        assert(ranges[i].0 <= slot <= ranges[i].1);
    }
    if forall|shard: int| !#[trigger] has_slot(shards, shard, slot) {
        assert forall|i: int| 0 <= i < ranges.len() implies !((#[trigger] ranges[i]).0 <= slot
            <= ranges[i].1) by {
            assert(!has_slot(shards, ranges[i].2 as int, slot));
        }
    }
}

/// Once a strategy has taken over a topology whose ranges lie apart, the reads of a slot go
/// to replicas of the shard that has it: to those in the caller's zone where there are
/// any, and always to nodes that the strategy asks to connect to early.
pub proof fn law_reads_after_topology_change(
    strategy: ZonalReadRoutingStrategy,
    topology: ClusterTopology,
    shard: int,
    slot: u16,
    count: nat,
)
    requires
        topology.parts().len() <= usize::MAX,
        ranges_apart(shard_ranges(topology.parts())),
        strategy.slots() == with_ranges(Map::empty(), shard_ranges(topology.parts())),
        strategy.local() == topology.parts().map_values(
            |part: Shard| local_keys(part.readers(), topology.node_zones(), strategy.zone()),
        ),
        has_slot(topology.parts(), shard, slot),
        topology.parts()[shard].readers().len() > 0,
    ensures
        lookup(strategy.slots(), slot) == Some(shard as usize),
        ({
            let replicas = topology.parts()[shard].readers();
            let node = replica_in_turn(replicas, strategy.local()[shard], count);
            &&& replicas.contains(node)
            &&& eager_nodes(topology.parts(), topology.node_zones(), strategy.zone()).contains(
                node@,
            )
            &&& (exists|i: int|
                0 <= i < replicas.len() && in_zone(
                    topology.node_zones(),
                    strategy.zone(),
                    (#[trigger] replicas[i])@,
                )) ==> in_zone(topology.node_zones(), strategy.zone(), node@)
        }),
{
    let shards = topology.parts();
    let zones = topology.node_zones();
    let zone = strategy.zone();
    let replicas = shards[shard].readers();
    let local = local_keys(replicas, zones, zone);
    law_slots_of_topology(shards, slot);
    assert(strategy.local()[shard] == local);
    law_reads_stay_local(replicas, local, count);
    law_routed_nodes_are_connected(shards, zones, zone, shard, count);
    if exists|i: int| 0 <= i < replicas.len() && in_zone(zones, zone, (#[trigger] replicas[i])@) {
        let i = choose|i: int|
            0 <= i < replicas.len() && in_zone(zones, zone, (#[trigger] replicas[i])@);
        assert(local.contains(replicas[i]@));
    }
}

} // verus!
