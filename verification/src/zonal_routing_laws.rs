//! Where a zonal strategy's reads go, said of the zones of the nodes themselves.

use vstd::arithmetic::div_mod::{lemma_mod_bound, lemma_small_mod};
use vstd::prelude::*;

use crate::node_address::{NodeAddress, NodeKey};
use crate::node_collections::NodeSet;
use crate::read_routing::{ClusterTopology, ReadCandidates, Shard};
use crate::slot_range_map::{lookup, with_ranges};
use crate::zonal_laws::{
    has_slot, law_reads_stay_local, law_slots_of_topology,
    ranges_apart,
};
use crate::zonal_read_routing::{
    eager_nodes, eager_nodes_of_shard, in_zone, local_keys, next_count, nodes_in, replica_in_turn,
    shard_ranges, ZonalReadRoutingStrategy,
};

verus! {

/// A node counts as local exactly where it is one of the nodes and its zone is known and is
/// the caller's, character for character.
pub proof fn law_local_nodes(
    nodes: Seq<NodeAddress>,
    zones: Map<NodeKey, Seq<char>>,
    zone: Seq<char>,
    key: NodeKey,
)
    ensures
        local_keys(nodes, zones, zone).contains(key) <==> zones.contains_key(key) && zones[key]
            == zone && exists|i: int| 0 <= i < nodes.len() && (#[trigger] nodes[i])@ == key,
        zones.contains_key(key) && zones[key] != zone ==> !local_keys(nodes, zones, zone).contains(
            key,
        ),
        !zones.contains_key(key) ==> !local_keys(nodes, zones, zone).contains(key),
{
}

/// Whether range `i` of the shard at `s` and range `j` of the shard at `t` share no slot.
pub open spec fn apart(shards: Seq<Shard>, s: int, i: int, t: int, j: int) -> bool {
    shards[s].ranges()[i].1 < shards[t].ranges()[j].0 || shards[t].ranges()[j].1
        < shards[s].ranges()[i].0
}

/// Whether every range of every shard holds a slot, and no slot is in two ranges.
pub open spec fn slots_apart(shards: Seq<Shard>) -> bool {
    &&& forall|s: int, i: int|
        0 <= s < shards.len() && 0 <= i < shards[s].ranges().len() ==> (
        #[trigger] shards[s].ranges()[i]).0 <= shards[s].ranges()[i].1
    &&& forall|s: int, i: int, t: int, j: int|
        0 <= s < shards.len() && 0 <= i < shards[s].ranges().len() && 0 <= t < shards.len() && 0
            <= j < shards[t].ranges().len() && (s != t || i != j) ==> #[trigger] apart(
            shards,
            s,
            i,
            t,
            j,
        )
}

proof fn lemma_origin(shards: Seq<Shard>, n: int) -> (origin: (int, int))
    requires
        shards.len() <= usize::MAX,
        0 <= n < shard_ranges(shards).len(),
    ensures
        0 <= origin.0 < shards.len(),
        0 <= origin.1 < shards[origin.0].ranges().len(),
        shard_ranges(shards)[n].0 == shards[origin.0].ranges()[origin.1].0,
        shard_ranges(shards)[n].1 == shards[origin.0].ranges()[origin.1].1,
        shard_ranges(shards)[n].2 == origin.0,
        origin.0 == shards.len() - 1 ==> origin.1 == n - shard_ranges(shards.drop_last()).len(),
        origin.0 < shards.len() - 1 ==> n < shard_ranges(shards.drop_last()).len(),
    decreases shards.len(),
{
    let before = shards.drop_last();
    let earlier = shard_ranges(before);
    if n < earlier.len() {
        let origin = lemma_origin(before, n);
        assert(shard_ranges(shards)[n] == earlier[n]);
        assert(before[origin.0] == shards[origin.0]);
        origin
    } else {
        let own = shards.last().ranges();
        let i = n - earlier.len();
        assert(shard_ranges(shards)[n] == (own[i].0, own[i].1, (shards.len() - 1) as usize));
        (shards.len() - 1, i)
    }
}

proof fn lemma_apart(shards: Seq<Shard>)
    requires
        shards.len() <= usize::MAX,
        slots_apart(shards),
    ensures
        ranges_apart(shard_ranges(shards)),
    decreases shards.len(),
{
    let all = shard_ranges(shards);
    if shards.len() > 0 {
        let before = shards.drop_last();
        let earlier = shard_ranges(before);
        assert forall|s: int, i: int|
            0 <= s < before.len() && 0 <= i < before[s].ranges().len() implies (
        #[trigger] before[s].ranges()[i]).0 <= before[s].ranges()[i].1 by {
            assert(before[s] == shards[s]);
            assert(shards[s].ranges()[i].0 <= shards[s].ranges()[i].1);
        }
        assert forall|s: int, i: int, t: int, j: int|
            0 <= s < before.len() && 0 <= i < before[s].ranges().len() && 0 <= t < before.len()
                && 0 <= j < before[t].ranges().len() && (s != t || i != j) implies #[trigger] apart(
            before,
            s,
            i,
            t,
            j,
        ) by {
            assert(before[s] == shards[s] && before[t] == shards[t]);
            assert(apart(shards, s, i, t, j));
        }
        lemma_apart(before);
        assert forall|n: int| 0 <= n < all.len() implies (#[trigger] all[n]).0 <= all[n].1 by {
            let (s, i) = lemma_origin(shards, n);
            assert(shards[s].ranges()[i].0 <= shards[s].ranges()[i].1);
        }
        assert forall|n: int, m: int| 0 <= n < m < all.len() implies (#[trigger] all[n]).1 < (
        #[trigger] all[m]).0 || all[m].1 < all[n].0 by {
            if m < earlier.len() {
                assert(all[n] == earlier[n] && all[m] == earlier[m]);
            } else {
                let (s, i) = lemma_origin(shards, n);
                let (t, j) = lemma_origin(shards, m);
                assert(apart(shards, s, i, t, j));
            }
        }
    }
}

/// The ranges of one more shard come behind those of the shards before it, in their order,
/// each with the number of that shard.
pub proof fn law_ranges_of_one_more_shard(shards: Seq<Shard>, shard: Shard, i: int)
    requires
        shards.len() < usize::MAX,
    ensures
        shard_ranges(Seq::empty()).len() == 0,
        shard_ranges(shards.push(shard)).len() == shard_ranges(shards).len()
            + shard.ranges().len(),
        0 <= i < shard_ranges(shards).len() ==> shard_ranges(shards.push(shard))[i]
            == shard_ranges(shards)[i],
        0 <= i < shard.ranges().len() ==> {
            let range = shard_ranges(shards.push(shard))[shard_ranges(shards).len() + i];
            &&& range.0 == shard.ranges()[i].0
            &&& range.1 == shard.ranges()[i].1
            &&& range.2 == shards.len()
        },
{
    assert(shards.push(shard).drop_last() =~= shards);
}

/// Where no slot is in two ranges, a slot is found with the index of the shard that has it in
/// one of its ranges; a slot in none is not found.
pub proof fn law_shards_of_slots(shards: Seq<Shard>, shard: int, i: int, slot: u16)
    requires
        shards.len() <= usize::MAX,
        slots_apart(shards),
    ensures
        0 <= shard < shards.len() && 0 <= i < shards[shard].ranges().len()
            && shards[shard].ranges()[i].0 <= slot <= shards[shard].ranges()[i].1 ==> lookup(
            with_ranges(Map::empty(), shard_ranges(shards)),
            slot,
        ) == Some(shard as usize),
        (forall|s: int, j: int|
            0 <= s < shards.len() && 0 <= j < shards[s].ranges().len() ==> !((
            #[trigger] shards[s].ranges()[j]).0 <= slot <= shards[s].ranges()[j].1)) ==> lookup(
            with_ranges(Map::empty(), shard_ranges(shards)),
            slot,
        ) is None,
{
    lemma_apart(shards);
    law_slots_of_topology(shards, slot);
    if 0 <= shard < shards.len() && 0 <= i < shards[shard].ranges().len()
        && shards[shard].ranges()[i].0 <= slot <= shards[shard].ranges()[i].1 {
        assert(has_slot(shards, shard, slot));
    }
    if forall|s: int, j: int|
        0 <= s < shards.len() && 0 <= j < shards[s].ranges().len() ==> !((
        #[trigger] shards[s].ranges()[j]).0 <= slot <= shards[s].ranges()[j].1) {
        assert forall|s: int| !#[trigger] has_slot(shards, s, slot) by {
            if has_slot(shards, s, slot) {
                let j = choose|j: int|
                    0 <= j < shards[s].ranges().len() && (#[trigger] shards[s].ranges()[j]).0
                        <= slot <= shards[s].ranges()[j].1;
                assert(!(shards[s].ranges()[j].0 <= slot <= shards[s].ranges()[j].1));
            }
        }
    }
}

/// Once a strategy has taken over a topology in which no slot is in two ranges, a read of a
/// slot goes to a replica of the shard that has it. Where some replica of that shard has a
/// known zone that is the caller's, the read goes to a replica with a known zone that is the
/// caller's, whatever number the read has. No node whose known zone is another, and none
/// whose zone is unknown, is among the local ones of any shard.
pub proof fn law_reads_in_the_callers_zone(
    strategy: ZonalReadRoutingStrategy,
    topology: ClusterTopology,
    shard: int,
    i: int,
    slot: u16,
    count: nat,
)
    requires
        topology.parts().len() <= usize::MAX,
        slots_apart(topology.parts()),
        strategy.slots() == with_ranges(Map::empty(), shard_ranges(topology.parts())),
        strategy.local() == topology.parts().map_values(
            |part: Shard| local_keys(part.readers(), topology.node_zones(), strategy.zone()),
        ),
        0 <= shard < topology.parts().len(),
        0 <= i < topology.parts()[shard].ranges().len(),
        topology.parts()[shard].ranges()[i].0 <= slot <= topology.parts()[shard].ranges()[i].1,
        topology.parts()[shard].readers().len() > 0,
    ensures
        lookup(strategy.slots(), slot) == Some(shard as usize),
        ({
            let replicas = topology.parts()[shard].readers();
            let node = replica_in_turn(replicas, strategy.local()[shard], count);
            &&& replicas.contains(node)
            &&& (exists|r: int|
                0 <= r < replicas.len() && topology.node_zones().contains_key(
                    (#[trigger] replicas[r])@,
                ) && topology.node_zones()[replicas[r]@] == strategy.zone())
                ==> topology.node_zones().contains_key(node@) && topology.node_zones()[node@]
                == strategy.zone()
        }),
        forall|s: int, key: NodeKey|
            0 <= s < topology.parts().len() && #[trigger] strategy.local()[s].contains(key)
                ==> topology.node_zones().contains_key(key) && topology.node_zones()[key]
                == strategy.zone(),
        forall|s: int, r: int|
            0 <= s < topology.parts().len() && 0 <= r < topology.parts()[s].readers().len()
                && topology.node_zones().contains_key(
                (#[trigger] topology.parts()[s].readers()[r])@,
            ) && topology.node_zones()[topology.parts()[s].readers()[r]@] == strategy.zone()
                ==> strategy.local()[s].contains(topology.parts()[s].readers()[r]@),
{
    let shards = topology.parts();
    let zones = topology.node_zones();
    let zone = strategy.zone();
    let replicas = shards[shard].readers();
    law_shards_of_slots(shards, shard, i, slot);
    assert(strategy.local()[shard] == local_keys(replicas, zones, zone));
    law_reads_stay_local(replicas, strategy.local()[shard], count);
    if exists|r: int|
        0 <= r < replicas.len() && zones.contains_key((#[trigger] replicas[r])@)
            && zones[replicas[r]@] == zone {
        let r = choose|r: int|
            0 <= r < replicas.len() && zones.contains_key((#[trigger] replicas[r])@)
                && zones[replicas[r]@] == zone;
        law_local_nodes(replicas, zones, zone, replicas[r]@);
        assert(strategy.local()[shard].contains(replicas[r]@));
        let node = replica_in_turn(replicas, strategy.local()[shard], count);
        law_local_nodes(replicas, zones, zone, node@);
    }
    assert forall|s: int, key: NodeKey|
        0 <= s < shards.len() && #[trigger] strategy.local()[s].contains(
            key,
        ) implies zones.contains_key(key) && zones[key] == zone by {
        law_local_nodes(shards[s].readers(), zones, zone, key);
    }
    assert forall|s: int, r: int|
        0 <= s < shards.len() && 0 <= r < shards[s].readers().len() && zones.contains_key(
            (#[trigger] shards[s].readers()[r])@,
        ) && zones[shards[s].readers()[r]@] == zone implies strategy.local()[s].contains(
        shards[s].readers()[r]@,
    ) by {
        law_local_nodes(shards[s].readers(), zones, zone, shards[s].readers()[r]@);
    }
}

/// Once `taking` has taken over a topology in which no slot is in two ranges, and its reads have
/// changed counters alone, the read of a slot whose shard has a replica with a known zone that
/// is the caller's is routed to a replica with a known zone that is the caller's.
pub proof fn law_routed_reads<'a>(
    taking: &mut ZonalReadRoutingStrategy,
    topology: ClusterTopology,
    reading: &mut ZonalReadRoutingStrategy,
    candidates: &ReadCandidates<'a>,
    node: &'a NodeAddress,
    shard: int,
    i: int,
)
    requires
        call_ensures(ZonalReadRoutingStrategy::on_topology_changed, (taking, topology), ()),
        old(reading).zone() == final(taking).zone(),
        old(reading).slots() == final(taking).slots(),
        old(reading).local() == final(taking).local(),
        call_ensures(ZonalReadRoutingStrategy::route_read, (reading, candidates), node),
        topology.parts().len() <= usize::MAX,
        slots_apart(topology.parts()),
        0 <= shard < topology.parts().len(),
        0 <= i < topology.parts()[shard].ranges().len(),
        topology.parts()[shard].ranges()[i].0 <= candidates.read_slot()
            <= topology.parts()[shard].ranges()[i].1,
        candidates.readers() == topology.parts()[shard].readers(),
    ensures
        candidates.readers().contains(*node),
        (exists|r: int|
            0 <= r < candidates.readers().len() && topology.node_zones().contains_key(
                (#[trigger] candidates.readers()[r])@,
            ) && topology.node_zones()[candidates.readers()[r]@] == old(taking).zone())
            ==> topology.node_zones().contains_key(node@) && topology.node_zones()[node@]
            == old(taking).zone(),
        final(reading).zone() == old(taking).zone(),
        final(reading).slots() == final(taking).slots(),
        final(reading).local() == final(taking).local(),
        final(reading).counters().len() == old(reading).counters().len(),
        final(reading).counters()[shard] as int == (old(reading).counters()[shard] as int + 1) % (
        usize::MAX as int + 1),
        forall|s: int|
            0 <= s < old(reading).counters().len() && s != shard
                ==> #[trigger] final(reading).counters()[s] == old(reading).counters()[s],
{
    let count = old(reading).counters()[shard];
    law_reads_in_the_callers_zone(
        *old(reading),
        topology,
        shard,
        i,
        candidates.read_slot(),
        count as nat,
    );
    law_counting(count);
}

/// A read of a slot that no shard has goes to the first replica, and no count changes.
pub proof fn law_reads_of_unknown_slots<'a>(
    taking: &mut ZonalReadRoutingStrategy,
    topology: ClusterTopology,
    reading: &mut ZonalReadRoutingStrategy,
    candidates: &ReadCandidates<'a>,
    node: &'a NodeAddress,
)
    requires
        call_ensures(ZonalReadRoutingStrategy::on_topology_changed, (taking, topology), ()),
        old(reading).slots() == final(taking).slots(),
        call_ensures(ZonalReadRoutingStrategy::route_read, (reading, candidates), node),
        topology.parts().len() <= usize::MAX,
        slots_apart(topology.parts()),
        forall|s: int, j: int|
            0 <= s < topology.parts().len() && 0 <= j < topology.parts()[s].ranges().len() ==> !((
            #[trigger] topology.parts()[s].ranges()[j]).0 <= candidates.read_slot()
                <= topology.parts()[s].ranges()[j].1),
    ensures
        candidates.readers().len() > 0,
        *node == candidates.readers()[0],
        final(reading).counters() == old(reading).counters(),
{
    law_shards_of_slots(topology.parts(), 0, 0, candidates.read_slot());
}

/// Taking over a topology begins every count at zero, one for each shard.
pub proof fn law_counting_begins_again(
    taking: &mut ZonalReadRoutingStrategy,
    topology: ClusterTopology,
)
    requires
        call_ensures(ZonalReadRoutingStrategy::on_topology_changed, (taking, topology), ()),
    ensures
        final(taking).counters().len() == topology.parts().len(),
        final(taking).local().len() == topology.parts().len(),
        forall|s: int|
            0 <= s < topology.parts().len() ==> #[trigger] final(taking).counters()[s] == 0,
{
}

/// Whether `positions` are the indices of those of `replicas` that are in `local`, in order.
pub open spec fn are_local_positions(
    positions: Seq<int>,
    replicas: Seq<NodeAddress>,
    local: Set<NodeKey>,
) -> bool {
    &&& forall|a: int, b: int|
        0 <= a < b < positions.len() ==> #[trigger] positions[a] < #[trigger] positions[b]
    &&& forall|a: int|
        0 <= a < positions.len() ==> 0 <= #[trigger] positions[a] < replicas.len()
            && local.contains(replicas[positions[a]]@)
    &&& forall|p: int|
        0 <= p < replicas.len() && local.contains((#[trigger] replicas[p])@) ==> positions.contains(
            p,
        )
}

proof fn lemma_local_positions(replicas: Seq<NodeAddress>, local: Set<NodeKey>) -> (positions: Seq<
    int,
>)
    ensures
        are_local_positions(positions, replicas, local),
        positions.len() == nodes_in(replicas, local).len(),
        forall|a: int|
            0 <= a < positions.len() ==> nodes_in(replicas, local)[a]
                == replicas[#[trigger] positions[a]],
    decreases replicas.len(),
{
    reveal(Seq::filter);
    if replicas.len() == 0 {
        Seq::empty()
    } else {
        let before = replicas.drop_last();
        let earlier = lemma_local_positions(before, local);
        let last = replicas.len() - 1;
        let positions = if local.contains(replicas.last()@) {
            earlier.push(last)
        } else {
            earlier
        };
        assert forall|a: int| 0 <= a < positions.len() implies 0 <= #[trigger] positions[a]
            < replicas.len() && local.contains(replicas[positions[a]]@) by {
            if a < earlier.len() {
                assert(before[earlier[a]] == replicas[earlier[a]]);
            }
        }
        assert forall|p: int|
            0 <= p < replicas.len() && local.contains(
                (#[trigger] replicas[p])@,
            ) implies positions.contains(p) by {
            if p < last {
                assert(before[p] == replicas[p]);
                assert(earlier.contains(p));
                let a = choose|a: int| 0 <= a < earlier.len() && earlier[a] == p;
                assert(positions[a] == p);
            } else {
                assert(positions[earlier.len() as int] == p);
            }
        }
        assert forall|a: int| 0 <= a < positions.len() implies nodes_in(replicas, local)[a]
            == replicas[#[trigger] positions[a]] by {
            if a < earlier.len() {
                assert(before[earlier[a]] == replicas[earlier[a]]);
            }
        }
        positions
    }
}

/// Reads go round the local replicas in their order, one after the other, and round all of
/// the replicas where none is local.
pub proof fn law_turns(replicas: Seq<NodeAddress>, local: Set<NodeKey>, count: nat) -> (positions:
    Seq<int>)
    requires
        replicas.len() > 0,
    ensures
        are_local_positions(positions, replicas, local),
        positions.len() > 0 ==> replica_in_turn(replicas, local, count)
            == replicas[positions[count as int % positions.len() as int]],
        positions.len() == 0 ==> replica_in_turn(replicas, local, count)
            == replicas[count as int % replicas.len() as int],
{
    let positions = lemma_local_positions(replicas, local);
    if positions.len() > 0 {
        lemma_mod_bound(count as int, positions.len() as int);
    }
    positions
}

/// Once `taking` has taken over a topology in which no slot is in two ranges, the reads of a
/// shard go round those of its replicas that have a known zone that is the caller's, in their
/// order, and round all of them where there are none.
pub proof fn law_routed_turns<'a>(
    taking: &mut ZonalReadRoutingStrategy,
    topology: ClusterTopology,
    reading: &mut ZonalReadRoutingStrategy,
    candidates: &ReadCandidates<'a>,
    node: &'a NodeAddress,
    shard: int,
    i: int,
) -> (positions: Seq<int>)
    requires
        call_ensures(ZonalReadRoutingStrategy::on_topology_changed, (taking, topology), ()),
        old(reading).slots() == final(taking).slots(),
        old(reading).local() == final(taking).local(),
        call_ensures(ZonalReadRoutingStrategy::route_read, (reading, candidates), node),
        topology.parts().len() <= usize::MAX,
        slots_apart(topology.parts()),
        0 <= shard < topology.parts().len(),
        0 <= i < topology.parts()[shard].ranges().len(),
        topology.parts()[shard].ranges()[i].0 <= candidates.read_slot()
            <= topology.parts()[shard].ranges()[i].1,
        candidates.readers() == topology.parts()[shard].readers(),
    ensures
        forall|a: int, b: int|
            0 <= a < b < positions.len() ==> #[trigger] positions[a] < #[trigger] positions[b],
        forall|a: int|
            0 <= a < positions.len() ==> 0 <= #[trigger] positions[a] < candidates.readers().len()
                && topology.node_zones().contains_key(candidates.readers()[positions[a]]@)
                && topology.node_zones()[candidates.readers()[positions[a]]@] == old(taking).zone(),
        forall|p: int|
            0 <= p < candidates.readers().len() && topology.node_zones().contains_key(
                (#[trigger] candidates.readers()[p])@,
            ) && topology.node_zones()[candidates.readers()[p]@] == old(taking).zone()
                ==> positions.contains(p),
        positions.len() > 0 ==> *node == candidates.readers()[positions[old(
            reading
        ).counters()[shard] as int % positions.len() as int]],
        positions.len() == 0 ==> *node == candidates.readers()[old(
            reading
        ).counters()[shard] as int % candidates.readers().len() as int],
{
    let zones = topology.node_zones();
    let zone = old(taking).zone();
    let replicas = candidates.readers();
    let local = old(reading).local()[shard];
    let count = old(reading).counters()[shard];
    law_shards_of_slots(topology.parts(), shard, i, candidates.read_slot());
    assert(local == local_keys(replicas, zones, zone));
    let positions = law_turns(replicas, local, count as nat);
    assert forall|a: int| 0 <= a < positions.len() implies 0 <= #[trigger] positions[a]
        < replicas.len() && zones.contains_key(replicas[positions[a]]@)
        && zones[replicas[positions[a]]@] == zone by {
        law_local_nodes(replicas, zones, zone, replicas[positions[a]]@);
    }
    assert forall|p: int|
        0 <= p < replicas.len() && zones.contains_key((#[trigger] replicas[p])@)
            && zones[replicas[p]@] == zone implies positions.contains(p) by {
        law_local_nodes(replicas, zones, zone, replicas[p]@);
        assert(local.contains(replicas[p]@));
    }
    positions
}

/// Counting goes up by one, and begins again at zero past the greatest number.
pub proof fn law_counting(count: usize)
    ensures
        next_count(count) as int == (count as int + 1) % (usize::MAX as int + 1),
{
    if count < usize::MAX {
        lemma_small_mod((count + 1) as nat, (usize::MAX + 1) as nat);
    } else {
        assert((usize::MAX as int + 1) % (usize::MAX as int + 1) == 0) by {
            vstd::arithmetic::div_mod::lemma_mod_self_0(usize::MAX as int + 1);
        }
    }
}

/// The nodes to connect to early are the primaries, the replicas with a known zone that is the
/// caller's, and all replicas of shards that have none of those; no other node is.
pub proof fn law_nodes_to_connect_to(
    shards: Seq<Shard>,
    zones: Map<NodeKey, Seq<char>>,
    zone: Seq<char>,
    key: NodeKey,
)
    ensures
        forall|s: int|
            0 <= s < shards.len() ==> eager_nodes(shards, zones, zone).contains(
                (#[trigger] shards[s]).writer()@,
            ),
        forall|s: int, r: int|
            0 <= s < shards.len() && 0 <= r < shards[s].readers().len() && zones.contains_key(
                (#[trigger] shards[s].readers()[r])@,
            ) && zones[shards[s].readers()[r]@] == zone ==> eager_nodes(
                shards,
                zones,
                zone,
            ).contains(shards[s].readers()[r]@),
        forall|s: int, r: int|
            0 <= s < shards.len() && 0 <= r < shards[s].readers().len() && (forall|q: int|
                0 <= q < shards[s].readers().len() ==> !zones.contains_key(
                    (#[trigger] shards[s].readers()[q])@,
                ) || zones[shards[s].readers()[q]@] != zone) ==> eager_nodes(
                shards,
                zones,
                zone,
            ).contains((#[trigger] shards[s].readers()[r])@),
        eager_nodes(shards, zones, zone).contains(key) ==> exists|s: int|
            0 <= s < shards.len() && {
                ||| (#[trigger] shards[s]).writer()@ == key
                ||| zones.contains_key(key) && zones[key] == zone && exists|r: int|
                    0 <= r < shards[s].readers().len() && (#[trigger] shards[s].readers()[r])@
                        == key
                ||| (forall|q: int|
                    0 <= q < shards[s].readers().len() ==> !zones.contains_key(
                        (#[trigger] shards[s].readers()[q])@,
                    ) || zones[shards[s].readers()[q]@] != zone) && exists|r: int|
                    0 <= r < shards[s].readers().len() && (#[trigger] shards[s].readers()[r])@
                        == key
            },
{
    assert forall|s: int| 0 <= s < shards.len() implies eager_nodes(shards, zones, zone).contains(
        (#[trigger] shards[s]).writer()@,
    ) by {
        assert(eager_nodes_of_shard(shards[s], zones, zone).contains(shards[s].writer()@));
    }
    assert forall|s: int, r: int|
        0 <= s < shards.len() && 0 <= r < shards[s].readers().len() && zones.contains_key(
            (#[trigger] shards[s].readers()[r])@,
        ) && zones[shards[s].readers()[r]@] == zone implies eager_nodes(
        shards,
        zones,
        zone,
    ).contains(shards[s].readers()[r]@) by {
        law_local_nodes(shards[s].readers(), zones, zone, shards[s].readers()[r]@);
        assert(eager_nodes_of_shard(shards[s], zones, zone).contains(shards[s].readers()[r]@));
    }
    assert forall|s: int, r: int|
        0 <= s < shards.len() && 0 <= r < shards[s].readers().len() && (forall|q: int|
            0 <= q < shards[s].readers().len() ==> !zones.contains_key(
                (#[trigger] shards[s].readers()[q])@,
            ) || zones[shards[s].readers()[q]@] != zone) implies eager_nodes(
        shards,
        zones,
        zone,
    ).contains((#[trigger] shards[s].readers()[r])@) by {
        assert forall|q: int| 0 <= q < shards[s].readers().len() implies !in_zone(
            zones,
            zone,
            (#[trigger] shards[s].readers()[q])@,
        ) by {}
        assert(eager_nodes_of_shard(shards[s], zones, zone).contains(shards[s].readers()[r]@));
    }
    if eager_nodes(shards, zones, zone).contains(key) {
        let s = choose|s: int|
            0 <= s < shards.len() && eager_nodes_of_shard(#[trigger] shards[s], zones, zone).contains(
                key,
            );
        let readers = shards[s].readers();
        if shards[s].writer()@ != key && !local_keys(readers, zones, zone).contains(key) {
            assert forall|q: int| 0 <= q < readers.len() implies !zones.contains_key(
                (#[trigger] readers[q])@,
            ) || zones[readers[q]@] != zone by {
                assert(!in_zone(zones, zone, readers[q]@));
            }
        } else if shards[s].writer()@ != key {
            law_local_nodes(readers, zones, zone, key);
        }
    }
}

/// A strategy asks to connect early to the primaries, to the replicas with a known zone that is
/// the caller's, to all replicas of shards that have none of those, and to no other node.
pub proof fn law_early_nodes(
    strategy: &ZonalReadRoutingStrategy,
    topology: &ClusterTopology,
    nodes: Option<NodeSet>,
    key: NodeKey,
)
    requires
        call_ensures(
            ZonalReadRoutingStrategy::eager_connection_nodes,
            (strategy, topology),
            nodes,
        ),
    ensures
        nodes is Some,
        forall|s: int|
            0 <= s < topology.parts().len() ==> nodes.unwrap()@.contains(
                (#[trigger] topology.parts()[s]).writer()@,
            ),
        forall|s: int, r: int|
            0 <= s < topology.parts().len() && 0 <= r < topology.parts()[s].readers().len() && (
            (topology.node_zones().contains_key((#[trigger] topology.parts()[s].readers()[r])@)
                && topology.node_zones()[topology.parts()[s].readers()[r]@] == strategy.zone()) || (
            forall|q: int|
                0 <= q < topology.parts()[s].readers().len()
                    ==> !topology.node_zones().contains_key(
                    (#[trigger] topology.parts()[s].readers()[q])@,
                ) || topology.node_zones()[topology.parts()[s].readers()[q]@] != strategy.zone()))
                ==> nodes.unwrap()@.contains(topology.parts()[s].readers()[r]@),
        nodes.unwrap()@.contains(key) ==> exists|s: int|
            0 <= s < topology.parts().len() && {
                ||| (#[trigger] topology.parts()[s]).writer()@ == key
                ||| topology.node_zones().contains_key(key) && topology.node_zones()[key]
                    == strategy.zone() && exists|r: int|
                    0 <= r < topology.parts()[s].readers().len() && (
                    #[trigger] topology.parts()[s].readers()[r])@ == key
                ||| (forall|q: int|
                    0 <= q < topology.parts()[s].readers().len()
                        ==> !topology.node_zones().contains_key(
                        (#[trigger] topology.parts()[s].readers()[q])@,
                    ) || topology.node_zones()[topology.parts()[s].readers()[q]@]
                        != strategy.zone()) && exists|r: int|
                    0 <= r < topology.parts()[s].readers().len() && (
                    #[trigger] topology.parts()[s].readers()[r])@ == key
            },
{
    law_nodes_to_connect_to(topology.parts(), topology.node_zones(), strategy.zone(), key);
}

} // verus!
