//! What slot range maps do, said of the ranges as they are walked.

use std::collections::BTreeMap;
use vstd::prelude::*;
use vstd::std_specs::cmp::PartialEqSpec;

use crate::slot_range_laws::{law_lookup, merged, non_overlapping};
use crate::slot_range_map::{
    comparable_values, covering_end, equal_values, expected_value, is_next_end, lemma_covering_end,
    lookup, same_option, with_ranges, SlotRangeMap,
};

verus! {

/// Whether `range` holds `slot`.
pub open spec fn in_range<V>(range: (u16, u16, V), slot: u16) -> bool {
    range.0 <= slot && slot <= range.1
}

/// A map is walked in the order of its ranges' ends, each of which occurs once, and lists its
/// ranges by their ends.
pub proof fn law_ranges_of_map<V>(map: SlotRangeMap<V>, end: u16)
    requires
        map.wf(),
    ensures
        forall|i: int, j: int|
            0 <= i < j < map.ranges().len() ==> (#[trigger] map.ranges()[i]).1 < (
            #[trigger] map.ranges()[j]).1,
        forall|i: int|
            0 <= i < map.ranges().len() && (#[trigger] map.ranges()[i]).1 == end
                ==> map@.contains_key(end) && map@[end].0 == map.ranges()[i].0 && map@[end].1
                == map.ranges()[i].2,
        map@.contains_key(end) ==> exists|i: int|
            0 <= i < map.ranges().len() && (#[trigger] map.ranges()[i]).1 == end,
{
}

proof fn lemma_next_end<V>(map: SlotRangeMap<V>, slot: u16, i: int)
    requires
        map.wf(),
        0 <= i < map.ranges().len(),
        slot <= map.ranges()[i].1,
        i > 0 ==> map.ranges()[i - 1].1 < slot,
    ensures
        is_next_end(map@, slot, map.ranges()[i].1),
        map@[map.ranges()[i].1] == (map.ranges()[i].0, map.ranges()[i].2),
{
    let ranges = map.ranges();
    let end = ranges[i].1;
    assert(map@.contains_key(end));
    assert forall|other: u16| #[trigger]
        map@.contains_key(other) && slot <= other implies end <= other by {
        let j = choose|j: int| 0 <= j < ranges.len() && (#[trigger] ranges[j]).1 == other;
        if j < i {
            assert(ranges[j].1 <= ranges[i - 1].1);
        } else if j > i {
            assert(ranges[i].1 < ranges[j].1);
        }
    }
}

proof fn lemma_not_covered<V>(map: SlotRangeMap<V>, slot: u16)
    requires
        map.wf(),
        forall|i: int|
            0 <= i < map.ranges().len() && (i > 0 ==> map.ranges()[i - 1].1 < slot)
                ==> !in_range(#[trigger] map.ranges()[i], slot),
    ensures
        covering_end(map@, slot) is None,
{
    let ranges = map.ranges();
    assert forall|end: u16| #[trigger] is_next_end(map@, slot, end) implies slot < map@[end].0 by {
        let i = choose|i: int| 0 <= i < ranges.len() && (#[trigger] ranges[i]).1 == end;
        if i > 0 {
            assert(ranges[i - 1].1 < ranges[i].1);
            assert(map@.contains_key(ranges[i - 1].1));
        }
        assert(!in_range(ranges[i], slot));
        assert(map@[end] == (ranges[i].0, ranges[i].2));
    }
}

/// A slot has the value of the first range that ends at or behind it, where that range holds
/// it, and none otherwise.
pub proof fn law_get<V>(map: &SlotRangeMap<V>, slot: u16, value: Option<&V>)
    requires
        map.wf(),
        call_ensures(SlotRangeMap::<V>::get, (map, slot), value),
    ensures
        forall|i: int|
            0 <= i < map.ranges().len() && in_range(#[trigger] map.ranges()[i], slot) && (i > 0
                ==> map.ranges()[i - 1].1 < slot) ==> value == Some(&map.ranges()[i].2),
        (forall|i: int|
            0 <= i < map.ranges().len() && (i > 0 ==> map.ranges()[i - 1].1 < slot)
                ==> !in_range(#[trigger] map.ranges()[i], slot)) ==> value is None,
{
    assert forall|i: int|
        0 <= i < map.ranges().len() && in_range(#[trigger] map.ranges()[i], slot) && (i > 0
            ==> map.ranges()[i - 1].1 < slot) implies value == Some(
        &map.ranges()[i].2,
    ) by {
        lemma_next_end(*map, slot, i);
        lemma_covering_end(map@, slot, map.ranges()[i].1);
    }
    if forall|i: int|
        0 <= i < map.ranges().len() && (i > 0 ==> map.ranges()[i - 1].1 < slot) ==> !in_range(
            #[trigger] map.ranges()[i],
            slot,
        ) {
        lemma_not_covered(*map, slot);
    }
}

/// The bounds that are given for a slot are those of the first range that ends at or behind
/// it, where that range holds it.
pub proof fn law_range_containing<V>(
    map: &SlotRangeMap<V>,
    slot: u16,
    bounds: Option<(u16, u16)>,
)
    requires
        map.wf(),
        call_ensures(SlotRangeMap::<V>::range_containing, (map, slot), bounds),
    ensures
        forall|i: int|
            0 <= i < map.ranges().len() && in_range(#[trigger] map.ranges()[i], slot) && (i > 0
                ==> map.ranges()[i - 1].1 < slot) ==> bounds == Some(
                (map.ranges()[i].0, map.ranges()[i].1),
            ),
        (forall|i: int|
            0 <= i < map.ranges().len() && (i > 0 ==> map.ranges()[i - 1].1 < slot)
                ==> !in_range(#[trigger] map.ranges()[i], slot)) ==> bounds is None,
{
    assert forall|i: int|
        0 <= i < map.ranges().len() && in_range(#[trigger] map.ranges()[i], slot) && (i > 0
            ==> map.ranges()[i - 1].1 < slot) implies bounds == Some(
        (map.ranges()[i].0, map.ranges()[i].1),
    ) by {
        lemma_next_end(*map, slot, i);
        lemma_covering_end(map@, slot, map.ranges()[i].1);
    }
    if forall|i: int|
        0 <= i < map.ranges().len() && (i > 0 ==> map.ranges()[i - 1].1 < slot) ==> !in_range(
            #[trigger] map.ranges()[i],
            slot,
        ) {
        lemma_not_covered(*map, slot);
    }
}

/// Inserting a range puts it in, in place of one with the same end, and keeps all others.
pub proof fn law_insert_range<V>(
    map: &mut SlotRangeMap<V>,
    start: u16,
    end: u16,
    value: V,
    i: int,
)
    requires
        old(map).wf(),
        call_ensures(SlotRangeMap::<V>::insert, (map, start, end, value), ()),
    ensures
        exists|j: int|
            0 <= j < final(map).ranges().len() && #[trigger] final(map).ranges()[j] == (
                start,
                end,
                value,
            ),
        0 <= i < old(map).ranges().len() && old(map).ranges()[i].1 != end ==> final(
            map
        ).ranges().contains(old(map).ranges()[i]),
        0 <= i < final(map).ranges().len() && final(map).ranges()[i].1 != end ==> old(
            map
        ).ranges().contains(final(map).ranges()[i]),
{
    let before = old(map).ranges();
    let after = final(map).ranges();
    assert(final(map)@.contains_key(end));
    let j = choose|j: int| 0 <= j < after.len() && (#[trigger] after[j]).1 == end;
    assert(after[j] == (start, end, value));
    if 0 <= i < before.len() && before[i].1 != end {
        let other = before[i].1;
        assert(old(map)@.contains_key(other));
        assert(final(map)@.contains_key(other));
        let k = choose|k: int| 0 <= k < after.len() && (#[trigger] after[k]).1 == other;
        assert(after[k] == before[i]);
    }
    if 0 <= i < after.len() && after[i].1 != end {
        let other = after[i].1;
        assert(final(map)@.contains_key(other));
        assert(old(map)@.contains_key(other));
        let k = choose|k: int| 0 <= k < before.len() && (#[trigger] before[k]).1 == other;
        assert(before[k] == after[i]);
    }
}

/// Removing a range by its end takes it out and hands back its start and value, and keeps all
/// others; where no range has that end, nothing changes.
pub proof fn law_remove_by_end<V>(
    map: &mut SlotRangeMap<V>,
    end: u16,
    removed: Option<(u16, V)>,
    i: int,
)
    requires
        old(map).wf(),
        call_ensures(SlotRangeMap::<V>::remove_range, (map, end), removed),
    ensures
        0 <= i < old(map).ranges().len() && old(map).ranges()[i].1 == end ==> removed == Some(
            (old(map).ranges()[i].0, old(map).ranges()[i].2),
        ),
        (forall|j: int| 0 <= j < old(map).ranges().len() ==> (#[trigger] old(map).ranges()[j]).1
            != end) ==> removed is None,
        0 <= i < old(map).ranges().len() && old(map).ranges()[i].1 != end ==> final(
            map
        ).ranges().contains(old(map).ranges()[i]),
        0 <= i < final(map).ranges().len() ==> final(map).ranges()[i].1 != end && old(
            map
        ).ranges().contains(final(map).ranges()[i]),
{
    let before = old(map).ranges();
    let after = final(map).ranges();
    if 0 <= i < before.len() {
        let other = before[i].1;
        assert(old(map)@.contains_key(other));
        if other != end {
            assert(final(map)@.contains_key(other));
            let k = choose|k: int| 0 <= k < after.len() && (#[trigger] after[k]).1 == other;
            assert(after[k] == before[i]);
        }
    }
    if 0 <= i < after.len() {
        let other = after[i].1;
        assert(final(map)@.contains_key(other));
        assert(old(map)@.contains_key(other));
        let k = choose|k: int| 0 <= k < before.len() && (#[trigger] before[k]).1 == other;
        assert(before[k] == after[i]);
    }
}

/// Whether every range holds a slot, and each begins behind the one before it.
pub open spec fn in_order<V>(ranges: Seq<(u16, u16, V)>) -> bool {
    &&& forall|i: int| 0 <= i < ranges.len() ==> (#[trigger] ranges[i]).0 <= ranges[i].1
    &&& forall|i: int, j: int|
        0 <= i < j < ranges.len() ==> (#[trigger] ranges[i]).1 < (#[trigger] ranges[j]).0
}

proof fn lemma_in_order<V>(map: SlotRangeMap<V>)
    requires
        map.wf(),
    ensures
        in_order(map.ranges()) <==> non_overlapping(map@),
{
    let ranges = map.ranges();
    if in_order(ranges) {
        assert forall|end: u16| #[trigger] map@.contains_key(end) implies map@[end].0 <= end by {
            let i = choose|i: int| 0 <= i < ranges.len() && (#[trigger] ranges[i]).1 == end;
            assert(map@[end].0 == ranges[i].0);
        }
        assert forall|a: u16, b: u16|
            #[trigger] map@.contains_key(a) && #[trigger] map@.contains_key(b) && a < b implies a
            < map@[b].0 by {
            let i = choose|i: int| 0 <= i < ranges.len() && (#[trigger] ranges[i]).1 == a;
            let j = choose|j: int| 0 <= j < ranges.len() && (#[trigger] ranges[j]).1 == b;
            assert(map@[b].0 == ranges[j].0);
            if j < i {
                assert(ranges[j].1 < ranges[i].1);
            }
        }
    }
    if non_overlapping(map@) {
        assert forall|i: int| 0 <= i < ranges.len() implies (#[trigger] ranges[i]).0
            <= ranges[i].1 by {
            assert(map@.contains_key(ranges[i].1));
        }
        assert forall|i: int, j: int| 0 <= i < j < ranges.len() implies (#[trigger] ranges[i]).1 < (
        #[trigger] ranges[j]).0 by {
            assert(map@.contains_key(ranges[i].1) && map@.contains_key(ranges[j].1));
        }
    }
}

proof fn lemma_held<V>(map: SlotRangeMap<V>, slot: u16, i: int)
    requires
        map.wf(),
        in_order(map.ranges()),
        0 <= i < map.ranges().len(),
        in_range(map.ranges()[i], slot),
    ensures
        lookup(map@, slot) == Some(map.ranges()[i].2),
{
    lemma_in_order(map);
    law_lookup(map@, slot);
    assert(map@.contains_key(map.ranges()[i].1));
}

proof fn lemma_lookup_held<V>(map: SlotRangeMap<V>, slot: u16) -> (i: int)
    requires
        map.wf(),
        in_order(map.ranges()),
        lookup(map@, slot) is Some,
    ensures
        0 <= i < map.ranges().len(),
        in_range(map.ranges()[i], slot),
        lookup(map@, slot) == Some(map.ranges()[i].2),
{
    let end = covering_end(map@, slot).unwrap();
    assert(is_next_end(map@, slot, end) && map@[end].0 <= slot);
    let i = choose|i: int| 0 <= i < map.ranges().len() && (#[trigger] map.ranges()[i]).1 == end;
    lemma_held(map, slot, i);
    i
}

/// Replacing points where `==` is an equivalence that clones keep, and the ranges are in
/// order: the ranges are in order again. A slot that has a point has a value equal to it; any
/// other slot that had a value has one equal to that; no other slot has any. Ranges that
/// touch have values that differ.
pub proof fn law_points_replaced<V: Clone + PartialEq>(
    map: &mut SlotRangeMap<V>,
    points: BTreeMap<u16, V>,
    slot: u16,
    i: int,
)
    requires
        V::obeys_eq_spec(),
        forall|a: V| #[trigger] a.eq_spec(&a),
        forall|a: V, b: V| #[trigger] a.eq_spec(&b) ==> b.eq_spec(&a),
        forall|a: V, b: V, c: V| #[trigger]
            a.eq_spec(&b) && #[trigger] b.eq_spec(&c) ==> a.eq_spec(&c),
        forall|a: V, b: V| #[trigger] cloned(a, b) ==> a.eq_spec(&b),
        old(map).wf(),
        in_order(old(map).ranges()),
        !points@.is_empty(),
        call_ensures(SlotRangeMap::<V>::replace_points, (map, points), ()),
    ensures
        in_order(final(map).ranges()),
        points@.contains_key(slot) ==> exists|j: int|
            0 <= j < final(map).ranges().len() && in_range(#[trigger] final(map).ranges()[j], slot)
                && final(map).ranges()[j].2.eq_spec(&points@[slot]),
        !points@.contains_key(slot) && 0 <= i < old(map).ranges().len() && in_range(
            old(map).ranges()[i],
            slot,
        ) ==> exists|j: int|
            0 <= j < final(map).ranges().len() && in_range(#[trigger] final(map).ranges()[j], slot)
                && final(map).ranges()[j].2.eq_spec(&old(map).ranges()[i].2),
        !points@.contains_key(slot) && (forall|k: int|
            0 <= k < old(map).ranges().len() ==> !in_range(
                #[trigger] old(map).ranges()[k],
                slot,
            )) ==> forall|j: int|
            0 <= j < final(map).ranges().len() ==> !in_range(
                #[trigger] final(map).ranges()[j],
                slot,
            ),
        0 <= i < final(map).ranges().len() - 1 && final(map).ranges()[i].1 + 1 == final(
            map
        ).ranges()[i + 1].0 ==> !final(map).ranges()[i].2.eq_spec(&final(map).ranges()[i + 1].2),
{
    let before = *old(map);
    let after = *final(map);
    let same = equal_values::<V>();
    assert forall|a: V| #[trigger] same(a, a) by {
        assert(a.eq_spec(&a));
    }
    assert forall|a: V, b: V| #[trigger] same(a, b) implies same(b, a) by {
        assert(a.eq_spec(&b));
    }
    assert forall|a: V, b: V, c: V| #[trigger] same(a, b) && #[trigger] same(b, c) implies same(
        a,
        c,
    ) by {
        assert(a.eq_spec(&b) && b.eq_spec(&c));
    }
    assert(comparable_values::<V>());
    lemma_in_order(before);
    lemma_in_order(after);
    assert(non_overlapping(after@) && merged(after@, same));
    assert(same_option(lookup(after@, slot), expected_value(before@, points@, slot), same));
    if points@.contains_key(slot) {
        let j = lemma_lookup_held(after, slot);
        assert(same(after.ranges()[j].2, points@[slot]));
    } else if 0 <= i < before.ranges().len() && in_range(before.ranges()[i], slot) {
        lemma_held(before, slot, i);
        let j = lemma_lookup_held(after, slot);
        assert(same(after.ranges()[j].2, before.ranges()[i].2));
    }
    if !points@.contains_key(slot) && forall|k: int|
        0 <= k < before.ranges().len() ==> !in_range(#[trigger] before.ranges()[k], slot) {
        assert(lookup(before@, slot) is None) by {
            if lookup(before@, slot) is Some {
                let k = lemma_lookup_held(before, slot);
                assert(!in_range(before.ranges()[k], slot));
            }
        }
        assert forall|j: int| 0 <= j < after.ranges().len() implies !in_range(
            #[trigger] after.ranges()[j],
            slot,
        ) by {
            if in_range(after.ranges()[j], slot) {
                lemma_held(after, slot, j);
            }
        }
    }
    if 0 <= i < after.ranges().len() - 1 && after.ranges()[i].1 + 1 == after.ranges()[i + 1].0 {
        let a = after.ranges()[i].1;
        let b = after.ranges()[i + 1].1;
        assert(after@.contains_key(a) && after@.contains_key(b));
        assert(!same(after@[a].1, after@[b].1));
    }
}

/// Without points nothing changes.
pub proof fn law_no_points<V: Clone + PartialEq>(
    map: &mut SlotRangeMap<V>,
    points: BTreeMap<u16, V>,
)
    requires
        points@.is_empty(),
        call_ensures(SlotRangeMap::<V>::replace_points, (map, points), ()),
    ensures
        final(map)@ == old(map)@,
{
}

/// A new map and a cleared one have no ranges.
pub proof fn law_maps_without_ranges<V>(map: SlotRangeMap<V>, cleared: &mut SlotRangeMap<V>)
    requires
        call_ensures(SlotRangeMap::<V>::new, (), map),
        call_ensures(SlotRangeMap::<V>::clear, (cleared,), ()),
    ensures
        map.ranges().len() == 0,
        final(cleared).ranges().len() == 0,
{
    if map.ranges().len() > 0 {
        assert(map@.contains_key(map.ranges()[0].1));
    }
    if final(cleared).ranges().len() > 0 {
        assert(final(cleared)@.contains_key(final(cleared).ranges()[0].1));
    }
}

/// The range with the least end at or behind a slot decides the slot, whatever other ranges
/// there are: its value is the slot's where it begins at or before the slot, and otherwise the
/// slot has none. Behind the last end no slot has a value.
pub proof fn law_least_end_decides<V>(map: Map<u16, (u16, V)>, slot: u16, end: u16)
    ensures
        map.contains_key(end) && slot <= end && (forall|other: u16| #[trigger]
            map.contains_key(other) && slot <= other ==> end <= other) ==> lookup(map, slot)
            == if map[end].0 <= slot {
            Some(map[end].1)
        } else {
            None
        },
        (forall|other: u16| #[trigger] map.contains_key(other) ==> other < slot) ==> lookup(
            map,
            slot,
        ) is None,
{
    if is_next_end(map, slot, end) {
        lemma_covering_end(map, slot, end);
    }
}

/// Ranges that are entered one after the other are found by their ends; of several with one
/// end the last counts, and what the map had at another end stays.
pub proof fn law_entered_ranges<V>(
    map: Map<u16, (u16, V)>,
    ranges: Seq<(u16, u16, V)>,
    end: u16,
    i: int,
)
    ensures
        0 <= i < ranges.len() && ranges[i].1 == end && (forall|j: int|
            i < j < ranges.len() ==> (#[trigger] ranges[j]).1 != end) ==> with_ranges(
            map,
            ranges,
        ).contains_key(end) && with_ranges(map, ranges)[end].0 == ranges[i].0 && with_ranges(
            map,
            ranges,
        )[end].1 == ranges[i].2,
        (forall|j: int| 0 <= j < ranges.len() ==> (#[trigger] ranges[j]).1 != end) ==> (
        with_ranges(map, ranges).contains_key(end) <==> map.contains_key(end)) && (
        map.contains_key(end) ==> with_ranges(map, ranges)[end] == map[end]),
    decreases ranges.len(),
{
    if ranges.len() > 0 {
        let before = ranges.drop_last();
        law_entered_ranges(map, before, end, i);
        assert(ranges[ranges.len() - 1] == ranges.last());
        if 0 <= i < before.len() {
            assert(before[i] == ranges[i]);
        }
        if forall|j: int| i < j < ranges.len() ==> (#[trigger] ranges[j]).1 != end {
            assert forall|j: int| i < j < before.len() && 0 <= i implies (
            #[trigger] before[j]).1 != end by {
                assert(before[j] == ranges[j]);
            }
        }
        if forall|j: int| 0 <= j < ranges.len() ==> (#[trigger] ranges[j]).1 != end {
            assert forall|j: int| 0 <= j < before.len() implies (#[trigger] before[j]).1 != end by {
                assert(before[j] == ranges[j]);
            }
        }
    }
}

} // verus!
