//! A map from ranges of slots to values.

use std::collections::BTreeMap;
use vstd::prelude::*;
use vstd::std_specs::cmp::{OrdSpec, PartialEqSpec};
use vstd::std_specs::iter::IteratorSpec;

use crate::slot_range_laws::{lemma_pass, merged, non_overlapping};

verus! {

/// The range of `map` that decides the slot `slot`: the one with the least end
/// at or after `slot`.
pub open spec fn is_next_end<V>(map: Map<u16, (u16, V)>, slot: u16, end: u16) -> bool {
    &&& map.contains_key(end)
    &&& slot <= end
    &&& forall|other: u16| #[trigger] map.contains_key(other) && slot <= other ==> end <= other
}

/// The end of the range that `slot` lies in, if it lies in one.
pub open spec fn covering_end<V>(map: Map<u16, (u16, V)>, slot: u16) -> Option<u16> {
    if exists|end: u16| #[trigger] is_next_end(map, slot, end) && map[end].0 <= slot {
        Some(choose|end: u16| #[trigger] is_next_end(map, slot, end) && map[end].0 <= slot)
    } else {
        None
    }
}

/// The value that `map` gives to `slot`.
pub open spec fn lookup<V>(map: Map<u16, (u16, V)>, slot: u16) -> Option<V> {
    match covering_end(map, slot) {
        Some(end) => Some(map[end].1),
        None => None,
    }
}

/// Whether the ends of `ranges` rise from each range to the next.
pub open spec fn sorted_by_end<V>(ranges: Seq<(u16, u16, V)>) -> bool {
    forall|i: int, j: int|
        0 <= i < j < ranges.len() ==> (#[trigger] ranges[i]).1 < (#[trigger] ranges[j]).1
}

/// Whether `ranges` are the ranges of `map`, in the order of their ends.
pub open spec fn lists<V>(ranges: Seq<(u16, u16, V)>, map: Map<u16, (u16, V)>) -> bool {
    &&& sorted_by_end(ranges)
    &&& forall|i: int|
        0 <= i < ranges.len() ==> map.contains_key((#[trigger] ranges[i]).1) && map[ranges[i].1]
            == (ranges[i].0, ranges[i].2)
    &&& forall|end: u16| #[trigger]
        map.contains_key(end) ==> exists|i: int|
            0 <= i < ranges.len() && (#[trigger] ranges[i]).1 == end
}

/// The map with every range of `ranges` entered, in order, into `map`.
pub open spec fn with_ranges<V>(
    map: Map<u16, (u16, V)>,
    ranges: Seq<(u16, u16, V)>,
) -> Map<u16, (u16, V)>
    decreases ranges.len(),
{
    if ranges.len() == 0 {
        map
    } else {
        with_ranges(map, ranges.drop_last()).insert(
            ranges.last().1,
            (ranges.last().0, ranges.last().2),
        )
    }
}

/// Whether the ranges hold at least one slot each and lie apart, in slot order.
pub open spec fn disjoint<V>(ranges: Seq<(u16, u16, V)>) -> bool {
    &&& forall|i: int| 0 <= i < ranges.len() ==> (#[trigger] ranges[i]).0 <= ranges[i].1
    &&& forall|i: int, j: int|
        0 <= i < j < ranges.len() ==> (#[trigger] ranges[i]).1 < (#[trigger] ranges[j]).0
}

/// Whether no two ranges that touch have values that are the same by `same`.
pub open spec fn coalesced<V>(ranges: Seq<(u16, u16, V)>, same: spec_fn(V, V) -> bool) -> bool {
    forall|i: int, j: int|
        0 <= i < j < ranges.len() && (#[trigger] ranges[i]).1 + 1 == (#[trigger] ranges[j]).0
            ==> !same(ranges[i].2, ranges[j].2)
}

/// The entries of `points` below the slot `limit`, in slot order.
pub open spec fn points_below<V>(points: Map<u16, V>, limit: nat) -> Seq<(u16, V)>
    decreases limit,
{
    if limit == 0 {
        Seq::empty()
    } else {
        let slot = (limit - 1) as u16;
        let rest = points_below(points, (limit - 1) as nat);
        if points.contains_key(slot) {
            rest.push((slot, points[slot]))
        } else {
            rest
        }
    }
}

/// The entries of `points` in slot order.
pub open spec fn sorted_points<V>(points: Map<u16, V>) -> Seq<(u16, V)> {
    points_below(points, 0x1_0000)
}

/// The start of the first range, where there is one.
pub open spec fn first_start<V>(ranges: Seq<(u16, u16, V)>) -> int {
    if ranges.len() == 0 {
        0
    } else {
        ranges[0].0 as int
    }
}

/// The range `[from, end]` with `value`, unless it holds no slot.
pub open spec fn span<V>(from: int, end: int, value: V) -> Seq<(u16, u16, V)> {
    if from <= end {
        seq![(from as u16, end as u16, value)]
    } else {
        Seq::empty()
    }
}

/// `ranges` with `points` cut into them, in one pass over both: every point is a
/// range of its own, and a range is cut at the points in it. Of the first range
/// only the slots at or after `from` are left to do.
pub open spec fn pieces<V>(
    ranges: Seq<(u16, u16, V)>,
    from: int,
    points: Seq<(u16, V)>,
) -> Seq<(u16, u16, V)>
    decreases ranges.len(), points.len(),
{
    if ranges.len() == 0 {
        points.map_values(|point: (u16, V)| (point.0, point.0, point.1))
    } else if points.len() > 0 && points[0].0 < ranges[0].0 {
        seq![(points[0].0, points[0].0, points[0].1)] + pieces(ranges, from, points.drop_first())
    } else if points.len() > 0 && points[0].0 <= ranges[0].1 {
        span(from, points[0].0 - 1, ranges[0].2) + (seq![(points[0].0, points[0].0, points[0].1)]
            + pieces(ranges, points[0].0 + 1, points.drop_first()))
    } else {
        span(from, ranges[0].1 as int, ranges[0].2) + pieces(
            ranges.drop_first(),
            first_start(ranges.drop_first()),
            points,
        )
    }
}

/// Whether `next` begins right behind the last of `joined`.
pub open spec fn touches<V>(joined: Seq<(u16, u16, V)>, next: (u16, u16, V)) -> bool {
    joined.len() > 0 && joined.last().1 + 1 == next.0
}

/// `joined` with `next` behind it, or with its last range grown to the end of `next` where
/// the two touch and are to be one. A range that grows keeps its value.
pub open spec fn append_range<V>(
    joined: Seq<(u16, u16, V)>,
    next: (u16, u16, V),
    as_one: bool,
) -> Seq<(u16, u16, V)> {
    if touches(joined, next) && as_one {
        joined.drop_last().push((joined.last().0, next.1, joined.last().2))
    } else {
        joined.push(next)
    }
}

/// `cut` with touching ranges joined where `answers` has it so: the answer for a range says
/// whether its value equals that of the range joined so far before it.
pub open spec fn joined<V>(cut: Seq<(u16, u16, V)>, answers: Seq<bool>) -> Seq<(u16, u16, V)>
    decreases cut.len(),
{
    if cut.len() == 0 {
        Seq::empty()
    } else {
        append_range(
            joined(cut.drop_last(), answers.drop_last()),
            cut.last(),
            answers[cut.len() - 1],
        )
    }
}

/// Whether `answers` are those that `same` gives, wherever ranges touch.
pub open spec fn answered_by<V>(
    cut: Seq<(u16, u16, V)>,
    answers: Seq<bool>,
    same: spec_fn(V, V) -> bool,
) -> bool
    decreases cut.len(),
{
    cut.len() > 0 ==> {
        let before = joined(cut.drop_last(), answers.drop_last());
        &&& answered_by(cut.drop_last(), answers.drop_last(), same)
        &&& touches(before, cut.last()) ==> answers[cut.len() - 1] == same(
            before.last().2,
            cut.last().2,
        )
    }
}

/// `cut` with touching ranges joined where their values are the same by `same`.
pub open spec fn joined_by<V>(
    cut: Seq<(u16, u16, V)>,
    same: spec_fn(V, V) -> bool,
) -> Seq<(u16, u16, V)>
    decreases cut.len(),
{
    if cut.len() == 0 {
        Seq::empty()
    } else {
        let before = joined_by(cut.drop_last(), same);
        append_range(before, cut.last(), same(before.last().2, cut.last().2))
    }
}

/// All of `ranges` with all of `points` cut into them.
pub open spec fn cut_at<V>(
    ranges: Seq<(u16, u16, V)>,
    points: Map<u16, V>,
) -> Seq<(u16, u16, V)> {
    pieces(ranges, first_start(ranges), sorted_points(points))
}

/// `ranges` with `points` cut into them and touching equal ranges joined.
pub open spec fn with_points<V>(
    ranges: Seq<(u16, u16, V)>,
    points: Map<u16, V>,
) -> Seq<(u16, u16, V)> {
    joined_by(cut_at(ranges, points), |a: V, b: V| a == b)
}

/// Whether `cut` are the ranges `expected`, with some of their values cloned.
pub open spec fn same_but_cloned<V: Clone>(
    expected: Seq<(u16, u16, V)>,
    cut: Seq<(u16, u16, V)>,
) -> bool {
    &&& cut.len() == expected.len()
    &&& forall|i: int|
        0 <= i < cut.len() ==> (#[trigger] cut[i]).0 == expected[i].0 && cut[i].1 == expected[i].1
            && (cut[i].2 == expected[i].2 || cloned(expected[i].2, cut[i].2))
}

/// Whether `cut` and `answers` are what a pass over `ranges` and `points` meets: the pieces,
/// with some values cloned, and the answers that `==` on `V` gives to its comparisons.
pub open spec fn pass_over<V: Clone + PartialEq>(
    ranges: Seq<(u16, u16, V)>,
    points: Map<u16, V>,
    cut: Seq<(u16, u16, V)>,
    answers: Seq<bool>,
) -> bool {
    &&& same_but_cloned(cut_at(ranges, points), cut)
    &&& answers.len() == cut.len()
    &&& V::obeys_eq_spec() ==> answered_by(cut, answers, equal_values::<V>())
}

/// What `==` says of two values.
pub open spec fn equal_values<V: PartialEq>() -> spec_fn(V, V) -> bool {
    |a: V, b: V| a.eq_spec(&b)
}

/// Whether `same` is an equivalence.
pub open spec fn equivalence<V>(same: spec_fn(V, V) -> bool) -> bool {
    &&& forall|a: V| #[trigger] same(a, a)
    &&& forall|a: V, b: V| #[trigger] same(a, b) ==> same(b, a)
    &&& forall|a: V, b: V, c: V| #[trigger] same(a, b) && #[trigger] same(b, c) ==> same(a, c)
}

/// Whether `==` on values of type `V` is an equivalence, which a clone keeps.
pub open spec fn comparable_values<V: Clone + PartialEq>() -> bool {
    &&& V::obeys_eq_spec()
    &&& equivalence(equal_values::<V>())
    &&& forall|a: V, b: V| #[trigger] cloned(a, b) ==> a.eq_spec(&b)
}

/// Whether `==` on values of type `V` is identity, which a clone keeps.
pub open spec fn faithful_values<V: Clone + PartialEq>() -> bool {
    &&& V::obeys_eq_spec()
    &&& forall|a: V, b: V| #[trigger] a.eq_spec(&b) <==> a == b
    &&& forall|a: V, b: V| #[trigger] cloned(a, b) ==> a == b
}

/// Whether both are `None`, or both have values that are the same by `same`.
pub open spec fn same_option<V>(
    a: Option<V>,
    b: Option<V>,
    same: spec_fn(V, V) -> bool,
) -> bool {
    match (a, b) {
        (Some(a), Some(b)) => same(a, b),
        (None, None) => true,
        _ => false,
    }
}

/// What a slot holds once `points` have been replaced in `map`.
pub open spec fn expected_value<V>(
    map: Map<u16, (u16, V)>,
    points: Map<u16, V>,
    slot: u16,
) -> Option<V> {
    if points.contains_key(slot) {
        Some(points[slot])
    } else {
        lookup(map, slot)
    }
}

/// Sorted ranges are the ranges of the map that they make.
pub proof fn lemma_with_ranges_lists<V>(ranges: Seq<(u16, u16, V)>)
    requires
        sorted_by_end(ranges),
    ensures
        lists(ranges, with_ranges(Map::empty(), ranges)),
    decreases ranges.len(),
{
    if ranges.len() > 0 {
        let init = ranges.drop_last();
        let map = with_ranges(Map::empty(), ranges);
        lemma_with_ranges_lists(init);
        assert forall|end: u16| #[trigger] map.contains_key(end) implies exists|i: int|
            0 <= i < ranges.len() && (#[trigger] ranges[i]).1 == end by {
            if end == ranges.last().1 {
                assert(ranges[ranges.len() - 1].1 == end);
            } else {
                assert(with_ranges(Map::empty(), init).contains_key(end));
                let i = choose|i: int| 0 <= i < init.len() && (#[trigger] init[i]).1 == end;
                assert(ranges[i].1 == end);
            }
        }
        assert forall|i: int| 0 <= i < ranges.len() implies map.contains_key(
            (#[trigger] ranges[i]).1,
        ) && map[ranges[i].1] == (ranges[i].0, ranges[i].2) by {
            if i < ranges.len() - 1 {
                assert(init[i] == ranges[i]);
                assert(ranges[i].1 < ranges[ranges.len() - 1].1);
            }
        }
    }
}

/// A map is made of the ranges that list it.
pub proof fn lemma_lists_makes<V>(ranges: Seq<(u16, u16, V)>, map: Map<u16, (u16, V)>)
    requires
        lists(ranges, map),
    ensures
        with_ranges(Map::empty(), ranges) == map,
{
    let made = with_ranges(Map::empty(), ranges);
    lemma_with_ranges_lists(ranges);
    assert forall|end: u16| made.contains_key(end) <==> map.contains_key(end) by {
        if made.contains_key(end) {
            let i = choose|i: int| 0 <= i < ranges.len() && (#[trigger] ranges[i]).1 == end;
            assert(map.contains_key(ranges[i].1));
        }
        if map.contains_key(end) {
            let i = choose|i: int| 0 <= i < ranges.len() && (#[trigger] ranges[i]).1 == end;
            assert(made.contains_key(ranges[i].1));
        }
    }
    assert forall|end: u16| #[trigger] made.contains_key(end) implies made[end] == map[end] by {
        let i = choose|i: int| 0 <= i < ranges.len() && (#[trigger] ranges[i]).1 == end;
        assert(map[ranges[i].1] == made[ranges[i].1]);
    }
    assert(made =~= map);
}

/// A range that decides a slot is the only one that does.
pub proof fn lemma_covering_end<V>(map: Map<u16, (u16, V)>, slot: u16, end: u16)
    requires
        is_next_end(map, slot, end),
    ensures
        covering_end(map, slot) == if map[end].0 <= slot {
            Some(end)
        } else {
            None
        },
{
    assert forall|other: u16| #[trigger] is_next_end(map, slot, other) implies other == end by {}
}

/// Where the ranges of `map` are listed, the first that does not end before
/// `slot` decides it.
proof fn lemma_covering_index<V>(
    ranges: Seq<(u16, u16, V)>,
    map: Map<u16, (u16, V)>,
    slot: u16,
    index: int,
)
    requires
        lists(ranges, map),
        0 <= index <= ranges.len(),
        forall|i: int| 0 <= i < index ==> (#[trigger] ranges[i]).1 < slot,
        forall|i: int| index <= i < ranges.len() ==> (#[trigger] ranges[i]).1 >= slot,
    ensures
        covering_end(map, slot) == if index < ranges.len() && ranges[index].0 <= slot {
            Some(ranges[index].1)
        } else {
            None
        },
{
    if index < ranges.len() {
        let end = ranges[index].1;
        assert forall|other: u16| #[trigger]
            map.contains_key(other) && slot <= other implies end <= other by {
            let i = choose|i: int| 0 <= i < ranges.len() && (#[trigger] ranges[i]).1 == other;
        }
        lemma_covering_end(map, slot, end);
    } else {
        assert forall|end: u16| !#[trigger] is_next_end(map, slot, end) by {
            if is_next_end(map, slot, end) {
                let i = choose|i: int| 0 <= i < ranges.len() && (#[trigger] ranges[i]).1 == end;
            }
        }
    }
}

/// A generic map from non-overlapping `(start, end)` slot ranges to values, kept
/// in the order of the ranges' ends for O(log n) point lookup.
#[derive(Debug)]
pub struct SlotRangeMap<V> {
    entries: Vec<(u16, u16, V)>,
}

impl<V> View for SlotRangeMap<V> {
    type V = Map<u16, (u16, V)>;

    /// The start and the value of each range, by its end.
    open spec fn view(&self) -> Map<u16, (u16, V)> {
        with_ranges(Map::empty(), self.ranges())
    }
}

impl<V> SlotRangeMap<V> {
    /// The ranges with their values, as `(start, end, value)`, in slot order.
    pub closed spec fn ranges(&self) -> Seq<(u16, u16, V)> {
        self.entries@
    }

    /// Every end occurs once, and the ranges are kept in the order of their ends.
    pub open spec fn wf(&self) -> bool {
        lists(self.ranges(), self@)
    }

    /// Makes a map without ranges.
    pub fn new() -> (map: Self)
        ensures
            map.wf(),
            map@ == Map::<u16, (u16, V)>::empty(),
    {
        SlotRangeMap { entries: Vec::new() }
    }

    /// The number of ranges that end before `slot`.
    fn count_before(&self, slot: u16) -> (index: usize)
        requires
            self.wf(),
        ensures
            index <= self.ranges().len(),
            forall|i: int| 0 <= i < index ==> (#[trigger] self.ranges()[i]).1 < slot,
            forall|i: int|
                index <= i < self.ranges().len() ==> (#[trigger] self.ranges()[i]).1 >= slot,
    {
        let mut low: usize = 0;
        let mut high: usize = self.entries.len();
        while low < high
            invariant
                sorted_by_end(self.entries@),
                low <= high <= self.entries@.len(),
                forall|i: int| 0 <= i < low ==> (#[trigger] self.entries@[i]).1 < slot,
                forall|i: int|
                    high <= i < self.entries@.len() ==> (#[trigger] self.entries@[i]).1 >= slot,
            decreases high - low,
        {
            let mid: usize = low + (high - low) / 2;
            if self.entries[mid].1 < slot {
                low = mid + 1;
            } else {
                high = mid;
            }
        }
        low
    }

    /// Insert a value for the slot range `[start, end]` (inclusive).
    ///
    /// A range with the same end is replaced.
    pub fn insert(&mut self, start: u16, end: u16, value: V)
        requires
            old(self).wf(),
        ensures
            final(self).wf(),
            final(self)@ == old(self)@.insert(end, (start, value)),
    {
        let index: usize = self.count_before(end);
        let ghost before = self.entries@;
        let ghost map = self@.insert(end, (start, value));
        if index < self.entries.len() && self.entries[index].1 == end {
            self.entries[index] = (start, end, value);
            proof {
                let after = self.entries@;
                assert forall|key: u16| #[trigger] map.contains_key(key) implies exists|i: int|
                    0 <= i < after.len() && (#[trigger] after[i]).1 == key by {
                    if key == end {
                        assert(after[index as int].1 == key);
                    } else {
                        let i = choose|i: int|
                            0 <= i < before.len() && (#[trigger] before[i]).1 == key;
                        assert(after[i].1 == key);
                    }
                }
                assert forall|i: int| 0 <= i < after.len() implies map.contains_key(
                    (#[trigger] after[i]).1,
                ) && map[after[i].1] == (after[i].0, after[i].2) by {
                    assert(i != index ==> before[i].1 != end);
                }
                lemma_lists_makes(after, map);
            }
        } else {
            self.entries.insert(index, (start, end, value));
            proof {
                let after = self.entries@;
                assert forall|i: int| #![trigger after[i]] 0 <= i < after.len() implies after[i]
                    == if i < index {
                    before[i]
                } else if i == index {
                    (start, end, value)
                } else {
                    before[i - 1]
                } by {}
                assert forall|key: u16| #[trigger] map.contains_key(key) implies exists|i: int|
                    0 <= i < after.len() && (#[trigger] after[i]).1 == key by {
                    if key == end {
                        assert(after[index as int].1 == key);
                    } else {
                        let i = choose|i: int|
                            0 <= i < before.len() && (#[trigger] before[i]).1 == key;
                        assert(if i < index {
                            after[i].1 == key
                        } else {
                            after[i + 1].1 == key
                        });
                    }
                }
                lemma_lists_makes(after, map);
            }
        }
    }

    /// Look up the value whose range contains `slot`, if any.
    pub fn get(&self, slot: u16) -> (value: Option<&V>)
        requires
            self.wf(),
        ensures
            match value {
                Some(value) => lookup(self@, slot) == Some(*value),
                None => lookup(self@, slot) is None,
            },
    {
        let index: usize = self.count_before(slot);
        proof {
            lemma_covering_index(self.ranges(), self@, slot, index as int);
        }
        if index < self.entries.len() && self.entries[index].0 <= slot {
            Some(&self.entries[index].2)
        } else {
            None
        }
    }

    /// Bounds of the range containing `slot`, if any.
    pub fn range_containing(&self, slot: u16) -> (bounds: Option<(u16, u16)>)
        requires
            self.wf(),
        ensures
            bounds == match covering_end(self@, slot) {
                Some(end) => Some((self@[end].0, end)),
                None => None,
            },
    {
        let index: usize = self.count_before(slot);
        proof {
            lemma_covering_index(self.ranges(), self@, slot, index as int);
        }
        if index < self.entries.len() && self.entries[index].0 <= slot {
            Some((self.entries[index].0, self.entries[index].1))
        } else {
            None
        }
    }

    /// Remove the range ending at `end`, returning its start and value.
    pub fn remove_range(&mut self, end: u16) -> (removed: Option<(u16, V)>)
        requires
            old(self).wf(),
        ensures
            final(self).wf(),
            final(self)@ == old(self)@.remove(end),
            removed == if old(self)@.contains_key(end) {
                Some(old(self)@[end])
            } else {
                None
            },
    {
        let index: usize = self.count_before(end);
        let ghost before = self.entries@;
        let ghost map = self@.remove(end);
        if index < self.entries.len() && self.entries[index].1 == end {
            let entry = self.entries.remove(index);
            proof {
                let after = self.entries@;
                assert forall|i: int| #![trigger after[i]] 0 <= i < after.len() implies after[i]
                    == if i < index {
                    before[i]
                } else {
                    before[i + 1]
                } by {}
                assert forall|key: u16| #[trigger] map.contains_key(key) implies exists|i: int|
                    0 <= i < after.len() && (#[trigger] after[i]).1 == key by {
                    let i = choose|i: int| 0 <= i < before.len() && (#[trigger] before[i]).1 == key;
                    assert(if i < index {
                        after[i].1 == key
                    } else {
                        after[i - 1].1 == key
                    });
                }
                lemma_lists_makes(after, map);
            }
            Some((entry.0, entry.2))
        } else {
            proof {
                if old(self)@.contains_key(end) {
                    let i = choose|i: int| 0 <= i < before.len() && (#[trigger] before[i]).1 == end;
                    assert(i < index || before[index as int].1 < end || i == index);
                }
                assert(map =~= old(self)@);
            }
            None
        }
    }

    /// All values (one per range entry, in slot order).
    pub fn values(&self) -> (values: Vec<&V>)
        ensures
            values@.len() == self.ranges().len(),
            forall|i: int|
                0 <= i < values@.len() ==> *(#[trigger] values@[i]) == self.ranges()[i].2,
    {
        let mut values: Vec<&V> = Vec::new();
        for index in 0..self.entries.len()
            invariant
                values@.len() == index,
                forall|i: int|
                    0 <= i < index ==> *(#[trigger] values@[i]) == self.entries@[i].2,
        {
            values.push(&self.entries[index].2);
        }
        values
    }

    /// `(start, end, &value)` triples in slot order.
    pub fn iter(&self) -> (entries: Vec<(u16, u16, &V)>)
        ensures
            entries@.len() == self.ranges().len(),
            forall|i: int|
                0 <= i < entries@.len() ==> {
                    &&& (#[trigger] entries@[i]).0 == self.ranges()[i].0
                    &&& entries@[i].1 == self.ranges()[i].1
                    &&& *entries@[i].2 == self.ranges()[i].2
                },
    {
        let mut entries: Vec<(u16, u16, &V)> = Vec::new();
        for index in 0..self.entries.len()
            invariant
                entries@.len() == index,
                forall|i: int|
                    0 <= i < index ==> {
                        &&& (#[trigger] entries@[i]).0 == self.entries@[i].0
                        &&& entries@[i].1 == self.entries@[i].1
                        &&& *entries@[i].2 == self.entries@[i].2
                    },
        {
            let entry = &self.entries[index];
            entries.push((entry.0, entry.1, &entry.2));
        }
        entries
    }

    /// Remove every range.
    pub fn clear(&mut self)
        ensures
            final(self).wf(),
            final(self)@ == Map::<u16, (u16, V)>::empty(),
    {
        self.entries.clear();
    }
}

impl<V: Clone> Clone for SlotRangeMap<V> {
    fn clone(&self) -> (map: Self)
        ensures
            map.ranges().len() == self.ranges().len(),
            forall|i: int|
                0 <= i < map.ranges().len() ==> (#[trigger] map.ranges()[i]).0 == self.ranges()[i].0
                    && map.ranges()[i].1 == self.ranges()[i].1 && cloned(
                    self.ranges()[i].2,
                    map.ranges()[i].2,
                ),
            self.wf() ==> {
                &&& map.wf()
                &&& map@.dom() == self@.dom()
                &&& forall|end: u16| #[trigger]
                    map@.contains_key(end) ==> map@[end].0 == self@[end].0 && cloned(
                        self@[end].1,
                        map@[end].1,
                    )
            },
    {
        let mut entries: Vec<(u16, u16, V)> = Vec::new();
        for i in 0..self.entries.len()
            invariant
                entries@.len() == i,
                forall|j: int|
                    0 <= j < i ==> (#[trigger] entries@[j]).0 == self.entries@[j].0 && entries@[j].1
                        == self.entries@[j].1 && cloned(self.entries@[j].2, entries@[j].2),
        {
            let entry = &self.entries[i];
            let value = entry.2.clone();
            assert(cloned(entry.2, value));
            entries.push((entry.0, entry.1, value));
        }
        let map = SlotRangeMap { entries };
        proof {
            if self.wf() {
                let before = self.ranges();
                let after = map.ranges();
                assert forall|i: int, j: int| 0 <= i < j < after.len() implies (
                #[trigger] after[i]).1 < (#[trigger] after[j]).1 by {
                    assert(before[i].1 < before[j].1);
                }
                lemma_with_ranges_lists(after);
                assert forall|end: u16| map@.contains_key(end) == self@.contains_key(end) by {
                    if map@.contains_key(end) {
                        let i = choose|i: int|
                            0 <= i < after.len() && (#[trigger] after[i]).1 == end;
                        assert(self@.contains_key(before[i].1));
                    }
                    if self@.contains_key(end) {
                        let i = choose|i: int|
                            0 <= i < before.len() && (#[trigger] before[i]).1 == end;
                        assert(map@.contains_key(after[i].1));
                    }
                }
                assert(map@.dom() =~= self@.dom());
                assert forall|end: u16| #[trigger] map@.contains_key(end) implies map@[end].0
                    == self@[end].0 && cloned(self@[end].1, map@[end].1) by {
                    let i = choose|i: int| 0 <= i < after.len() && (#[trigger] after[i]).1 == end;
                    assert(self@[before[i].1] == (before[i].0, before[i].2));
                    assert(map@[after[i].1] == (after[i].0, after[i].2));
                }
            }
        }
        map
    }
}

impl<V> Default for SlotRangeMap<V> {
    fn default() -> (map: Self)
        ensures
            map.wf(),
            map@ == Map::<u16, (u16, V)>::empty(),
    {
        SlotRangeMap::new()
    }
}

/// The ranges gathered so far while a map is rebuilt: all but the last are in
/// `done`, the last can still grow.
struct Gathered<V> {
    done: SlotRangeMap<V>,
    last: Option<(u16, u16, V)>,
    cut: Ghost<Seq<(u16, u16, V)>>,
    answers: Ghost<Seq<bool>>,
}

impl<V: Clone + PartialEq> Gathered<V> {
    spec fn inv(&self) -> bool {
        let ranges = joined(self.cut@, self.answers@);
        &&& self.done.wf()
        &&& self.answers@.len() == self.cut@.len()
        &&& V::obeys_eq_spec() ==> answered_by(self.cut@, self.answers@, equal_values::<V>())
        &&& if ranges.len() == 0 {
            self.last is None && self.done@ == Map::<u16, (u16, V)>::empty()
        } else {
            self.last == Some(ranges.last()) && self.done@ == with_ranges(
                Map::empty(),
                ranges.drop_last(),
            )
        }
    }

    fn new() -> (gathered: Self)
        ensures
            gathered.inv(),
            gathered.cut@.len() == 0,
    {
        Gathered {
            done: SlotRangeMap::new(),
            last: None,
            cut: Ghost(Seq::empty()),
            answers: Ghost(Seq::empty()),
        }
    }

    /// Appends a range, joined to the last one where the two touch and are equal.
    fn append(&mut self, start: u16, end: u16, value: V)
        requires
            old(self).inv(),
        ensures
            final(self).inv(),
            final(self).cut@ == old(self).cut@.push((start, end, value)),
    {
        let ghost cut = self.cut@;
        let ghost answers = self.answers@;
        let ghost before = joined(cut, answers);
        let ghost next = (start, end, value);
        let mut as_one = false;
        match self.last.take() {
            Some((last_start, last_end, last_value)) => {
                if last_end.checked_add(1) == Some(start) && last_value == value {
                    as_one = true;
                    self.last = Some((last_start, end, last_value));
                } else {
                    self.done.insert(last_start, last_end, last_value);
                    self.last = Some((start, end, value));
                }
            },
            None => {
                self.last = Some((start, end, value));
            },
        }
        self.cut = Ghost(cut.push(next));
        self.answers = Ghost(answers.push(as_one));
        proof {
            assert(cut.push(next).drop_last() =~= cut);
            assert(answers.push(as_one).drop_last() =~= answers);
            let after = append_range(before, next, as_one);
            assert(joined(self.cut@, self.answers@) == after);
            if touches(before, next) && as_one {
                assert(after.drop_last() =~= before.drop_last());
            } else {
                assert(after.drop_last() =~= before);
            }
        }
    }

    /// The map of all the ranges.
    fn finish(self) -> (map: SlotRangeMap<V>)
        requires
            self.inv(),
        ensures
            map.wf(),
            map@ == with_ranges(Map::empty(), joined(self.cut@, self.answers@)),
    {
        let mut done = self.done;
        if let Some((start, end, value)) = self.last {
            done.insert(start, end, value);
        }
        done
    }
}

/// The entries of `points` below `limit` are those of the first `count` of its
/// listed slots.
proof fn lemma_points_below<V>(points: Map<u16, V>, slots: Seq<u16>, limit: nat, count: int)
    requires
        limit <= 0x1_0000,
        0 <= count <= slots.len(),
        forall|i: int, j: int| 0 <= i < j < slots.len() ==> slots[i] < slots[j],
        forall|i: int| 0 <= i < slots.len() ==> points.contains_key(#[trigger] slots[i]),
        forall|slot: u16| #[trigger] points.contains_key(slot) ==> slots.contains(slot),
        forall|i: int| 0 <= i < count ==> (#[trigger] slots[i]) < limit,
        forall|i: int| count <= i < slots.len() ==> (#[trigger] slots[i]) >= limit,
    ensures
        points_below(points, limit) == slots.take(count).map_values(
            |slot: u16| (slot, points[slot]),
        ),
    decreases limit,
{
    let entry = |slot: u16| (slot, points[slot]);
    if limit > 0 {
        let slot = (limit - 1) as u16;
        if points.contains_key(slot) {
            let i = choose|i: int| 0 <= i < slots.len() && slots[i] == slot;
            assert(i < count);
            assert(i == count - 1) by {
                if i < count - 1 {
                    assert(slots[i] < slots[count - 1]);
                }
            }
            lemma_points_below(points, slots, (limit - 1) as nat, count - 1);
            assert(slots.take(count).map_values(entry) =~= slots.take(count - 1).map_values(
                entry,
            ).push((slot, points[slot])));
        } else {
            assert forall|i: int| 0 <= i < count implies (#[trigger] slots[i]) < limit - 1 by {
                assert(points.contains_key(slots[i]));
            }
            lemma_points_below(points, slots, (limit - 1) as nat, count);
        }
    } else {
        assert(count == 0) by {
            if count > 0 {
                assert(slots[0] < limit);
            }
        }
        assert(slots.take(0).map_values(entry) =~= Seq::empty());
    }
}

/// An increasing sequence of slots rises in the order of the integers.
proof fn lemma_increasing_slots(slots: Seq<u16>)
    requires
        vstd::std_specs::btree::increasing_seq(slots),
    ensures
        forall|i: int, j: int| 0 <= i < j < slots.len() ==> slots[i] < slots[j],
{
    assert forall|i: int, j: int| 0 <= i < j < slots.len() implies slots[i] < slots[j] by {
        assert(slots[i].cmp_spec(&slots[j]) is Less);
    }
}

/// The slots of `points` in rising order.
fn sorted_slots<V>(points: &BTreeMap<u16, V>) -> (slots: Vec<u16>)
    ensures
        forall|i: int, j: int| 0 <= i < j < slots@.len() ==> slots@[i] < slots@[j],
        forall|i: int| 0 <= i < slots@.len() ==> points@.contains_key(#[trigger] slots@[i]),
        sorted_points(points@) == slots@.map_values(|slot: u16| (slot, points@[slot])),
{
    let mut slots: Vec<u16> = Vec::new();
    let entries = points.iter();
    let ghost all = entries.remaining();
    let ghost keys = all.map_values(|entry: (&u16, &V)| *entry.0);
    for entry in it: entries
        invariant
            it.seq() == all,
            slots@.len() == it.index(),
            forall|i: int| 0 <= i < slots@.len() ==> #[trigger] slots@[i] == *all[i].0,
    {
        slots.push(*entry.0);
    }
    proof {
        assert(slots@ =~= keys);
        lemma_increasing_slots(keys);
        assert forall|slot: u16| #[trigger] points@.contains_key(slot) implies slots@.contains(
            slot,
        ) by {
            let i = choose|i: int| 0 <= i < all.len() && all[i] == (&slot, &points@[slot]);
            assert(slots@[i] == slot);
        }
        lemma_points_below(points@, slots@, 0x1_0000, slots@.len() as int);
        assert(slots@.take(slots@.len() as int) =~= slots@);
    }
    slots
}

/// Whether `slots` are the slots of `all` in rising order, and `points` holds
/// what is left of `all` from the index `next` on.
spec fn points_left<V>(
    points: Map<u16, V>,
    slots: Seq<u16>,
    all: Seq<(u16, V)>,
    next: int,
) -> bool {
    &&& slots.len() == all.len()
    &&& 0 <= next <= slots.len()
    &&& forall|i: int, j: int| 0 <= i < j < slots.len() ==> slots[i] < slots[j]
    &&& forall|i: int| 0 <= i < slots.len() ==> #[trigger] slots[i] == all[i].0
    &&& forall|i: int|
        next <= i < slots.len() ==> points.contains_key(#[trigger] slots[i]) && points[slots[i]]
            == all[i].1
}

/// Takes the next point out of `points`.
fn take_point<V>(
    points: &mut BTreeMap<u16, V>,
    slots: &Vec<u16>,
    next: usize,
    Ghost(all): Ghost<Seq<(u16, V)>>,
) -> (value: V)
    requires
        points_left(old(points)@, slots@, all, next as int),
        next < slots@.len(),
    ensures
        points_left(final(points)@, slots@, all, next + 1),
        value == all[next as int].1,
{
    let slot: u16 = slots[next];
    let removed = points.remove(&slot);
    proof {
        assert(points@ == old(points)@.remove(slot));
        assert forall|i: int| next + 1 <= i < slots@.len() implies points@.contains_key(
            #[trigger] slots@[i],
        ) && points@[slots@[i]] == all[i].1 by {
            assert(slots@[next as int] < slots@[i]);
        }
    }
    removed.unwrap()
}

/// Whether `cut` are the first of the ranges `expected`, with some values cloned, and
/// `rest` are the others.
spec fn cut_so_far<V: Clone>(
    expected: Seq<(u16, u16, V)>,
    cut: Seq<(u16, u16, V)>,
    rest: Seq<(u16, u16, V)>,
) -> bool {
    &&& cut.len() <= expected.len()
    &&& same_but_cloned(expected.take(cut.len() as int), cut)
    &&& expected.skip(cut.len() as int) == rest
}

/// One more range takes the first of the others.
proof fn lemma_cut_one_more<V: Clone>(
    expected: Seq<(u16, u16, V)>,
    cut: Seq<(u16, u16, V)>,
    piece: (u16, u16, V),
    rest: Seq<(u16, u16, V)>,
    value: V,
)
    requires
        cut_so_far(expected, cut, seq![piece] + rest),
        value == piece.2 || cloned(piece.2, value),
    ensures
        cut_so_far(expected, cut.push((piece.0, piece.1, value)), rest),
{
    let more = cut.push((piece.0, piece.1, value));
    let left = expected.skip(cut.len() as int);
    assert(left.len() == rest.len() + 1 && left[0] == piece);
    assert(expected[cut.len() as int] == piece);
    assert forall|i: int| 0 <= i < more.len() implies {
        let other = expected.take(more.len() as int)[i];
        (#[trigger] more[i]).0 == other.0 && more[i].1 == other.1 && (more[i].2 == other.2
            || cloned(other.2, more[i].2))
    } by {
        if i < cut.len() {
            assert(more[i] == cut[i]);
            assert(expected.take(cut.len() as int)[i] == expected.take(more.len() as int)[i]);
        }
    }
    assert(expected.skip(more.len() as int) =~= left.drop_first());
    assert((seq![piece] + rest).drop_first() =~= rest);
}

impl<V: Clone + PartialEq> Gathered<V> {
    /// Appends the range `[start, end]` with the points from the index `first` on
    /// that lie in it or before it, and gives the index of the next point.
    fn append_cut(
        &mut self,
        start: u16,
        end: u16,
        value: V,
        points: &mut BTreeMap<u16, V>,
        slots: &Vec<u16>,
        first: usize,
        Ghost(all): Ghost<Seq<(u16, V)>>,
        Ghost(ranges): Ghost<Seq<(u16, u16, V)>>,
        Ghost(expected): Ghost<Seq<(u16, u16, V)>>,
    ) -> (next: usize)
        requires
            old(self).inv(),
            points_left(old(points)@, slots@, all, first as int),
            ranges.len() > 0,
            ranges[0] == (start, end, value),
            cut_so_far(
                expected,
                old(self).cut@,
                pieces(ranges, start as int, all.skip(first as int)),
            ),
        ensures
            final(self).inv(),
            points_left(final(points)@, slots@, all, next as int),
            cut_so_far(
                expected,
                final(self).cut@,
                pieces(
                    ranges.drop_first(),
                    first_start(ranges.drop_first()),
                    all.skip(next as int),
                ),
            ),
    {
        let mut next: usize = first;
        while next < slots.len() && slots[next] < start
            invariant
                self.inv(),
                points_left(points@, slots@, all, next as int),
                ranges.len() > 0,
                ranges[0] == (start, end, value),
                cut_so_far(
                    expected,
                    self.cut@,
                    pieces(ranges, start as int, all.skip(next as int)),
                ),
            decreases slots@.len() - next,
        {
            let ghost cut = self.cut@;
            let slot: u16 = slots[next];
            let replacement = take_point(points, slots, next, Ghost(all));
            self.append(slot, slot, replacement);
            proof {
                assert(all.skip(next as int).drop_first() =~= all.skip(next + 1));
                lemma_cut_one_more(
                    expected,
                    cut,
                    (slot, slot, replacement),
                    pieces(ranges, start as int, all.skip(next + 1)),
                    replacement,
                );
            }
            next = next + 1;
        }
        let mut from: u32 = start as u32;
        while next < slots.len() && slots[next] <= end
            invariant
                self.inv(),
                points_left(points@, slots@, all, next as int),
                ranges.len() > 0,
                ranges[0] == (start, end, value),
                from <= 0x1_0000,
                next < slots@.len() ==> slots@[next as int] >= start,
                cut_so_far(
                    expected,
                    self.cut@,
                    pieces(ranges, from as int, all.skip(next as int)),
                ),
            decreases slots@.len() - next,
        {
            let ghost cut = self.cut@;
            let slot: u16 = slots[next];
            let replacement = take_point(points, slots, next, Ghost(all));
            let ghost point = (slot, slot, replacement);
            let ghost rest = pieces(ranges, slot + 1, all.skip(next + 1));
            proof {
                assert(all.skip(next as int).drop_first() =~= all.skip(next + 1));
            }
            if from < slot as u32 {
                let kept = value.clone();
                let ghost piece = (from as u16, (slot - 1) as u16, value);
                self.append(from as u16, slot - 1, kept);
                proof {
                    assert(cloned(value, kept));
                    lemma_cut_one_more(expected, cut, piece, seq![point] + rest, kept);
                }
            } else {
                proof {
                    assert(span(from as int, slot - 1, value) + (seq![point] + rest) =~= seq![
                        point,
                    ] + rest);
                }
            }
            proof {
                lemma_cut_one_more(expected, self.cut@, point, rest, replacement);
            }
            self.append(slot, slot, replacement);
            from = slot as u32 + 1;
            next = next + 1;
        }
        proof {
            let rest = pieces(
                ranges.drop_first(),
                first_start(ranges.drop_first()),
                all.skip(next as int),
            );
            if from <= end {
                lemma_cut_one_more(expected, self.cut@, (from as u16, end, value), rest, value);
            } else {
                assert(Seq::<(u16, u16, V)>::empty() + rest =~= rest);
            }
        }
        if from <= end as u32 {
            self.append(from as u16, end, value);
        }
        next
    }
}

impl<V> SlotRangeMap<V> {
    /// Replace individual points in one ordered pass and merge adjacent equal ranges.
    pub fn replace_points(&mut self, points: BTreeMap<u16, V>) where V: Clone + PartialEq
        requires
            old(self).wf(),
        ensures
            final(self).wf(),
            points@.is_empty() ==> final(self)@ == old(self)@,
            !points@.is_empty() ==> exists|cut: Seq<(u16, u16, V)>, answers: Seq<bool>| #[trigger]
                pass_over(old(self).ranges(), points@, cut, answers) && final(self)@ == with_ranges(
                    Map::empty(),
                    joined(cut, answers),
                ),
            !points@.is_empty() && non_overlapping(old(self)@) ==> {
                &&& non_overlapping(final(self)@)
                &&& forall|slot: u16|
                    (#[trigger] lookup(final(self)@, slot) is Some) == (points@.contains_key(slot)
                        || lookup(old(self)@, slot) is Some)
            },
            !points@.is_empty() && non_overlapping(old(self)@) && comparable_values::<V>() ==> {
                &&& merged(final(self)@, equal_values::<V>())
                &&& forall|slot: u16|
                    same_option(
                        #[trigger] lookup(final(self)@, slot),
                        expected_value(old(self)@, points@, slot),
                        equal_values::<V>(),
                    )
            },
            !points@.is_empty() && faithful_values::<V>() ==> final(self)@ == with_ranges(
                Map::empty(),
                with_points(old(self).ranges(), points@),
            ),
            !points@.is_empty() && non_overlapping(old(self)@) && faithful_values::<V>() ==> {
                forall|slot: u16| #[trigger]
                    lookup(final(self)@, slot) == expected_value(old(self)@, points@, slot)
            },
    {
        if points.is_empty() {
            return;
        }
        let slots = sorted_slots(&points);
        let ghost named = points@;
        let ghost all = sorted_points(points@);
        let mut points = points;
        let mut ranges: Vec<(u16, u16, V)> = Vec::new();
        std::mem::swap(&mut ranges, &mut self.entries);
        let ghost whole = ranges@;
        let ghost expected = cut_at(whole, named);
        let mut gathered: Gathered<V> = Gathered::new();
        let mut next: usize = 0;
        proof {
            assert(whole.skip(0) =~= whole);
            assert(all.skip(0) =~= all);
            assert(expected.skip(0) =~= expected);
        }
        for range in it: ranges
            invariant
                it.seq() == whole,
                gathered.inv(),
                points_left(points@, slots@, all, next as int),
                cut_so_far(
                    expected,
                    gathered.cut@,
                    pieces(
                        whole.skip(it.index()),
                        first_start(whole.skip(it.index())),
                        all.skip(next as int),
                    ),
                ),
        {
            let ghost left = whole.skip(it.index());
            let (start, end, value) = range;
            next = gathered.append_cut(
                start,
                end,
                value,
                &mut points,
                &slots,
                next,
                Ghost(all),
                Ghost(left),
                Ghost(expected),
            );
            proof {
                assert(left.drop_first() =~= whole.skip(it.index() + 1));
            }
        }
        while next < slots.len()
            invariant
                gathered.inv(),
                points_left(points@, slots@, all, next as int),
                cut_so_far(
                    expected,
                    gathered.cut@,
                    pieces(Seq::empty(), 0, all.skip(next as int)),
                ),
            decreases slots@.len() - next,
        {
            let ghost cut = gathered.cut@;
            let slot: u16 = slots[next];
            let replacement = take_point(&mut points, &slots, next, Ghost(all));
            gathered.append(slot, slot, replacement);
            proof {
                let point = (slot, slot, replacement);
                let rest = pieces(Seq::empty(), 0, all.skip(next + 1));
                assert(pieces(Seq::empty(), 0, all.skip(next as int)) =~= seq![point] + rest);
                lemma_cut_one_more(expected, cut, point, rest, replacement);
            }
            next = next + 1;
        }
        let ghost cut = gathered.cut@;
        let ghost answers = gathered.answers@;
        proof {
            assert(cut.len() == expected.len()) by {
                assert(expected.skip(cut.len() as int).len() == 0);
            }
            assert(expected.take(cut.len() as int) =~= expected);
            assert(pass_over(whole, named, cut, answers));
            lemma_pass(whole, old(self)@, named, cut, answers);
        }
        *self = gathered.finish();
    }
}

} // verus!
