//! What holds of slot range maps whose ranges do not overlap.

use vstd::prelude::*;

use crate::slot_range_map::{
    answered_by, coalesced, comparable_values, covering_end, cut_at, disjoint, equal_values,
    equivalence, expected_value, faithful_values, first_start, is_next_end, joined, joined_by,
    lemma_covering_end, lemma_with_ranges_lists, lists, lookup, pass_over, pieces, points_below,
    same_option, sorted_points, span, touches, with_points, with_ranges,
};

verus! {

/// Whether every range of `map` holds a slot and no two ranges share one.
pub open spec fn non_overlapping<V>(map: Map<u16, (u16, V)>) -> bool {
    &&& forall|end: u16| #[trigger] map.contains_key(end) ==> map[end].0 <= end
    &&& forall|a: u16, b: u16|
        #[trigger] map.contains_key(a) && #[trigger] map.contains_key(b) && a < b ==> a < map[b].0
}

/// Whether no two touching ranges of `map` have values that are the same by `same`.
pub open spec fn merged<V>(map: Map<u16, (u16, V)>, same: spec_fn(V, V) -> bool) -> bool {
    forall|a: u16, b: u16|
        #[trigger] map.contains_key(a) && #[trigger] map.contains_key(b) && a + 1 == map[b].0
            ==> !same(map[a].1, map[b].1)
}

/// Whether one of `ranges` holds `slot` and a value that is `value` by `same`.
spec fn holds<V>(
    ranges: Seq<(u16, u16, V)>,
    slot: u16,
    value: V,
    same: spec_fn(V, V) -> bool,
) -> bool {
    exists|i: int|
        0 <= i < ranges.len() && (#[trigger] ranges[i]).0 <= slot <= ranges[i].1
            && same(ranges[i].2, value)
}

/// As `holds`, but of the first range only the slots at or after `from` count.
spec fn holds_from<V>(
    ranges: Seq<(u16, u16, V)>,
    from: int,
    slot: u16,
    value: V,
    same: spec_fn(V, V) -> bool,
) -> bool {
    exists|i: int|
        0 <= i < ranges.len() && (#[trigger] ranges[i]).0 <= slot <= ranges[i].1
            && same(ranges[i].2, value) && (i == 0 ==> from <= slot)
}

/// Whether `points` has an entry for `slot`.
spec fn has_point<V>(points: Seq<(u16, V)>, slot: u16) -> bool {
    exists|i: int| 0 <= i < points.len() && (#[trigger] points[i]).0 == slot
}

/// Whether `points` gives `slot` a value that is `value` by `same`.
spec fn point_is<V>(
    points: Seq<(u16, V)>,
    slot: u16,
    value: V,
    same: spec_fn(V, V) -> bool,
) -> bool {
    exists|i: int| 0 <= i < points.len() && (#[trigger] points[i]).0 == slot
        && same(points[i].1, value)
}

spec fn rising<V>(points: Seq<(u16, V)>) -> bool {
    forall|i: int, j: int|
        0 <= i < j < points.len() ==> (#[trigger] points[i]).0 < (#[trigger] points[j]).0
}

proof fn lemma_holds_concat<V>(
    a: Seq<(u16, u16, V)>,
    b: Seq<(u16, u16, V)>,
    slot: u16,
    value: V,
    same: spec_fn(V, V) -> bool,
)
    ensures
        holds(a + b, slot, value, same) <==> holds(a, slot, value, same)
            || holds(b, slot, value, same),
{
    if holds(a, slot, value, same) {
        let i = choose|i: int|
            0 <= i < a.len() && (#[trigger] a[i]).0 <= slot <= a[i].1 && same(a[i].2, value);
        assert((a + b)[i] == a[i]);
    }
    if holds(b, slot, value, same) {
        let i = choose|i: int|
            0 <= i < b.len() && (#[trigger] b[i]).0 <= slot <= b[i].1 && same(b[i].2, value);
        assert((a + b)[a.len() + i] == b[i]);
    }
    if holds(a + b, slot, value, same) {
        let i = choose|i: int|
            0 <= i < (a + b).len() && (#[trigger] (a + b)[i]).0 <= slot <= (a + b)[i].1 && same(
                (a + b)[i].2,
                value,
            );
        if i < a.len() {
            assert(a[i] == (a + b)[i]);
        } else {
            assert(b[i - a.len()] == (a + b)[i]);
        }
    }
}

proof fn lemma_holds_one<V>(
    range: (u16, u16, V),
    slot: u16,
    value: V,
    same: spec_fn(V, V) -> bool,
)
    ensures
        holds(seq![range], slot, value, same) <==> range.0 <= slot <= range.1
            && same(range.2, value),
{
    if range.0 <= slot <= range.1 && same(range.2, value) {
        assert(seq![range][0] == range);
    }
}

proof fn lemma_disjoint_concat<V>(a: Seq<(u16, u16, V)>, b: Seq<(u16, u16, V)>)
    requires
        disjoint(a),
        disjoint(b),
        forall|i: int, j: int|
            0 <= i < a.len() && 0 <= j < b.len() ==> (#[trigger] a[i]).1 < (#[trigger] b[j]).0,
    ensures
        disjoint(a + b),
{
    let c = a + b;
    assert forall|i: int| 0 <= i < c.len() implies (#[trigger] c[i]).0 <= c[i].1 by {
        if i < a.len() {
            assert(c[i] == a[i]);
        } else {
            assert(c[i] == b[i - a.len()]);
        }
    }
    assert forall|i: int, j: int| 0 <= i < j < c.len() implies (#[trigger] c[i]).1 < (
    #[trigger] c[j]).0 by {
        if j < a.len() {
            assert(c[i] == a[i] && c[j] == a[j]);
        } else if i < a.len() {
            assert(c[i] == a[i] && c[j] == b[j - a.len()]);
        } else {
            assert(c[i] == b[i - a.len()] && c[j] == b[j - a.len()]);
        }
    }
}

/// The pieces of `ranges` cut at `points` lie apart at or after `low`, and give
/// each slot the value of its point, or else that of its range.
proof fn lemma_pieces<V>(
    ranges: Seq<(u16, u16, V)>,
    from: int,
    points: Seq<(u16, V)>,
    low: int,
    same: spec_fn(V, V) -> bool,
)
    requires
        disjoint(ranges),
        rising(points),
        ranges.len() > 0 ==> ranges[0].0 <= from <= ranges[0].1 + 1 && low <= from,
        ranges.len() > 0 && points.len() > 0 ==> points[0].0 >= from || (points[0].0 < ranges[0].0
            && from == ranges[0].0),
        points.len() > 0 ==> low <= points[0].0,
    ensures
        disjoint(pieces(ranges, from, points)),
        forall|i: int|
            0 <= i < pieces(ranges, from, points).len() ==> low <= (#[trigger] pieces(
                ranges,
                from,
                points,
            )[i]).0,
        forall|slot: u16, value: V| #[trigger]
            holds(pieces(ranges, from, points), slot, value, same)
                <==> (point_is(points, slot, value, same)
                || (!has_point(points, slot) && holds_from(ranges, from, slot, value, same))),
    decreases ranges.len(), points.len(),
{
    let all = pieces(ranges, from, points);
    if ranges.len() == 0 {
        assert forall|slot: u16, value: V| #[trigger] holds(all, slot, value, same) <==> point_is(
            points,
            slot,
            value,
            same,
        ) by {
            if holds(all, slot, value, same) {
                let i = choose|i: int|
                    0 <= i < all.len() && (#[trigger] all[i]).0 <= slot <= all[i].1
                        && same(all[i].2, value);
                assert(points[i].0 == slot && same(points[i].1, value));
            }
            if point_is(points, slot, value, same) {
                let i = choose|i: int| 0 <= i < points.len() && (#[trigger] points[i]).0 == slot
                    && same(points[i].1, value);
                assert(all[i] == (slot, slot, points[i].1));
            }
        }
    } else {
        let (start, end, kept) = ranges[0];
        if points.len() > 0 && points[0].0 <= end {
            let at = points[0].0;
            let point = (at, at, points[0].1);
            let later = points.drop_first();
            let within = at >= start;
            let next_from = if within { at + 1 } else { from };
            let head = if within { span(from, at - 1, kept) } else { Seq::empty() };
            let rest = pieces(ranges, next_from, later);
            assert(later.len() > 0 ==> later[0] == points[1]);
            lemma_pieces(ranges, next_from, later, at + 1, same);
            assert(all =~= head + (seq![point] + rest));
            lemma_disjoint_concat(seq![point], rest);
            let tail = seq![point] + rest;
            assert forall|j: int| 0 <= j < tail.len() implies at <= (#[trigger] tail[j]).0 by {
                if j > 0 {
                    assert(tail[j] == rest[j - 1]);
                }
            }
            lemma_disjoint_concat(head, tail);
            assert forall|i: int| 0 <= i < all.len() implies low <= (#[trigger] all[i]).0 by {
                if i >= head.len() {
                    assert(all[i] == tail[i - head.len()]);
                }
            }
            assert forall|slot: u16, value: V| #[trigger] holds(all, slot, value, same)
                <==> (point_is(
                points,
                slot,
                value,
                same,
            ) || (!has_point(points, slot) && holds_from(ranges, from, slot, value, same))) by {
                lemma_holds_concat(head, tail, slot, value, same);
                lemma_holds_concat(seq![point], rest, slot, value, same);
                lemma_holds_one(point, slot, value, same);
                lemma_point_first(points, slot, value, same);
                lemma_holds_from(ranges, from, slot, value, same);
                lemma_holds_from(ranges, next_from, slot, value, same);
                if head.len() > 0 {
                    lemma_holds_one(head[0], slot, value, same);
                    assert(head =~= seq![head[0]]);
                }
                assert forall|i: int| 0 <= i < later.len() implies at < (#[trigger] later[i]).0 by {
                    assert(later[i] == points[i + 1]);
                }
                if !within && slot == at {
                    assert forall|i: int| 0 <= i < ranges.len() implies at < (#[trigger] ranges[i]).0
                    by {}
                }
                if within && slot < at {
                    assert(!has_point(points, slot));
                }
            }
        } else {
            let head = span(from, end as int, kept);
            let later = ranges.drop_first();
            let rest = pieces(later, first_start(later), points);
            assert(later.len() > 0 ==> later[0] == ranges[1]);
            assert forall|i: int, j: int| 0 <= i < j < later.len() implies (#[trigger] later[i]).1
                < (#[trigger] later[j]).0 by {
                assert(later[i] == ranges[i + 1] && later[j] == ranges[j + 1]);
            }
            assert forall|i: int| 0 <= i < later.len() implies (#[trigger] later[i]).0
                <= later[i].1 by {
                assert(later[i] == ranges[i + 1]);
            }
            lemma_pieces(later, first_start(later), points, end + 1, same);
            assert(all =~= head + rest);
            lemma_disjoint_concat(head, rest);
            assert forall|i: int| 0 <= i < all.len() implies low <= (#[trigger] all[i]).0 by {
                if i >= head.len() {
                    assert(all[i] == rest[i - head.len()]);
                }
            }
            assert forall|slot: u16, value: V| #[trigger] holds(all, slot, value, same)
                <==> (point_is(
                points,
                slot,
                value,
                same,
            ) || (!has_point(points, slot) && holds_from(ranges, from, slot, value, same))) by {
                lemma_holds_concat(head, rest, slot, value, same);
                lemma_holds_from(ranges, from, slot, value, same);
                lemma_holds_from(later, first_start(later), slot, value, same);
                if head.len() > 0 {
                    lemma_holds_one(head[0], slot, value, same);
                    assert(head =~= seq![head[0]]);
                }
                lemma_point_is(points, slot, value, same);
                if slot <= end {
                    assert forall|i: int| 0 <= i < points.len() implies end < (
                    #[trigger] points[i]).0 by {
                        if i > 0 {
                            assert(points[0].0 < points[i].0);
                        }
                    }
                    assert(!has_point(points, slot));
                }
                lemma_holds_split(ranges, slot, value, same);
            }
        }
    }
}

/// A value at a slot is that of the first range or of a later one.
proof fn lemma_holds_split<V>(
    ranges: Seq<(u16, u16, V)>,
    slot: u16,
    value: V,
    same: spec_fn(V, V) -> bool,
)
    requires
        ranges.len() > 0,
    ensures
        holds(ranges, slot, value, same) <==> (ranges[0].0 <= slot <= ranges[0].1
            && same(ranges[0].2, value))
            || holds(ranges.drop_first(), slot, value, same),
{
    assert(ranges =~= seq![ranges[0]] + ranges.drop_first());
    lemma_holds_concat(seq![ranges[0]], ranges.drop_first(), slot, value, same);
    lemma_holds_one(ranges[0], slot, value, same);
}

/// `holds_from` in terms of the first range and the later ones.
proof fn lemma_holds_from<V>(
    ranges: Seq<(u16, u16, V)>,
    from: int,
    slot: u16,
    value: V,
    same: spec_fn(V, V) -> bool,
)
    ensures
        holds_from(ranges, from, slot, value, same) <==> ranges.len() > 0 && ((ranges[0].0 <= slot
            <= ranges[0].1 && same(ranges[0].2, value) && from <= slot) || holds(
            ranges.drop_first(),
            slot,
            value,
            same,
        )),
{
    let later = ranges.drop_first();
    if holds_from(ranges, from, slot, value, same) {
        let i = choose|i: int|
            0 <= i < ranges.len() && (#[trigger] ranges[i]).0 <= slot <= ranges[i].1
                && same(ranges[i].2, value) && (i == 0 ==> from <= slot);
        if i > 0 {
            assert(later[i - 1] == ranges[i]);
        }
    }
    if ranges.len() > 0 && holds(later, slot, value, same) {
        let i = choose|i: int|
            0 <= i < later.len() && (#[trigger] later[i]).0 <= slot <= later[i].1
                && same(later[i].2, value);
        assert(ranges[i + 1] == later[i]);
    }
    if ranges.len() > 0 && ranges[0].0 <= slot <= ranges[0].1 && same(ranges[0].2, value) && from
        <= slot {
        assert(same(ranges[0].2, value));
    }
}

/// A point with a value is a point.
proof fn lemma_point_is<V>(
    points: Seq<(u16, V)>,
    slot: u16,
    value: V,
    same: spec_fn(V, V) -> bool,
)
    ensures
        point_is(points, slot, value, same) ==> has_point(points, slot),
{
    if point_is(points, slot, value, same) {
        let i = choose|i: int| 0 <= i < points.len() && (#[trigger] points[i]).0 == slot
            && same(points[i].1, value);
        assert(points[i].0 == slot);
    }
}

/// The points at a slot, in terms of the first point and the later ones.
proof fn lemma_point_first<V>(
    points: Seq<(u16, V)>,
    slot: u16,
    value: V,
    same: spec_fn(V, V) -> bool,
)
    requires
        points.len() > 0,
    ensures
        has_point(points, slot) <==> points[0].0 == slot || has_point(points.drop_first(), slot),
        point_is(points, slot, value, same) <==> points[0].0 == slot
            && same(points[0].1, value) || point_is(
            points.drop_first(),
            slot,
            value,
            same,
        ),
        point_is(points, slot, value, same) ==> has_point(points, slot),
{
    let later = points.drop_first();
    lemma_point_is(points, slot, value, same);
    if has_point(points, slot) {
        let i = choose|i: int| 0 <= i < points.len() && (#[trigger] points[i]).0 == slot;
        if i > 0 {
            assert(later[i - 1].0 == slot);
        }
    }
    if has_point(later, slot) {
        let i = choose|i: int| 0 <= i < later.len() && (#[trigger] later[i]).0 == slot;
        assert(points[i + 1].0 == slot);
    }
    if point_is(points, slot, value, same) {
        let i = choose|i: int| 0 <= i < points.len() && (#[trigger] points[i]).0 == slot
            && same(points[i].1, value);
        if i > 0 {
            assert(later[i - 1].0 == slot && same(later[i - 1].1, value));
        }
    }
    if point_is(later, slot, value, same) {
        let i = choose|i: int| 0 <= i < later.len() && (#[trigger] later[i]).0 == slot
            && same(later[i].1, value);
        assert(points[i + 1].0 == slot && same(points[i + 1].1, value));
    }
    if points[0].0 == slot && same(points[0].1, value) {
        assert(points[0].0 == slot && same(points[0].1, value));
    }
}

/// Whether ranges are joined only where their values are the same by `same`.
spec fn joins_only<V>(
    cut: Seq<(u16, u16, V)>,
    answers: Seq<bool>,
    same: spec_fn(V, V) -> bool,
) -> bool
    decreases cut.len(),
{
    cut.len() > 0 ==> {
        let before = joined(cut.drop_last(), answers.drop_last());
        &&& joins_only(cut.drop_last(), answers.drop_last(), same)
        &&& touches(before, cut.last()) && answers[cut.len() - 1] ==> same(
            before.last().2,
            cut.last().2,
        )
    }
}

proof fn lemma_joins_only<V>(
    cut: Seq<(u16, u16, V)>,
    answers: Seq<bool>,
    same: spec_fn(V, V) -> bool,
)
    requires
        answered_by(cut, answers, same) || forall|a: V, b: V| #[trigger] same(a, b),
    ensures
        joins_only(cut, answers, same),
    decreases cut.len(),
{
    if cut.len() > 0 {
        lemma_joins_only(cut.drop_last(), answers.drop_last(), same);
    }
}

/// Joining ranges that lie apart keeps them apart, up to the same end.
proof fn lemma_joined_apart<V>(cut: Seq<(u16, u16, V)>, answers: Seq<bool>)
    requires
        disjoint(cut),
    ensures
        disjoint(joined(cut, answers)),
        joined(cut, answers).len() == 0 <==> cut.len() == 0,
        cut.len() > 0 ==> joined(cut, answers).last().1 == cut.last().1,
    decreases cut.len(),
{
    if cut.len() > 0 {
        let earlier = cut.drop_last();
        let next = cut.last();
        let before = joined(earlier, answers.drop_last());
        let after = joined(cut, answers);
        lemma_joined_apart(earlier, answers.drop_last());
        assert(next == cut[cut.len() - 1]);
        if before.len() > 0 {
            assert(earlier.last() == cut[cut.len() - 2]);
            assert(before.last().1 < next.0);
        }
        let as_one = touches(before, next) && answers[cut.len() - 1];
        let kept = if as_one { before.drop_last() } else { before };
        let end = if as_one { (before.last().0, next.1, before.last().2) } else { next };
        assert(after =~= kept + seq![end]);
        assert forall|i: int| 0 <= i < kept.len() implies (#[trigger] kept[i]).1 < end.0 by {
            assert(kept[i] == before[i]);
            if i < before.len() - 1 {
                assert(before[i].1 < before[before.len() - 1].0);
                assert(before[before.len() - 1].0 <= before[before.len() - 1].1);
            }
        }
        assert(disjoint(kept)) by {
            assert forall|i: int, j: int| 0 <= i < j < kept.len() implies (#[trigger] kept[i]).1 < (
            #[trigger] kept[j]).0 by {
                assert(kept[i] == before[i] && kept[j] == before[j]);
            }
            assert forall|i: int| 0 <= i < kept.len() implies (#[trigger] kept[i]).0
                <= kept[i].1 by {
                assert(kept[i] == before[i]);
            }
        }
        if as_one {
            assert(before[before.len() - 1].0 <= before[before.len() - 1].1);
        }
        lemma_disjoint_concat(kept, seq![end]);
    }
}

/// Joining ranges only where their values are the same keeps what is held.
proof fn lemma_joined_holds<V>(
    cut: Seq<(u16, u16, V)>,
    answers: Seq<bool>,
    slot: u16,
    value: V,
    same: spec_fn(V, V) -> bool,
)
    requires
        disjoint(cut),
        equivalence(same),
        joins_only(cut, answers, same),
    ensures
        holds(joined(cut, answers), slot, value, same) <==> holds(cut, slot, value, same),
    decreases cut.len(),
{
    if cut.len() > 0 {
        let earlier = cut.drop_last();
        let next = cut.last();
        let before = joined(earlier, answers.drop_last());
        let after = joined(cut, answers);
        lemma_joined_holds(earlier, answers.drop_last(), slot, value, same);
        lemma_joined_apart(earlier, answers.drop_last());
        assert(cut =~= earlier + seq![next]);
        lemma_holds_concat(earlier, seq![next], slot, value, same);
        lemma_holds_one(next, slot, value, same);
        if touches(before, next) && answers[cut.len() - 1] {
            let last = before.last();
            let kept = before.drop_last();
            let end = (last.0, next.1, last.2);
            assert(after =~= kept + seq![end]);
            assert(before =~= kept + seq![last]);
            lemma_holds_concat(kept, seq![end], slot, value, same);
            lemma_holds_concat(kept, seq![last], slot, value, same);
            lemma_holds_one(end, slot, value, same);
            lemma_holds_one(last, slot, value, same);
            assert(before[before.len() - 1].0 <= before[before.len() - 1].1);
            assert(cut[cut.len() - 1].0 <= cut[cut.len() - 1].1);
            assert(same(last.2, next.2) && same(next.2, last.2));
            assert(same(last.2, value) <==> same(next.2, value)) by {
                if same(last.2, value) {
                    assert(same(next.2, last.2) && same(last.2, value));
                }
                if same(next.2, value) {
                    assert(same(last.2, next.2) && same(next.2, value));
                }
            }
        } else {
            assert(after =~= before + seq![next]);
            lemma_holds_concat(before, seq![next], slot, value, same);
        }
    }
}

/// Where ranges are joined whenever their values are the same, no two that touch have the
/// same value.
proof fn lemma_joined_coalesced<V>(
    cut: Seq<(u16, u16, V)>,
    answers: Seq<bool>,
    same: spec_fn(V, V) -> bool,
)
    requires
        disjoint(cut),
        answered_by(cut, answers, same),
    ensures
        coalesced(joined(cut, answers), same),
    decreases cut.len(),
{
    if cut.len() > 0 {
        let earlier = cut.drop_last();
        let next = cut.last();
        let before = joined(earlier, answers.drop_last());
        let after = joined(cut, answers);
        let last = before.len() - 1;
        lemma_joined_coalesced(earlier, answers.drop_last(), same);
        lemma_joined_apart(earlier, answers.drop_last());
        lemma_joined_apart(cut, answers);
        let as_one = touches(before, next) && answers[cut.len() - 1];
        assert forall|i: int, j: int|
            0 <= i < j < after.len() && (#[trigger] after[i]).1 + 1 == (
            #[trigger] after[j]).0 implies !same(after[i].2, after[j].2) by {
            if as_one {
                assert(after[i] == before[i]);
                assert(after[j].0 == before[j].0 && after[j].2 == before[j].2);
            } else if j < before.len() {
                assert(after[i] == before[i] && after[j] == before[j]);
            } else {
                assert(after[i] == before[i] && after[j] == next);
                if i < last {
                    assert(before[i].1 < before[last].0);
                    assert(before[last].0 <= before[last].1);
                    assert(after[last].1 < after[j].0);
                }
            }
        }
    }
}

/// Ranges that lie apart are sorted, and the map that they make does not overlap.
proof fn lemma_disjoint_map<V>(
    ranges: Seq<(u16, u16, V)>,
    map: Map<u16, (u16, V)>,
    same: spec_fn(V, V) -> bool,
)
    requires
        lists(ranges, map),
    ensures
        disjoint(ranges) <==> non_overlapping(map),
        disjoint(ranges) ==> (coalesced(ranges, same) <==> merged(map, same)),
{
    if disjoint(ranges) {
        assert forall|end: u16| #[trigger] map.contains_key(end) implies map[end].0 <= end by {
            let i = choose|i: int| 0 <= i < ranges.len() && (#[trigger] ranges[i]).1 == end;
        }
        assert forall|a: u16, b: u16| #[trigger]
            map.contains_key(a) && #[trigger] map.contains_key(b) && a < b implies a
            < map[b].0 by {
            let i = choose|i: int| 0 <= i < ranges.len() && (#[trigger] ranges[i]).1 == a;
            let j = choose|j: int| 0 <= j < ranges.len() && (#[trigger] ranges[j]).1 == b;
            assert(i < j) by {
                if j < i {
                    assert(ranges[j].1 < ranges[i].1);
                }
            }
        }
        if coalesced(ranges, same) {
            assert forall|a: u16, b: u16| #[trigger]
                map.contains_key(a) && #[trigger] map.contains_key(b) && a + 1
                    == map[b].0 implies !same(map[a].1, map[b].1) by {
                let i = choose|i: int| 0 <= i < ranges.len() && (#[trigger] ranges[i]).1 == a;
                let j = choose|j: int| 0 <= j < ranges.len() && (#[trigger] ranges[j]).1 == b;
                assert(i < j) by {
                    if j < i {
                        assert(ranges[j].1 < ranges[i].0);
                    }
                }
            }
        }
        if merged(map, same) {
            assert forall|i: int, j: int|
                0 <= i < j < ranges.len() && (#[trigger] ranges[i]).1 + 1 == (
                #[trigger] ranges[j]).0 implies !same(ranges[i].2, ranges[j].2) by {
                assert(map.contains_key(ranges[i].1) && map.contains_key(ranges[j].1));
            }
        }
    }
    if non_overlapping(map) {
        assert forall|i: int| 0 <= i < ranges.len() implies (#[trigger] ranges[i]).0
            <= ranges[i].1 by {
            assert(map.contains_key(ranges[i].1));
        }
        assert forall|i: int, j: int| 0 <= i < j < ranges.len() implies (#[trigger] ranges[i]).1 < (
        #[trigger] ranges[j]).0 by {
            assert(map.contains_key(ranges[i].1) && map.contains_key(ranges[j].1));
        }
    }
}

/// Point lookup: where no two ranges overlap, a slot has the value of the range
/// that contains it, and none in the gaps.
pub proof fn law_lookup<V>(map: Map<u16, (u16, V)>, slot: u16)
    requires
        non_overlapping(map),
    ensures
        forall|end: u16| #[trigger]
            map.contains_key(end) && map[end].0 <= slot <= end ==> covering_end(map, slot) == Some(
                end,
            ) && lookup(map, slot) == Some(map[end].1),
        (forall|end: u16| #[trigger] map.contains_key(end) ==> !(map[end].0 <= slot <= end))
            ==> lookup(map, slot) is None,
{
    assert forall|end: u16| #[trigger]
        map.contains_key(end) && map[end].0 <= slot <= end implies covering_end(map, slot) == Some(
        end,
    ) by {
        assert forall|other: u16| #[trigger]
            map.contains_key(other) && slot <= other implies end <= other by {
            if other < end {
                assert(other < map[end].0);
            }
        }
        lemma_covering_end(map, slot, end);
    }
}

/// What `holds` says of ranges is what `lookup` says of the map they list.
proof fn lemma_holds_lookup<V>(
    ranges: Seq<(u16, u16, V)>,
    map: Map<u16, (u16, V)>,
    slot: u16,
    value: V,
    same: spec_fn(V, V) -> bool,
)
    requires
        lists(ranges, map),
        disjoint(ranges),
    ensures
        holds(ranges, slot, value, same) <==> lookup(map, slot) is Some && same(
            lookup(map, slot)->0,
            value,
        ),
{
    lemma_disjoint_map(ranges, map, same);
    law_lookup(map, slot);
    if holds(ranges, slot, value, same) {
        let i = choose|i: int|
            0 <= i < ranges.len() && (#[trigger] ranges[i]).0 <= slot <= ranges[i].1 && same(
                ranges[i].2,
                value,
            );
        assert(map.contains_key(ranges[i].1));
    }
    if lookup(map, slot) is Some && same(lookup(map, slot)->0, value) {
        let end = covering_end(map, slot).unwrap();
        assert(map.contains_key(end) && map[end].0 <= slot <= end);
        let i = choose|i: int| 0 <= i < ranges.len() && (#[trigger] ranges[i]).1 == end;
        assert(ranges[i].0 <= slot <= ranges[i].1 && same(ranges[i].2, value));
    }
}

/// The entries below `limit` rise and are those of the map.
proof fn lemma_points_below<V>(points: Map<u16, V>, limit: nat)
    requires
        limit <= 0x1_0000,
    ensures
        rising(points_below(points, limit)),
        forall|i: int|
            0 <= i < points_below(points, limit).len() ==> {
                let point = #[trigger] points_below(points, limit)[i];
                point.0 < limit && points.contains_key(point.0) && point.1 == points[point.0]
            },
        forall|slot: u16| #[trigger]
            points.contains_key(slot) && slot < limit ==> has_point(
                points_below(points, limit),
                slot,
            ),
    decreases limit,
{
    if limit > 0 {
        lemma_points_below(points, (limit - 1) as nat);
        let last = (limit - 1) as u16;
        let before = points_below(points, (limit - 1) as nat);
        let all = points_below(points, limit);
        assert forall|slot: u16| #[trigger]
            points.contains_key(slot) && slot < limit implies has_point(all, slot) by {
            if slot == last {
                assert(all[all.len() - 1].0 == slot);
            } else {
                assert(has_point(before, slot));
                let i = choose|i: int| 0 <= i < before.len() && (#[trigger] before[i]).0 == slot;
                assert(all[i].0 == slot);
            }
        }
    }
}

/// The values of all the points that a map names.
proof fn lemma_sorted_points<V>(
    points: Map<u16, V>,
    slot: u16,
    value: V,
    same: spec_fn(V, V) -> bool,
)
    ensures
        rising(sorted_points(points)),
        has_point(sorted_points(points), slot) <==> points.contains_key(slot),
        point_is(sorted_points(points), slot, value, same) <==> points.contains_key(slot) && same(
            points[slot],
            value,
        ),
{
    let all = sorted_points(points);
    lemma_points_below(points, 0x1_0000);
    if has_point(all, slot) {
        let i = choose|i: int| 0 <= i < all.len() && (#[trigger] all[i]).0 == slot;
        assert(all[i].1 == points[slot]);
    }
}

/// Whether the ranges `cut` have the bounds of `expected`, and values that are the same.
spec fn same_ranges<V>(
    expected: Seq<(u16, u16, V)>,
    cut: Seq<(u16, u16, V)>,
    same: spec_fn(V, V) -> bool,
) -> bool {
    &&& cut.len() == expected.len()
    &&& forall|i: int|
        0 <= i < cut.len() ==> (#[trigger] cut[i]).0 == expected[i].0 && cut[i].1 == expected[i].1
            && same(expected[i].2, cut[i].2)
}

proof fn lemma_same_ranges_hold<V>(
    expected: Seq<(u16, u16, V)>,
    cut: Seq<(u16, u16, V)>,
    slot: u16,
    value: V,
    same: spec_fn(V, V) -> bool,
)
    requires
        same_ranges(expected, cut, same),
        equivalence(same),
    ensures
        holds(expected, slot, value, same) <==> holds(cut, slot, value, same),
{
    if holds(expected, slot, value, same) {
        let i = choose|i: int|
            0 <= i < expected.len() && (#[trigger] expected[i]).0 <= slot <= expected[i].1 && same(
                expected[i].2,
                value,
            );
        assert(cut[i].0 <= slot <= cut[i].1);
        assert(same(cut[i].2, expected[i].2) && same(expected[i].2, value));
    }
    if holds(cut, slot, value, same) {
        let i = choose|i: int|
            0 <= i < cut.len() && (#[trigger] cut[i]).0 <= slot <= cut[i].1 && same(
                cut[i].2,
                value,
            );
        assert(expected[i].0 <= slot <= expected[i].1);
        assert(same(expected[i].2, cut[i].2) && same(cut[i].2, value));
    }
}

/// What a slot holds after a pass over `ranges` and `points`, up to `same`.
proof fn lemma_replaced_slot<V>(
    ranges: Seq<(u16, u16, V)>,
    map: Map<u16, (u16, V)>,
    points: Map<u16, V>,
    slot: u16,
    value: V,
    same: spec_fn(V, V) -> bool,
)
    requires
        lists(ranges, map),
        non_overlapping(map),
    ensures
        disjoint(cut_at(ranges, points)),
        holds(cut_at(ranges, points), slot, value, same) <==> expected_value(map, points, slot)
            is Some && same(expected_value(map, points, slot)->0, value),
{
    let from = first_start(ranges);
    lemma_disjoint_map(ranges, map, same);
    lemma_sorted_points(points, slot, value, same);
    lemma_pieces(ranges, from, sorted_points(points), 0, same);
    lemma_holds_from(ranges, from, slot, value, same);
    if ranges.len() > 0 {
        lemma_holds_split(ranges, slot, value, same);
    }
    lemma_holds_lookup(ranges, map, slot, value, same);
}

/// What a pass over `ranges` and `points` makes, up to an equivalence that it respects.
proof fn lemma_replaced<V>(
    ranges: Seq<(u16, u16, V)>,
    map: Map<u16, (u16, V)>,
    points: Map<u16, V>,
    cut: Seq<(u16, u16, V)>,
    answers: Seq<bool>,
    same: spec_fn(V, V) -> bool,
)
    requires
        lists(ranges, map),
        non_overlapping(map),
        equivalence(same),
        same_ranges(cut_at(ranges, points), cut, same),
        joins_only(cut, answers, same),
    ensures
        lists(joined(cut, answers), with_ranges(Map::empty(), joined(cut, answers))),
        non_overlapping(with_ranges(Map::empty(), joined(cut, answers))),
        answered_by(cut, answers, same) ==> merged(
            with_ranges(Map::empty(), joined(cut, answers)),
            same,
        ),
        forall|slot: u16|
            same_option(
                #[trigger] lookup(with_ranges(Map::empty(), joined(cut, answers)), slot),
                expected_value(map, points, slot),
                same,
            ),
{
    let expected = cut_at(ranges, points);
    let ends = joined(cut, answers);
    let made = with_ranges(Map::empty(), ends);
    assert(disjoint(expected)) by {
        lemma_replaced_slot(ranges, map, points, 0, arbitrary(), same);
    }
    assert(disjoint(cut)) by {
        assert forall|i: int| 0 <= i < cut.len() implies (#[trigger] cut[i]).0 <= cut[i].1 by {
            assert(expected[i].0 <= expected[i].1);
        }
        assert forall|i: int, j: int| 0 <= i < j < cut.len() implies (#[trigger] cut[i]).1 < (
        #[trigger] cut[j]).0 by {
            assert(expected[i].1 < expected[j].0);
        }
    }
    lemma_joined_apart(cut, answers);
    lemma_with_ranges_lists(ends);
    lemma_disjoint_map(ends, made, same);
    if answered_by(cut, answers, same) {
        lemma_joined_coalesced(cut, answers, same);
    }
    assert forall|slot: u16|
        same_option(
            #[trigger] lookup(made, slot),
            expected_value(map, points, slot),
            same,
        ) by {
        let found = lookup(made, slot);
        let wanted = expected_value(map, points, slot);
        if let Some(value) = found {
            lemma_holds_lookup(ends, made, slot, value, same);
            lemma_joined_holds(cut, answers, slot, value, same);
            lemma_same_ranges_hold(expected, cut, slot, value, same);
            lemma_replaced_slot(ranges, map, points, slot, value, same);
            assert(same(value, value));
        }
        if let Some(value) = wanted {
            lemma_holds_lookup(ends, made, slot, value, same);
            lemma_joined_holds(cut, answers, slot, value, same);
            lemma_same_ranges_hold(expected, cut, slot, value, same);
            lemma_replaced_slot(ranges, map, points, slot, value, same);
            assert(same(value, value));
        }
    }
}

/// The answers of `same`, and what they join.
proof fn lemma_answers<V>(cut: Seq<(u16, u16, V)>, same: spec_fn(V, V) -> bool) -> (answers: Seq<
    bool,
>)
    ensures
        answers.len() == cut.len(),
        answered_by(cut, answers, same),
        joined(cut, answers) == joined_by(cut, same),
    decreases cut.len(),
{
    if cut.len() == 0 {
        Seq::empty()
    } else {
        let earlier = lemma_answers(cut.drop_last(), same);
        let before = joined(cut.drop_last(), earlier);
        let answers = earlier.push(same(before.last().2, cut.last().2));
        assert(answers.drop_last() =~= earlier);
        answers
    }
}

proof fn lemma_answered_by<V>(
    cut: Seq<(u16, u16, V)>,
    answers: Seq<bool>,
    same: spec_fn(V, V) -> bool,
)
    requires
        answered_by(cut, answers, same),
    ensures
        joined(cut, answers) == joined_by(cut, same),
    decreases cut.len(),
{
    if cut.len() > 0 {
        lemma_answered_by(cut.drop_last(), answers.drop_last(), same);
    }
}

/// What a pass over the ranges and points makes: apart and with a value for the right slots
/// in any case, up to `==` where that is an equivalence, and exactly where it is identity.
pub proof fn lemma_pass<V: Clone + PartialEq>(
    ranges: Seq<(u16, u16, V)>,
    map: Map<u16, (u16, V)>,
    points: Map<u16, V>,
    cut: Seq<(u16, u16, V)>,
    answers: Seq<bool>,
)
    requires
        lists(ranges, map),
        pass_over(ranges, points, cut, answers),
    ensures
        ({
            let made = with_ranges(Map::empty(), joined(cut, answers));
            &&& non_overlapping(map) ==> {
                &&& non_overlapping(made)
                &&& forall|slot: u16|
                    (#[trigger] lookup(made, slot) is Some) == (points.contains_key(slot) || lookup(
                        map,
                        slot,
                    ) is Some)
            }
            &&& non_overlapping(map) && comparable_values::<V>() ==> {
                &&& merged(made, equal_values::<V>())
                &&& forall|slot: u16|
                    same_option(
                        #[trigger] lookup(made, slot),
                        expected_value(map, points, slot),
                        equal_values::<V>(),
                    )
            }
            &&& faithful_values::<V>() ==> made == with_ranges(
                Map::empty(),
                with_points(ranges, points),
            )
            &&& non_overlapping(map) && faithful_values::<V>() ==> forall|slot: u16| #[trigger]
                lookup(made, slot) == expected_value(map, points, slot)
        }),
{
    let expected = cut_at(ranges, points);
    let made = with_ranges(Map::empty(), joined(cut, answers));
    if non_overlapping(map) {
        let any = |a: V, b: V| true;
        lemma_joins_only(cut, answers, any);
        lemma_replaced(ranges, map, points, cut, answers, any);
        assert forall|slot: u16|
            (#[trigger] lookup(made, slot) is Some) == (points.contains_key(slot) || lookup(
                map,
                slot,
            ) is Some) by {
            assert(same_option(lookup(made, slot), expected_value(map, points, slot), any));
        }
        if comparable_values::<V>() {
            let equal = equal_values::<V>();
            assert forall|i: int| 0 <= i < cut.len() implies (#[trigger] cut[i]).0 == expected[i].0
                && cut[i].1 == expected[i].1 && equal(expected[i].2, cut[i].2) by {
                assert(equal(expected[i].2, expected[i].2));
            }
            lemma_joins_only(cut, answers, equal);
            lemma_replaced(ranges, map, points, cut, answers, equal);
        }
    }
    if faithful_values::<V>() {
        let identical = |a: V, b: V| a == b;
        assert(equal_values::<V>() =~= identical);
        assert forall|i: int| 0 <= i < cut.len() implies #[trigger] cut[i] == expected[i] by {}
        assert(cut =~= expected);
        lemma_answered_by(cut, answers, identical);
        if non_overlapping(map) {
            lemma_joins_only(cut, answers, identical);
            lemma_replaced(ranges, map, points, cut, answers, identical);
            assert forall|slot: u16| #[trigger] lookup(made, slot) == expected_value(
                map,
                points,
                slot,
            ) by {
                assert(same_option(
                    lookup(made, slot),
                    expected_value(map, points, slot),
                    identical,
                ));
            }
        }
    }
}

/// Replacing points: each named slot gets its new value and every other slot
/// keeps what it had, the ranges stay apart, and no two touching ranges have
/// equal values.
pub proof fn law_replace_points<V>(
    ranges: Seq<(u16, u16, V)>,
    map: Map<u16, (u16, V)>,
    points: Map<u16, V>,
)
    requires
        lists(ranges, map),
        non_overlapping(map),
    ensures
        lists(with_points(ranges, points), with_ranges(Map::empty(), with_points(ranges, points))),
        non_overlapping(with_ranges(Map::empty(), with_points(ranges, points))),
        merged(with_ranges(Map::empty(), with_points(ranges, points)), |a: V, b: V| a == b),
        forall|slot: u16| #[trigger]
            lookup(with_ranges(Map::empty(), with_points(ranges, points)), slot) == expected_value(
                map,
                points,
                slot,
            ),
{
    let identical = |a: V, b: V| a == b;
    let cut = cut_at(ranges, points);
    let answers = lemma_answers(cut, identical);
    let made = with_ranges(Map::empty(), with_points(ranges, points));
    lemma_joins_only(cut, answers, identical);
    lemma_replaced(ranges, map, points, cut, answers, identical);
    assert forall|slot: u16| #[trigger] lookup(made, slot) == expected_value(map, points, slot) by {
        assert(same_option(lookup(made, slot), expected_value(map, points, slot), identical));
    }
}

/// Whether two maps have the same ranges, with values that are the same by `same`.
pub open spec fn same_map<V>(
    a: Map<u16, (u16, V)>,
    b: Map<u16, (u16, V)>,
    same: spec_fn(V, V) -> bool,
) -> bool {
    &&& forall|end: u16| #[trigger] a.contains_key(end) <==> #[trigger] b.contains_key(end)
    &&& forall|end: u16| #[trigger]
        a.contains_key(end) ==> a[end].0 == b[end].0 && same(a[end].1, b[end].1)
}

/// A range of one of two merged maps that look alike is a range of the other.
proof fn lemma_same_range<V>(
    a: Map<u16, (u16, V)>,
    b: Map<u16, (u16, V)>,
    end: u16,
    same: spec_fn(V, V) -> bool,
)
    requires
        equivalence(same),
        non_overlapping(a),
        non_overlapping(b),
        merged(a, same),
        merged(b, same),
        forall|slot: u16| same_option(#[trigger] lookup(a, slot), lookup(b, slot), same),
        a.contains_key(end),
    ensures
        b.contains_key(end),
        b[end].0 == a[end].0,
        same(a[end].1, b[end].1),
{
    let (start, value) = a[end];
    law_lookup(a, start);
    assert(lookup(a, start) == Some(value));
    assert(same_option(lookup(a, start), lookup(b, start), same));
    let other = covering_end(b, start).unwrap();
    let twin = b[other].1;
    assert(is_next_end(b, start, other) && b[other].0 <= start);
    assert(same(value, twin) && same(twin, value));
    if b[other].0 < start {
        let slot = (start - 1) as u16;
        law_lookup(b, slot);
        assert(lookup(b, slot) == Some(twin));
        assert(same_option(lookup(a, slot), lookup(b, slot), same));
        let touching = covering_end(a, slot).unwrap();
        assert(is_next_end(a, slot, touching) && a[touching].0 <= slot);
        assert(touching < end);
        assert(touching < start) by {
            assert(a.contains_key(touching) && a.contains_key(end));
        }
        assert(same(a[touching].1, twin) && same(twin, value));
    }
    if other < end {
        let slot = (other + 1) as u16;
        law_lookup(a, slot);
        assert(lookup(a, slot) == Some(value));
        assert(same_option(lookup(a, slot), lookup(b, slot), same));
        let touching = covering_end(b, slot).unwrap();
        assert(is_next_end(b, slot, touching) && b[touching].0 <= slot);
        assert(other < touching);
        assert(same(value, b[touching].1));
        assert(same(twin, value) && same(value, b[touching].1));
    } else if end < other {
        let slot = (end + 1) as u16;
        law_lookup(b, slot);
        assert(lookup(b, slot) == Some(twin));
        assert(same_option(lookup(a, slot), lookup(b, slot), same));
        let touching = covering_end(a, slot).unwrap();
        assert(is_next_end(a, slot, touching) && a[touching].0 <= slot);
        assert(end < touching);
        assert(same(a[touching].1, twin));
        assert(same(twin, a[touching].1));
        assert(same(value, twin) && same(twin, a[touching].1));
    }
}

/// A merged map is decided by the values of its slots: there is one way to write
/// them as ranges of which no two touch with equal values.
pub proof fn law_merged_map_is_unique<V>(
    a: Map<u16, (u16, V)>,
    b: Map<u16, (u16, V)>,
    same: spec_fn(V, V) -> bool,
)
    requires
        equivalence(same),
        non_overlapping(a),
        non_overlapping(b),
        merged(a, same),
        merged(b, same),
        forall|slot: u16| same_option(#[trigger] lookup(a, slot), lookup(b, slot), same),
    ensures
        same_map(a, b, same),
{
    assert forall|slot: u16| same_option(#[trigger] lookup(b, slot), lookup(a, slot), same) by {
        assert(same_option(lookup(a, slot), lookup(b, slot), same));
    }
    assert forall|end: u16| #[trigger] a.contains_key(end) <==> #[trigger] b.contains_key(end) by {
        if a.contains_key(end) {
            lemma_same_range(a, b, end, same);
        }
        if b.contains_key(end) {
            lemma_same_range(b, a, end, same);
        }
    }
    assert forall|end: u16| #[trigger] a.contains_key(end) implies a[end].0 == b[end].0 && same(
        a[end].1,
        b[end].1,
    ) by {
        lemma_same_range(a, b, end, same);
    }
}

/// A merged map has the fewest ranges: wherever one of its ranges ends, a range ends in every
/// other map without overlap that gives its slots the same values.
pub proof fn law_merged_map_is_least<V>(
    a: Map<u16, (u16, V)>,
    b: Map<u16, (u16, V)>,
    same: spec_fn(V, V) -> bool,
)
    requires
        equivalence(same),
        non_overlapping(a),
        non_overlapping(b),
        merged(a, same),
        forall|slot: u16| same_option(#[trigger] lookup(a, slot), lookup(b, slot), same),
    ensures
        a.dom().subset_of(b.dom()),
        b.dom().finite() ==> a.dom().len() <= b.dom().len(),
{
    assert forall|end: u16| a.contains_key(end) implies #[trigger] b.contains_key(end) by {
        law_lookup(a, end);
        assert(same_option(lookup(a, end), lookup(b, end), same));
        let other = covering_end(b, end).unwrap();
        let twin = b[other].1;
        assert(is_next_end(b, end, other) && b[other].0 <= end);
        if end < other {
            let slot = (end + 1) as u16;
            law_lookup(b, slot);
            assert(lookup(b, slot) == Some(twin));
            assert(same_option(lookup(a, slot), lookup(b, slot), same));
            let touching = covering_end(a, slot).unwrap();
            assert(is_next_end(a, slot, touching) && a[touching].0 <= slot);
            assert(a.contains_key(touching) && end < touching);
            assert(same(a[touching].1, twin) && same(twin, a[touching].1));
            assert(same(a[end].1, twin) && same(twin, a[touching].1));
        }
    }
    assert(a.dom().subset_of(b.dom())) by {
        assert forall|end: u16| a.dom().contains(end) implies b.dom().contains(end) by {
            assert(b.contains_key(end));
        }
    }
    if b.dom().finite() {
        vstd::set_lib::lemma_len_subset(a.dom(), b.dom());
    }
}

/// Whether `after` is `before` with `points` replaced, up to `same`: the ranges are apart and
/// merged, each named slot has its new value and every other slot what it had. No points
/// change nothing.
pub open spec fn replaces<V>(
    before: Map<u16, (u16, V)>,
    points: Map<u16, V>,
    after: Map<u16, (u16, V)>,
    same: spec_fn(V, V) -> bool,
) -> bool {
    if points.is_empty() {
        after == before
    } else {
        &&& non_overlapping(after)
        &&& merged(after, same)
        &&& forall|slot: u16|
            same_option(
                #[trigger] lookup(after, slot),
                expected_value(before, points, slot),
                same,
            )
    }
}

proof fn lemma_same_map_lookup<V>(
    a: Map<u16, (u16, V)>,
    b: Map<u16, (u16, V)>,
    slot: u16,
    same: spec_fn(V, V) -> bool,
)
    requires
        same_map(a, b, same),
    ensures
        same_option(lookup(a, slot), lookup(b, slot), same),
{
    assert forall|end: u16| is_next_end(a, slot, end) <==> is_next_end(b, slot, end) by {
        if is_next_end(a, slot, end) {
            assert forall|other: u16| #[trigger]
                b.contains_key(other) && slot <= other implies end <= other by {
                assert(a.contains_key(other));
            }
            assert(b.contains_key(end));
        }
        if is_next_end(b, slot, end) {
            assert forall|other: u16| #[trigger]
                a.contains_key(other) && slot <= other implies end <= other by {
                assert(b.contains_key(other));
            }
            assert(a.contains_key(end));
        }
    }
    if exists|end: u16| is_next_end(a, slot, end) {
        let end = choose|end: u16| is_next_end(a, slot, end);
        assert(is_next_end(a, slot, end) && is_next_end(b, slot, end));
        lemma_covering_end(a, slot, end);
        lemma_covering_end(b, slot, end);
        assert(a.contains_key(end));
    }
}

proof fn lemma_same_option_steps<V>(
    a: Option<V>,
    b: Option<V>,
    c: Option<V>,
    same: spec_fn(V, V) -> bool,
)
    requires
        equivalence(same),
        same_option(a, b, same),
        same_option(b, c, same),
    ensures
        same_option(a, c, same),
        same_option(b, a, same),
{
}

/// Replacing the same points a second time changes nothing.
pub proof fn law_replace_points_twice<V>(
    before: Map<u16, (u16, V)>,
    points: Map<u16, V>,
    once: Map<u16, (u16, V)>,
    twice: Map<u16, (u16, V)>,
    same: spec_fn(V, V) -> bool,
)
    requires
        equivalence(same),
        replaces(before, points, once, same),
        replaces(once, points, twice, same),
    ensures
        same_map(twice, once, same),
{
    if !points.is_empty() {
        assert forall|slot: u16| same_option(
            #[trigger] lookup(twice, slot),
            lookup(once, slot),
            same,
        ) by {
            let wanted = expected_value(before, points, slot);
            assert(same_option(lookup(twice, slot), expected_value(once, points, slot), same));
            assert(same_option(lookup(once, slot), wanted, same));
            if points.contains_key(slot) {
                assert(same(lookup(once, slot)->0, points[slot]));
                assert(same(points[slot], lookup(once, slot)->0));
            }
        }
        law_merged_map_is_unique(twice, once, same);
    }
}

/// Replacing points in two steps comes to the same as replacing them at once, with the later
/// ones written over the earlier.
pub proof fn law_replace_points_in_steps<V>(
    before: Map<u16, (u16, V)>,
    first: Map<u16, V>,
    second: Map<u16, V>,
    halfway: Map<u16, (u16, V)>,
    in_steps: Map<u16, (u16, V)>,
    copy: Map<u16, (u16, V)>,
    at_once: Map<u16, (u16, V)>,
    same: spec_fn(V, V) -> bool,
)
    requires
        equivalence(same),
        same_map(before, copy, same),
        replaces(before, first, halfway, same),
        replaces(halfway, second, in_steps, same),
        replaces(copy, first.union_prefer_right(second), at_once, same),
    ensures
        same_map(in_steps, at_once, same),
{
    let union = first.union_prefer_right(second);
    if first.is_empty() && second.is_empty() {
        assert(union =~= Map::empty());
    } else {
        if !first.is_empty() {
            let slot = choose|slot: u16| first.contains_key(slot);
            assert(first.contains_key(slot)) by {
                if forall|slot: u16| !first.contains_key(slot) {
                    assert(first =~= Map::empty());
                }
            }
            assert(union.contains_key(slot));
        } else {
            let slot = choose|slot: u16| second.contains_key(slot);
            assert(second.contains_key(slot)) by {
                if forall|slot: u16| !second.contains_key(slot) {
                    assert(second =~= Map::empty());
                }
            }
            assert(union.contains_key(slot));
        }
        assert(!union.is_empty());
        assert forall|slot: u16| same_option(
            #[trigger] lookup(in_steps, slot),
            lookup(at_once, slot),
            same,
        ) by {
            lemma_same_map_lookup(before, copy, slot, same);
            assert(same_option(lookup(at_once, slot), expected_value(copy, union, slot), same));
            assert(same_option(
                expected_value(before, union, slot),
                expected_value(copy, union, slot),
                same,
            ));
            assert(same_option(
                lookup(in_steps, slot),
                expected_value(halfway, second, slot),
                same,
            )) by {
                if second.is_empty() {
                    assert(!second.contains_key(slot));
                    if let Some(value) = lookup(halfway, slot) {
                        assert(same(value, value));
                    }
                }
            }
            assert(same_option(
                lookup(halfway, slot),
                expected_value(before, first, slot),
                same,
            )) by {
                if first.is_empty() {
                    assert(!first.contains_key(slot));
                    if let Some(value) = lookup(before, slot) {
                        assert(same(value, value));
                    }
                }
            }
            assert(same_option(
                expected_value(halfway, second, slot),
                expected_value(before, union, slot),
                same,
            )) by {
                if second.contains_key(slot) {
                    assert(same(second[slot], second[slot]));
                }
            }
            let a = lookup(in_steps, slot);
            let b = expected_value(halfway, second, slot);
            let c = expected_value(before, union, slot);
            let d = expected_value(copy, union, slot);
            let e = lookup(at_once, slot);
            lemma_same_option_steps(a, b, c, same);
            lemma_same_option_steps(a, c, d, same);
            lemma_same_option_steps(e, d, d, same);
            lemma_same_option_steps(a, d, e, same);
        }
        law_merged_map_is_unique(in_steps, at_once, same);
    }
}

proof fn lemma_same_rising(a: Seq<u16>, b: Seq<u16>)
    requires
        forall|i: int, j: int| 0 <= i < j < a.len() ==> a[i] < a[j],
        forall|i: int, j: int| 0 <= i < j < b.len() ==> b[i] < b[j],
        forall|slot: u16| a.contains(slot) <==> b.contains(slot),
    ensures
        a == b,
    decreases a.len(),
{
    if a.len() == 0 {
        if b.len() > 0 {
            assert(b.contains(b[0]));
        }
        assert(a =~= b);
    } else {
        assert(a.contains(a[a.len() - 1]));
        assert(b.len() > 0);
        assert(b.contains(b[b.len() - 1]));
        assert(a.contains(b[b.len() - 1]) && b.contains(a[a.len() - 1]));
        let (before, other) = (a.drop_last(), b.drop_last());
        assert(a.last() == b.last());
        assert forall|slot: u16| before.contains(slot) <==> other.contains(slot) by {
            if before.contains(slot) {
                let i = choose|i: int| 0 <= i < before.len() && before[i] == slot;
                assert(a[i] == slot);
                assert(a.contains(slot));
                let j = choose|j: int| 0 <= j < b.len() && b[j] == slot;
                assert(a[i] < a[a.len() - 1]);
                assert(other[j] == slot);
            }
            if other.contains(slot) {
                let i = choose|i: int| 0 <= i < other.len() && other[i] == slot;
                assert(b[i] == slot);
                assert(b.contains(slot));
                let j = choose|j: int| 0 <= j < a.len() && a[j] == slot;
                assert(b[i] < b[b.len() - 1]);
                assert(before[j] == slot);
            }
        }
        lemma_same_rising(before, other);
        assert(a =~= before.push(a.last()));
        assert(b =~= other.push(b.last()));
    }
}

/// Maps with the same ranges are walked alike: range by range with the same bounds and values
/// that are the same.
pub proof fn law_same_maps_are_walked_alike<V>(
    a: Seq<(u16, u16, V)>,
    b: Seq<(u16, u16, V)>,
    map: Map<u16, (u16, V)>,
    other: Map<u16, (u16, V)>,
    same: spec_fn(V, V) -> bool,
)
    requires
        lists(a, map),
        lists(b, other),
        same_map(map, other, same),
    ensures
        a.len() == b.len(),
        forall|i: int|
            0 <= i < a.len() ==> (#[trigger] a[i]).0 == b[i].0 && a[i].1 == b[i].1 && same(
                a[i].2,
                b[i].2,
            ),
{
    let end = |range: (u16, u16, V)| range.1;
    let ends = a.map_values(end);
    let other_ends = b.map_values(end);
    assert forall|slot: u16| ends.contains(slot) <==> other_ends.contains(slot) by {
        if ends.contains(slot) {
            let i = choose|i: int| 0 <= i < ends.len() && ends[i] == slot;
            assert(map.contains_key(a[i].1));
            assert(other.contains_key(slot));
            let j = choose|j: int| 0 <= j < b.len() && (#[trigger] b[j]).1 == slot;
            assert(other_ends[j] == slot);
        }
        if other_ends.contains(slot) {
            let i = choose|i: int| 0 <= i < other_ends.len() && other_ends[i] == slot;
            assert(other.contains_key(b[i].1));
            assert(map.contains_key(slot));
            let j = choose|j: int| 0 <= j < a.len() && (#[trigger] a[j]).1 == slot;
            assert(ends[j] == slot);
        }
    }
    assert forall|i: int, j: int| 0 <= i < j < ends.len() implies ends[i] < ends[j] by {
        assert(a[i].1 < a[j].1);
    }
    assert forall|i: int, j: int| 0 <= i < j < other_ends.len() implies other_ends[i]
        < other_ends[j] by {
        assert(b[i].1 < b[j].1);
    }
    lemma_same_rising(ends, other_ends);
    assert forall|i: int| 0 <= i < a.len() implies (#[trigger] a[i]).0 == b[i].0 && a[i].1 == b[i].1
        && same(a[i].2, b[i].2) by {
        assert(ends[i] == a[i].1 && other_ends[i] == b[i].1);
        assert(map.contains_key(a[i].1) && other.contains_key(b[i].1));
    }
}

/// Inserting a range apart from all others gives its slots its value and leaves
/// every other slot as it was.
pub proof fn law_insert<V>(map: Map<u16, (u16, V)>, start: u16, end: u16, value: V)
    requires
        non_overlapping(map),
        start <= end,
        forall|other: u16| #[trigger]
            map.contains_key(other) ==> other < start || end < map[other].0,
    ensures
        non_overlapping(map.insert(end, (start, value))),
        forall|slot: u16| #[trigger]
            lookup(map.insert(end, (start, value)), slot) == if start <= slot <= end {
                Some(value)
            } else {
                lookup(map, slot)
            },
{
    let after = map.insert(end, (start, value));
    assert forall|other: u16| #[trigger] map.contains_key(other) implies other != end
        && map[other].0 <= other by {}
    assert(non_overlapping(after));
    assert forall|slot: u16| #[trigger] lookup(after, slot) == if start <= slot <= end {
        Some(value)
    } else {
        lookup(map, slot)
    } by {
        law_lookup(map, slot);
        law_lookup(after, slot);
        if start <= slot <= end {
            assert(after.contains_key(end));
        } else if lookup(map, slot) is Some {
            let other = covering_end(map, slot).unwrap();
            assert(is_next_end(map, slot, other) && map[other].0 <= slot);
            assert(after.contains_key(other));
        } else {
            assert forall|other: u16| #[trigger] after.contains_key(other) implies !(after[other].0
                <= slot <= other) by {
                if other != end {
                    assert(map.contains_key(other));
                }
            }
        }
    }
}

/// Removing the range that was inserted at a new end gives back the map from
/// before.
pub proof fn law_remove_undoes_insert<V>(map: Map<u16, (u16, V)>, start: u16, end: u16, value: V)
    requires
        !map.contains_key(end),
    ensures
        map.insert(end, (start, value)).remove(end) == map,
        map.insert(end, (start, value))[end] == (start, value),
{
    assert(map.insert(end, (start, value)).remove(end) =~= map);
}

/// Removing a range leaves its slots without a value and every other slot as it
/// was.
pub proof fn law_remove_range<V>(map: Map<u16, (u16, V)>, end: u16)
    requires
        non_overlapping(map),
        map.contains_key(end),
    ensures
        non_overlapping(map.remove(end)),
        forall|slot: u16| #[trigger]
            lookup(map.remove(end), slot) == if map[end].0 <= slot <= end {
                None
            } else {
                lookup(map, slot)
            },
{
    let after = map.remove(end);
    assert(non_overlapping(after)) by {
        assert forall|other: u16| #[trigger] after.contains_key(other) implies map.contains_key(
            other,
        ) by {}
    }
    assert forall|slot: u16| #[trigger] lookup(after, slot) == if map[end].0 <= slot <= end {
        None
    } else {
        lookup(map, slot)
    } by {
        law_lookup(map, slot);
        law_lookup(after, slot);
        if map[end].0 <= slot <= end {
            assert forall|other: u16| #[trigger] after.contains_key(other) implies !(after[other].0
                <= slot <= other) by {
                assert(map.contains_key(other));
            }
        } else if lookup(map, slot) is Some {
            let other = covering_end(map, slot).unwrap();
            assert(is_next_end(map, slot, other) && map[other].0 <= slot);
            assert(after.contains_key(other));
        } else {
            assert forall|other: u16| #[trigger] after.contains_key(other) implies !(after[other].0
                <= slot <= other) by {
                assert(map.contains_key(other));
            }
        }
    }
}

} // verus!
