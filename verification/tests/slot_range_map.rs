use redis_cluster::node_address::NodeAddress;
use redis_cluster::slot_range_map::SlotRangeMap;
use std::collections::BTreeMap;

#[test]
fn point_lookup_within_range() {
    let mut m = SlotRangeMap::new();
    m.insert(100, 200, "a");
    m.insert(300, 400, "b");

    assert_eq!(m.get(100), Some(&"a"));
    assert_eq!(m.get(150), Some(&"a"));
    assert_eq!(m.get(200), Some(&"a"));
    assert_eq!(m.get(300), Some(&"b"));
    assert_eq!(m.get(350), Some(&"b"));
    assert_eq!(m.get(400), Some(&"b"));
}

#[test]
fn point_lookup_in_gaps_returns_none() {
    let mut m = SlotRangeMap::new();
    m.insert(100, 200, "a");
    m.insert(300, 400, "b");

    assert_eq!(m.get(99), None);
    assert_eq!(m.get(250), None);
    assert_eq!(m.get(401), None);
}

#[test]
fn range_containing_reports_bounds_or_none() {
    let mut m = SlotRangeMap::new();
    m.insert(100, 200, "a");
    m.insert(300, 400, "b");

    assert_eq!(m.range_containing(100), Some((100, 200)));
    assert_eq!(m.range_containing(150), Some((100, 200)));
    assert_eq!(m.range_containing(200), Some((100, 200)));
    assert_eq!(m.range_containing(400), Some((300, 400)));
    assert_eq!(m.range_containing(250), None);
    assert_eq!(m.range_containing(401), None);
}

#[test]
fn remove_range_takes_the_entry_by_end() {
    let mut m = SlotRangeMap::new();
    m.insert(100, 200, "a");
    m.insert(300, 400, "b");

    assert_eq!(m.remove_range(200), Some((100, "a")));
    assert_eq!(m.get(150), None);
    assert_eq!(m.get(350), Some(&"b"));
    assert_eq!(m.remove_range(200), None);
}

#[test]
fn iter_yields_ranges_in_order() {
    let mut m = SlotRangeMap::new();
    m.insert(300, 400, "b");
    m.insert(100, 200, "a");

    let entries: Vec<_> = m.iter();
    assert_eq!(entries, vec![(100, 200, &"a"), (300, 400, &"b")]);
}

#[test]
fn replace_points_splits_ranges_and_merges_without_crossing_gaps() {
    let mut m = SlotRangeMap::new();
    m.insert(0, 9, "a");
    m.insert(20, 29, "b");

    m.replace_points(BTreeMap::from([
        (0, "c"),
        (5, "c"),
        (9, "b"),
        (10, "b"),
        (19, "b"),
        (20, "b"),
        (30, "b"),
    ]));

    assert_eq!(
        m.iter(),
        vec![
            (0, 0, &"c"),
            (1, 4, &"a"),
            (5, 5, &"c"),
            (6, 8, &"a"),
            (9, 10, &"b"),
            (19, 30, &"b"),
        ]
    );
}

#[test]
fn replaced_points_change_no_other_slot() {
    let mut m = SlotRangeMap::new();
    m.insert(0, 99, 1u32);
    m.insert(200, 65535, 2u32);
    let before = m.clone();
    let points = BTreeMap::from([(0, 7u32), (99, 2), (100, 2), (199, 2), (65535, 1)]);

    m.replace_points(points.clone());

    for slot in 0..=65535u16 {
        let expected = points.get(&slot).or(before.get(slot));
        assert_eq!(m.get(slot), expected);
    }
}

#[test]
fn replacing_points_again_changes_nothing() {
    let mut m = SlotRangeMap::new();
    m.insert(10, 20, 'a');
    let points = BTreeMap::from([(9, 'a'), (15, 'b'), (16, 'b')]);

    m.replace_points(points.clone());
    let once: Vec<_> = m.iter().into_iter().map(|(s, e, v)| (s, e, *v)).collect();
    m.replace_points(points);
    let twice: Vec<_> = m.iter().into_iter().map(|(s, e, v)| (s, e, *v)).collect();

    assert_eq!(once, vec![(9, 14, 'a'), (15, 16, 'b'), (17, 20, 'a')]);
    assert_eq!(once, twice);
}

#[test]
fn touching_ranges_with_equal_values_become_one() {
    // Two ways to give the same slots the same values end in the same ranges.
    let mut one = SlotRangeMap::new();
    one.insert(0, 4, 'a');
    one.insert(5, 9, 'a');
    one.replace_points(BTreeMap::from([(2, 'b')]));

    let mut other = SlotRangeMap::new();
    other.insert(0, 9, 'a');
    other.replace_points(BTreeMap::from([(2, 'b')]));

    assert_eq!(one.iter(), vec![(0, 1, &'a'), (2, 2, &'b'), (3, 9, &'a')]);
    assert_eq!(one.iter(), other.iter());
}

#[test]
fn replacing_no_points_keeps_the_ranges() {
    let mut m = SlotRangeMap::new();
    m.insert(0, 4, 'a');
    m.insert(5, 9, 'a');
    m.replace_points(BTreeMap::new());
    assert_eq!(m.get(0), Some(&'a'));
    assert_eq!(m.get(9), Some(&'a'));
    assert_eq!(m.get(10), None);
}

#[test]
fn inserting_replaces_the_range_with_the_same_end() {
    let mut m = SlotRangeMap::new();
    m.insert(0, 9, 'a');
    m.insert(5, 9, 'b');
    assert_eq!(m.iter(), vec![(5, 9, &'b')]);
    assert_eq!(m.get(4), None);
}

#[test]
fn removing_undoes_inserting() {
    let mut m = SlotRangeMap::new();
    m.insert(0, 9, 'a');
    m.insert(20, 29, 'b');
    assert_eq!(m.remove_range(29), Some((20, 'b')));
    assert_eq!(m.iter(), vec![(0, 9, &'a')]);
    assert_eq!(m.values(), vec![&'a']);
}

#[test]
fn cleared_map_is_like_a_new_one() {
    let mut m: SlotRangeMap<u8> = SlotRangeMap::default();
    m.insert(0, 65535, 1);
    m.clear();
    assert_eq!(m.get(0), None);
    assert!(m.iter().is_empty());
}

#[test]
fn addresses_are_replaced_and_merged_by_what_they_say() {
    let node = |host: &str| NodeAddress::new(host, 6379);
    let mut m = SlotRangeMap::new();
    m.insert(0, 4, node("a"));
    m.insert(5, 9, node("a"));
    m.replace_points(BTreeMap::from([(2, node("b")), (3, node("b")), (10, node("a"))]));
    let found: Vec<_> = m.iter().into_iter().map(|(s, e, n)| (s, e, n.to_text())).collect();
    assert_eq!(
        found,
        vec![
            (0, 1, "a:6379".to_string()),
            (2, 3, "b:6379".to_string()),
            (4, 10, "a:6379".to_string()),
        ]
    );
}

/// A value that is equal to none, not even to itself.
#[derive(Debug, Clone)]
struct Odd;

impl PartialEq for Odd {
    fn eq(&self, _other: &Self) -> bool {
        false
    }
}

#[test]
fn values_that_equal_nothing_keep_their_slots() {
    let mut m = SlotRangeMap::new();
    m.insert(0, 4, Odd);
    m.insert(5, 9, Odd);
    m.replace_points(BTreeMap::from([(7, Odd), (11, Odd)]));
    let found: Vec<_> = m.iter().into_iter().map(|(s, e, _)| (s, e)).collect();
    assert_eq!(found, vec![(0, 4), (5, 6), (7, 7), (8, 9), (11, 11)]);
}

#[test]
fn points_in_two_steps_are_points_at_once() {
    let mut in_steps = SlotRangeMap::new();
    in_steps.insert(0, 9, 'a');
    in_steps.insert(20, 29, 'b');
    let mut at_once = in_steps.clone();
    let first = BTreeMap::from([(3, 'x'), (4, 'y'), (15, 'b')]);
    let second = BTreeMap::from([(4, 'x'), (10, 'a')]);
    let mut union = first.clone();
    union.extend(second.clone());

    in_steps.replace_points(first);
    in_steps.replace_points(second);
    at_once.replace_points(union);

    assert_eq!(in_steps.iter(), at_once.iter());
}

#[test]
fn clones_hold_the_same_ranges() {
    let mut m = SlotRangeMap::new();
    m.insert(20, 29, 'b');
    m.insert(0, 9, 'a');
    let mut clone = m.clone();
    assert_eq!(clone.iter(), m.iter());
    clone.insert(40, 49, 'c');
    assert_eq!(m.get(45), None);
}
