//! Sets of nodes, and maps from nodes to their availability zones.

use arcstr::ArcStr;
use vstd::prelude::*;

use crate::arc_str::arc_text;
use crate::node_address::{NodeAddress, NodeKey};

verus! {

/// The addresses of `nodes`.
pub open spec fn keys_of(nodes: Seq<NodeAddress>) -> Set<NodeKey> {
    Set::new(|key: NodeKey| exists|i: int| 0 <= i < nodes.len() && (#[trigger] nodes[i])@ == key)
}

/// One more node adds its address.
pub proof fn lemma_keys_of_take(nodes: Seq<NodeAddress>, i: int)
    requires
        0 <= i < nodes.len(),
    ensures
        keys_of(nodes.take(i + 1)) == keys_of(nodes.take(i)).insert(nodes[i]@),
{
    let before = nodes.take(i);
    let after = nodes.take(i + 1);
    assert forall|key: NodeKey| keys_of(after).contains(key) implies keys_of(before).insert(
        nodes[i]@,
    ).contains(key) by {
        let j = choose|j: int| 0 <= j < after.len() && (#[trigger] after[j])@ == key;
        if j < i {
            assert(before[j]@ == key);
        }
    }
    assert forall|key: NodeKey| keys_of(before).insert(nodes[i]@).contains(key) implies keys_of(
        after,
    ).contains(key) by {
        if key == nodes[i]@ {
            assert(after[i]@ == key);
        } else {
            let j = choose|j: int| 0 <= j < before.len() && (#[trigger] before[j])@ == key;
            assert(after[j]@ == key);
        }
    }
    assert(keys_of(after) =~= keys_of(before).insert(nodes[i]@));
}

/// Whether no address stands twice in `nodes`.
pub open spec fn distinct_nodes(nodes: Seq<NodeAddress>) -> bool {
    forall|i: int, j: int|
        0 <= i < j < nodes.len() ==> (#[trigger] nodes[i])@ != (#[trigger] nodes[j])@
}

/// Whether `node` stands in `nodes`.
pub fn contains_node(nodes: &[NodeAddress], node: &NodeAddress) -> (found: bool)
    ensures
        found == keys_of(nodes@).contains(node@),
{
    for i in 0..nodes.len()
        invariant
            forall|j: int| 0 <= j < i ==> (#[trigger] nodes@[j])@ != node@,
    {
        if nodes[i] == *node {
            return true;
        }
    }
    false
}

/// A set of nodes: none is in it twice.
#[derive(Debug)]
pub struct NodeSet {
    nodes: Vec<NodeAddress>,
}

impl View for NodeSet {
    type V = Set<NodeKey>;

    closed spec fn view(&self) -> Set<NodeKey> {
        keys_of(self.nodes@)
    }
}

impl NodeSet {
    /// No node is listed twice.
    pub closed spec fn wf(&self) -> bool {
        distinct_nodes(self.nodes@)
    }

    /// The empty set.
    pub fn new() -> (set: Self)
        ensures
            set.wf(),
            set@ == Set::<NodeKey>::empty(),
    {
        let set = NodeSet { nodes: Vec::new() };
        assert(set@ =~= Set::<NodeKey>::empty());
        set
    }

    /// Whether `node` is in the set.
    pub fn contains(&self, node: &NodeAddress) -> (found: bool)
        ensures
            found == self@.contains(node@),
    {
        contains_node(self.nodes.as_slice(), node)
    }

    /// Adds `node` to the set. Tells whether it was missing.
    pub fn insert(&mut self, node: NodeAddress) -> (missing: bool)
        requires
            old(self).wf(),
        ensures
            final(self).wf(),
            final(self)@ == old(self)@.insert(node@),
            missing == !old(self)@.contains(node@),
    {
        if self.contains(&node) {
            assert(self@ =~= old(self)@.insert(node@));
            return false;
        }
        let ghost before = self.nodes@;
        self.nodes.push(node);
        proof {
            let after = self.nodes@;
            assert forall|key: NodeKey| #[trigger]
                keys_of(before).insert(node@).contains(key) implies keys_of(after).contains(key) by {
                if key == node@ {
                    assert(after[before.len() as int]@ == key);
                } else {
                    let i = choose|i: int| 0 <= i < before.len() && (#[trigger] before[i])@ == key;
                    assert(after[i]@ == key);
                }
            }
            assert forall|key: NodeKey| #[trigger] keys_of(after).contains(key) implies keys_of(
                before,
            ).insert(node@).contains(key) by {
                let i = choose|i: int| 0 <= i < after.len() && (#[trigger] after[i])@ == key;
                if i < before.len() {
                    assert(before[i]@ == key);
                }
            }
            assert(keys_of(after) =~= keys_of(before).insert(node@));
            assert forall|i: int, j: int| 0 <= i < j < after.len() implies (
            #[trigger] after[i])@ != (#[trigger] after[j])@ by {
                assert(after[i] == before[i]);
                if j == before.len() {
                    assert(keys_of(before).contains(before[i]@));
                } else {
                    assert(after[j] == before[j]);
                }
            }
        }
        true
    }

    /// The nodes of the set, each once.
    pub fn nodes(&self) -> (nodes: &[NodeAddress])
        requires
            self.wf(),
        ensures
            keys_of(nodes@) == self@,
            distinct_nodes(nodes@),
    {
        self.nodes.as_slice()
    }
}

impl Default for NodeSet {
    fn default() -> (set: Self)
        ensures
            set.wf(),
            set@ == Set::<NodeKey>::empty(),
    {
        Self::new()
    }
}

/// Whether entry `i` of `entries` is that of the node `key`.
pub open spec fn entry_of(entries: Seq<(NodeAddress, ArcStr)>, key: NodeKey, i: int) -> bool {
    0 <= i < entries.len() && entries[i].0@ == key
}

/// Whether some entry is that of the node `key`.
pub open spec fn has_entry(entries: Seq<(NodeAddress, ArcStr)>, key: NodeKey) -> bool {
    exists|i: int| entry_of(entries, key, i)
}

/// The map that `entries` stand for.
pub open spec fn zone_map(entries: Seq<(NodeAddress, ArcStr)>) -> Map<NodeKey, Seq<char>> {
    Map::new(
        |key: NodeKey| has_entry(entries, key),
        |key: NodeKey| arc_text(entries[choose|i: int| entry_of(entries, key, i)].1),
    )
}

/// Whether no node has two entries.
pub open spec fn distinct_entries(entries: Seq<(NodeAddress, ArcStr)>) -> bool {
    forall|i: int, j: int|
        0 <= i < j < entries.len() ==> (#[trigger] entries[i]).0@ != (#[trigger] entries[j]).0@
}

proof fn lemma_entry(entries: Seq<(NodeAddress, ArcStr)>, i: int)
    requires
        distinct_entries(entries),
        0 <= i < entries.len(),
    ensures
        zone_map(entries).contains_key(entries[i].0@),
        zone_map(entries)[entries[i].0@] == arc_text(entries[i].1),
{
    let key = entries[i].0@;
    assert(entry_of(entries, key, i));
    let j = choose|j: int| entry_of(entries, key, j);
    assert(entry_of(entries, key, j));
    assert(i == j);
}

proof fn lemma_map_of_entries(
    entries: Seq<(NodeAddress, ArcStr)>,
    map: Map<NodeKey, Seq<char>>,
)
    requires
        distinct_entries(entries),
        forall|i: int|
            0 <= i < entries.len() ==> map.contains_key((#[trigger] entries[i]).0@)
                && map[entries[i].0@] == arc_text(entries[i].1),
        forall|key: NodeKey| #[trigger] map.contains_key(key) ==> has_entry(entries, key),
    ensures
        zone_map(entries) == map,
{
    assert forall|key: NodeKey| zone_map(entries).contains_key(key) == map.contains_key(key) by {
        if has_entry(entries, key) {
            let i = choose|i: int| entry_of(entries, key, i);
            assert(map.contains_key(entries[i].0@));
        }
    }
    assert forall|key: NodeKey| zone_map(entries).contains_key(key) implies zone_map(entries)[key]
        == map[key] by {
        let i = choose|i: int| entry_of(entries, key, i);
        assert(map[entries[i].0@] == arc_text(entries[i].1));
    }
    assert(zone_map(entries) =~= map);
}

/// The availability zones of nodes: each node has at most one.
#[derive(Debug)]
pub struct NodeZones {
    entries: Vec<(NodeAddress, ArcStr)>,
}

impl View for NodeZones {
    type V = Map<NodeKey, Seq<char>>;

    closed spec fn view(&self) -> Map<NodeKey, Seq<char>> {
        zone_map(self.entries@)
    }
}

impl NodeZones {
    /// No node has two entries.
    pub closed spec fn wf(&self) -> bool {
        distinct_entries(self.entries@)
    }

    /// No zone is known.
    pub fn new() -> (zones: Self)
        ensures
            zones.wf(),
            zones@ == Map::<NodeKey, Seq<char>>::empty(),
    {
        let zones = NodeZones { entries: Vec::new() };
        assert(zones@ =~= Map::<NodeKey, Seq<char>>::empty());
        zones
    }

    /// The index of the node's entry, or the number of entries.
    fn position(&self, node: &NodeAddress) -> (index: usize)
        ensures
            index <= self.entries@.len(),
            index < self.entries@.len() ==> self.entries@[index as int].0@ == node@,
            index == self.entries@.len() ==> !has_entry(self.entries@, node@),
    {
        for i in 0..self.entries.len()
            invariant
                forall|j: int| 0 <= j < i ==> (#[trigger] self.entries@[j]).0@ != node@,
        {
            if self.entries[i].0 == *node {
                return i;
            }
        }
        self.entries.len()
    }

    /// The zone of `node`.
    pub fn get(&self, node: &NodeAddress) -> (zone: Option<&ArcStr>)
        requires
            self.wf(),
        ensures
            zone is Some == self@.contains_key(node@),
            zone matches Some(found) ==> arc_text(*found) == self@[node@],
    {
        let index: usize = self.position(node);
        if index < self.entries.len() {
            proof {
                lemma_entry(self.entries@, index as int);
            }
            Some(&self.entries[index].1)
        } else {
            None
        }
    }

    /// Gives `node` the zone `zone`, in place of any that it had.
    pub fn insert(&mut self, node: NodeAddress, zone: ArcStr)
        requires
            old(self).wf(),
        ensures
            final(self).wf(),
            final(self)@ == old(self)@.insert(node@, arc_text(zone)),
    {
        let index: usize = self.position(&node);
        let ghost before = self.entries@;
        let ghost map = old(self)@.insert(node@, arc_text(zone));
        if index < self.entries.len() {
            self.entries.set(index, (node, zone));
        } else {
            self.entries.push((node, zone));
        }
        proof {
            let after = self.entries@;
            assert(distinct_entries(after)) by {
                assert forall|i: int, j: int| 0 <= i < j < after.len() implies (
                #[trigger] after[i]).0@ != (#[trigger] after[j]).0@ by {
                    if i < before.len() && i != index {
                        assert(after[i] == before[i]);
                    }
                    if j < before.len() && j != index {
                        assert(after[j] == before[j]);
                    }
                    if index == before.len() {
                        assert(after[i].0@ == node@ ==> entry_of(before, node@, i));
                    } else {
                        assert(before[i].0@ != before[j].0@);
                    }
                }
            }
            assert forall|i: int| 0 <= i < after.len() implies map.contains_key(
                (#[trigger] after[i]).0@,
            ) && map[after[i].0@] == arc_text(after[i].1) by {
                if i != index {
                    assert(after[i] == before[i]);
                    lemma_entry(before, i);
                    assert(after[i].0@ != after[index as int].0@);
                }
            }
            assert forall|key: NodeKey| #[trigger] map.contains_key(key) implies has_entry(
                after,
                key,
            ) by {
                if key == node@ {
                    assert(entry_of(after, key, index as int));
                } else {
                    let i = choose|i: int| entry_of(before, key, i);
                    assert(entry_of(before, key, i));
                    assert(i != index);
                    assert(entry_of(after, key, i));
                }
            }
            lemma_map_of_entries(after, map);
        }
    }

    /// Takes over every zone of `other`.
    pub fn merge(&mut self, other: &NodeZones)
        requires
            old(self).wf(),
            other.wf(),
        ensures
            final(self).wf(),
            final(self)@ == old(self)@.union_prefer_right(other@),
    {
        for i in 0..other.entries.len()
            invariant
                self.wf(),
                other.wf(),
                self@ == old(self)@.union_prefer_right(zone_map(other.entries@.take(i as int))),
        {
            let ghost seen = other.entries@.take(i as int);
            let ghost next = other.entries@.take(i + 1);
            self.insert(other.entries[i].0.clone(), other.entries[i].1.clone());
            proof {
                let entry = other.entries@[i as int];
                let map = zone_map(seen).insert(entry.0@, arc_text(entry.1));
                assert(next =~= seen.push(entry));
                assert(distinct_entries(seen) && distinct_entries(next));
                assert forall|j: int| 0 <= j < next.len() implies map.contains_key(
                    (#[trigger] next[j]).0@,
                ) && map[next[j].0@] == arc_text(next[j].1) by {
                    if j < i {
                        assert(next[j] == seen[j]);
                        lemma_entry(seen, j);
                        assert(next[j].0@ != next[i as int].0@);
                    }
                }
                assert forall|key: NodeKey| #[trigger] map.contains_key(key) implies has_entry(
                    next,
                    key,
                ) by {
                    if key == entry.0@ {
                        assert(entry_of(next, key, i as int));
                    } else {
                        let j = choose|j: int| entry_of(seen, key, j);
                        assert(entry_of(seen, key, j));
                        assert(entry_of(next, key, j));
                    }
                }
                lemma_map_of_entries(next, map);
                assert(self@ =~= old(self)@.union_prefer_right(zone_map(next)));
            }
        }
        assert(other.entries@.take(other.entries@.len() as int) =~= other.entries@);
        assert(self@ =~= old(self)@.union_prefer_right(other@));
    }
}

impl Default for NodeZones {
    fn default() -> (zones: Self)
        ensures
            zones.wf(),
            zones@ == Map::<NodeKey, Seq<char>>::empty(),
    {
        Self::new()
    }
}

} // verus!
