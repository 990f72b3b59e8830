//! What is read out of a reply to `CLUSTER SLOTS`, said of the reply itself.

use vstd::prelude::*;

use crate::node_address::{NodeAddress, NodeKey};
use crate::text::utf8_lossy;
use crate::topology::{
    addresses, describes_range, hosts_are_shared, is_wildcard, leading_arrays,
    listed_address, listed_addresses, may_decide, parse_slots, range_items, range_of_item, serves,
    SlotRange,
};
use crate::topology_laws::{law_no_replica_filter, law_reading_stops, law_replica_filter};
use crate::value::{RedisResult, Value};

verus! {

/// The hosts that stand for every address of a machine are `0.0.0.0` and `::`.
pub proof fn law_wildcards(host: Seq<char>)
    ensures
        is_wildcard(host) <==> host == seq!['0', '.', '0', '.', '0', '.', '0'] || host == seq![
            ':',
            ':',
        ],
{
    reveal_strlit("0.0.0.0");
    reveal_strlit("::");
    assert("0.0.0.0"@ =~= seq!['0', '.', '0', '.', '0', '.', '0']);
    assert("::"@ =~= seq![':', ':']);
}

/// A node is listed with the host and port that its first two fields name, whatever fields
/// stand behind them. A host that is absent, empty or a wildcard is that of the node that
/// answered; `?` is no host, and neither is an empty one.
pub proof fn law_listed_address(fields: Vec<Value>, answering: Seq<char>)
    ensures
        fields@.len() >= 2 ==> match (fields@[0], fields@[1]) {
            (Value::BulkString(bytes), Value::Int(port)) => {
                let name = utf8_lossy(bytes@);
                let unnamed = name.len() == 0 || name == seq!['0', '.', '0', '.', '0', '.', '0']
                    || name == seq![':', ':'];
                &&& !unnamed && name != seq!['?'] ==> listed_address(
                    Value::Array(fields),
                    answering,
                ) == Some((name, port as u16))
                &&& unnamed && answering.len() > 0 ==> listed_address(
                    Value::Array(fields),
                    answering,
                ) == Some((answering, port as u16))
                &&& unnamed && answering.len() == 0 ==> listed_address(
                    Value::Array(fields),
                    answering,
                ) is None
                &&& name == seq!['?'] ==> listed_address(Value::Array(fields), answering) is None
            },
            (Value::Nil, Value::Int(port)) => {
                &&& answering.len() > 0 ==> listed_address(Value::Array(fields), answering) == Some(
                    (answering, port as u16),
                )
                &&& answering.len() == 0 ==> listed_address(Value::Array(fields), answering) is None
            },
            _ => listed_address(Value::Array(fields), answering) is None,
        },
        fields@.len() < 2 ==> listed_address(Value::Array(fields), answering) is None,
{
    reveal_strlit("?");
    assert("?"@ =~= seq!['?']);
    assert("?"@.len() == 1);
    if fields@.len() >= 2 {
        if let Value::BulkString(bytes) = fields@[0] {
            law_wildcards(utf8_lossy(bytes@));
        }
        law_wildcards(Seq::empty());
    }
}

/// What is no list is listed with no address.
pub proof fn law_only_lists_are_nodes(node: Value, answering: Seq<char>)
    requires
        node !is Array,
    ensures
        listed_address(node, answering) is None,
{
}

/// Fields behind a node's host and port do not change its address.
pub proof fn law_more_fields(fields: Vec<Value>, longer: Vec<Value>, answering: Seq<char>)
    requires
        fields@.len() >= 2,
        longer@.len() >= 2,
        fields@[0] == longer@[0],
        fields@[1] == longer@[1],
    ensures
        listed_address(Value::Array(longer), answering) == listed_address(
            Value::Array(fields),
            answering,
        ),
{
}

/// The addresses of two lists of nodes are those of the one and then those of the other.
pub proof fn law_addresses_of_two_lists(a: Seq<Value>, b: Seq<Value>, answering: Seq<char>)
    ensures
        listed_addresses(a + b, answering) == listed_addresses(a, answering) + listed_addresses(
            b,
            answering,
        ),
    decreases b.len(),
{
    if b.len() == 0 {
        assert(a + b =~= a);
        assert(listed_addresses(a, answering) + listed_addresses(b, answering)
            =~= listed_addresses(a, answering));
    } else {
        law_addresses_of_two_lists(a, b.drop_last(), answering);
        assert((a + b).drop_last() =~= a + b.drop_last());
        assert(listed_addresses(a + b, answering) =~= listed_addresses(a, answering)
            + listed_addresses(b, answering));
    }
}

/// A node has its address in the list of addresses, if it has one.
pub proof fn law_addresses_of_one(node: Value, answering: Seq<char>)
    ensures
        listed_address(node, answering) matches Some(address) ==> listed_addresses(
            seq![node],
            answering,
        ) == seq![address],
        listed_address(node, answering) is None ==> listed_addresses(seq![node], answering).len()
            == 0,
{
    assert(seq![node].drop_last() =~= Seq::<Value>::empty());
    assert(listed_addresses(seq![node].drop_last(), answering) =~= Seq::<NodeKey>::empty());
    if let Some(address) = listed_address(node, answering) {
        assert(listed_addresses(seq![node], answering) =~= seq![address]);
    }
}

/// Nodes that all have an address are listed with all of them, in order.
pub proof fn law_every_address_is_listed(
    nodes: Seq<Value>,
    keys: Seq<NodeKey>,
    answering: Seq<char>,
)
    requires
        nodes.len() == keys.len(),
        forall|i: int|
            0 <= i < nodes.len() ==> listed_address(#[trigger] nodes[i], answering) == Some(
                keys[i],
            ),
    ensures
        listed_addresses(nodes, answering) == keys,
    decreases nodes.len(),
{
    if nodes.len() > 0 {
        let before = nodes.drop_last();
        assert forall|i: int| 0 <= i < before.len() implies listed_address(
            #[trigger] before[i],
            answering,
        ) == Some(keys.drop_last()[i]) by {
            assert(before[i] == nodes[i]);
        }
        law_every_address_is_listed(before, keys.drop_last(), answering);
        assert(listed_address(nodes[nodes.len() - 1], answering) == Some(keys[nodes.len() - 1]));
        assert(keys.drop_last().push(keys.last()) =~= keys);
    } else {
        assert(listed_addresses(nodes, answering) =~= keys);
    }
}

/// Where every item of a reply is a list, every one is read.
pub proof fn law_every_list_is_read(items: Seq<Value>)
    requires
        forall|i: int| 0 <= i < items.len() ==> #[trigger] items[i] is Array,
    ensures
        leading_arrays(items).len() == items.len(),
        forall|i: int|
            0 <= i < items.len() ==> #[trigger] leading_arrays(items)[i] == items[i]->Array_0@,
    decreases items.len(),
{
    if items.len() > 0 {
        let rest = items.drop_first();
        assert forall|i: int| 0 <= i < rest.len() implies #[trigger] rest[i] is Array by {
            assert(rest[i] == items[i + 1]);
        }
        law_every_list_is_read(rest);
        assert(items[0] is Array);
        assert forall|i: int| 0 <= i < items.len() implies #[trigger] leading_arrays(items)[i]
            == items[i]->Array_0@ by {
            if i > 0 {
                assert(leading_arrays(items)[i] == leading_arrays(rest)[i - 1]);
                assert(rest[i - 1] == items[i]);
            }
        }
    }
}

proof fn lemma_leading_push(items: Seq<Value>, item: Vec<Value>)
    requires
        forall|i: int| 0 <= i < items.len() ==> #[trigger] items[i] is Array,
    ensures
        leading_arrays(items.push(Value::Array(item))) == leading_arrays(items).push(item@),
    decreases items.len(),
{
    let more = items.push(Value::Array(item));
    if items.len() == 0 {
        assert(more.drop_first() =~= items);
        assert(leading_arrays(more) =~= leading_arrays(items).push(item@));
    } else {
        let rest = items.drop_first();
        assert forall|i: int| 0 <= i < rest.len() implies #[trigger] rest[i] is Array by {
            assert(rest[i] == items[i + 1]);
        }
        lemma_leading_push(rest, item);
        assert(more.drop_first() =~= rest.push(Value::Array(item)));
        assert(items[0] is Array);
        assert(leading_arrays(more) =~= leading_arrays(items).push(item@));
    }
}

proof fn lemma_some_listed(nodes: Seq<Value>, answering: Seq<char>)
    ensures
        listed_addresses(nodes, answering).len() > 0 <==> exists|i: int|
            0 <= i < nodes.len() && listed_address(#[trigger] nodes[i], answering) is Some,
    decreases nodes.len(),
{
    if nodes.len() > 0 {
        let before = nodes.drop_last();
        lemma_some_listed(before, answering);
        if listed_address(nodes.last(), answering) is Some {
            assert(listed_address(nodes[nodes.len() - 1], answering) is Some);
        }
        if exists|i: int|
            0 <= i < before.len() && listed_address(#[trigger] before[i], answering) is Some {
            let i = choose|i: int|
                0 <= i < before.len() && listed_address(#[trigger] before[i], answering) is Some;
            assert(nodes[i] == before[i]);
        }
        if exists|i: int|
            0 <= i < nodes.len() && listed_address(#[trigger] nodes[i], answering) is Some {
            let i = choose|i: int|
                0 <= i < nodes.len() && listed_address(#[trigger] nodes[i], answering) is Some;
            if i < before.len() {
                assert(before[i] == nodes[i]);
            }
        }
    }
}

/// One more list at the end of a reply of lists is one more range, if it has two integers for
/// bounds and a node with an address behind them; otherwise it changes nothing.
pub proof fn law_one_more_item(
    items: Vec<Value>,
    more: Vec<Value>,
    item: Vec<Value>,
    answering: Seq<char>,
)
    requires
        forall|i: int| 0 <= i < items@.len() ==> #[trigger] items@[i] is Array,
        more@ == items@.push(Value::Array(item)),
    ensures
        item@.len() >= 3 && item@[0] is Int && item@[1] is Int && (exists|i: int|
            2 <= i < item@.len() && listed_address(#[trigger] item@[i], answering) is Some)
            ==> range_items(Value::Array(more), answering) == range_items(
            Value::Array(items),
            answering,
        ).push(item@),
        !(item@.len() >= 3 && item@[0] is Int && item@[1] is Int && (exists|i: int|
            2 <= i < item@.len() && listed_address(#[trigger] item@[i], answering) is Some))
            ==> range_items(Value::Array(more), answering) == range_items(
            Value::Array(items),
            answering,
        ),
{
    let keep = |item: Seq<Value>| describes_range(item, answering);
    let before = leading_arrays(items@);
    lemma_leading_push(items@, item);
    reveal(Seq::filter);
    assert(before.push(item@).drop_last() =~= before);
    if item@.len() >= 3 {
        let nodes = item@.skip(2);
        lemma_some_listed(nodes, answering);
        if exists|i: int|
            2 <= i < item@.len() && listed_address(#[trigger] item@[i], answering) is Some {
            let i = choose|i: int|
                2 <= i < item@.len() && listed_address(#[trigger] item@[i], answering) is Some;
            assert(nodes[i - 2] == item@[i]);
        }
        if exists|i: int|
            0 <= i < nodes.len() && listed_address(#[trigger] nodes[i], answering) is Some {
            let i = choose|i: int|
                0 <= i < nodes.len() && listed_address(#[trigger] nodes[i], answering) is Some;
            assert(item@[i + 2] == nodes[i]);
        }
    }
}

/// A reply without items tells of no range, and neither does one that is no list. What stands
/// behind an item that is no list does not count.
pub proof fn law_end_of_ranges(
    items: Vec<Value>,
    longer: Vec<Value>,
    stop: Value,
    behind: Seq<Value>,
    other: Value,
    answering: Seq<char>,
)
    requires
        stop !is Array,
        longer@ == items@.push(stop) + behind,
        other !is Array,
    ensures
        items@.len() == 0 ==> range_items(Value::Array(items), answering).len() == 0,
        range_items(other, answering).len() == 0,
        range_items(Value::Array(longer), answering) == range_items(
            Value::Array(items),
            answering,
        ),
{
    law_reading_stops(items@, behind, stop);
    reveal(Seq::filter);
}

/// A range has the bounds that its item names.
pub proof fn law_bounds_of_range<F: Fn(&NodeAddress) -> bool>(
    item: Seq<Value>,
    answering: Seq<char>,
    filter: Option<&F>,
    range: SlotRange,
    start: i64,
    end: i64,
)
    requires
        range_of_item(item, answering, filter, range),
        item[0] == Value::Int(start),
        item[1] == Value::Int(end),
    ensures
        range.start == start as u16,
        range.end == end as u16,
{
}

/// Without a filter the first node with an address takes the writes and every other one is a
/// replica, in the order in which they are listed.
pub proof fn law_nodes_of_range<F: Fn(&NodeAddress) -> bool>(
    item: Seq<Value>,
    answering: Seq<char>,
    range: SlotRange,
)
    requires
        range_of_item(item, answering, None::<&F>, range),
    ensures
        listed_addresses(item.skip(2), answering).len() == range.replicas@.len() + 1,
        range.master@ == listed_addresses(item.skip(2), answering)[0],
        forall|i: int|
            0 <= i < range.replicas@.len() ==> (#[trigger] range.replicas@[i])@ == listed_addresses(
                item.skip(2),
                answering,
            )[i + 1],
{
    law_no_replica_filter::<F>(item, answering, range);
    let all = listed_addresses(item.skip(2), answering);
    let joined = seq![range.master@] + addresses(range.replicas@);
    assert(joined == all);
    assert(all[0] == joined[0]);
    assert forall|i: int| 0 <= i < range.replicas@.len() implies (#[trigger] range.replicas@[i])@
        == all[i + 1] by {
        assert(all[i + 1] == joined[i + 1]);
        assert(addresses(range.replicas@)[i] == range.replicas@[i]@);
    }
}

/// A filter that answers by the address alone has no say in which node takes the writes; of
/// the others it keeps those for which it answers `true`, in the order in which they are
/// listed.
pub proof fn law_filtered_nodes_of_range<F: Fn(&NodeAddress) -> bool>(
    item: Seq<Value>,
    answering: Seq<char>,
    filter: &F,
    keeps: spec_fn(NodeKey) -> bool,
    range: SlotRange,
)
    requires
        range_of_item(item, answering, Some(filter), range),
        forall|node: NodeAddress, verdict: bool| #[trigger]
            call_ensures(*filter, (&node,), verdict) ==> verdict == keeps(node@),
    ensures
        listed_addresses(item.skip(2), answering).len() > 0,
        range.master@ == listed_addresses(item.skip(2), answering)[0],
        range.replicas@.len() == listed_addresses(item.skip(2), answering).drop_first().filter(
            keeps,
        ).len(),
        forall|i: int|
            0 <= i < range.replicas@.len() ==> (#[trigger] range.replicas@[i])@ == listed_addresses(
                item.skip(2),
                answering,
            ).drop_first().filter(keeps)[i],
{
    assert forall|node: NodeAddress, verdict: bool| #[trigger]
        may_decide(Some(filter), node, verdict) implies verdict == keeps(node@) by {
        assert(call_ensures(*filter, (&node,), verdict));
    }
    law_replica_filter(item, answering, Some(filter), keeps, range);
    let kept = addresses(range.replicas@);
    assert(kept.len() == range.replicas@.len());
    assert forall|i: int| 0 <= i < range.replicas@.len() implies (#[trigger] range.replicas@[i])@
        == listed_addresses(item.skip(2), answering).drop_first().filter(keeps)[i] by {
        assert(kept[i] == range.replicas@[i]@);
    }
}

/// Nodes with the same host share one string for it, whatever ranges they serve and whether
/// they take writes or reads.
pub proof fn law_shared_hosts(ranges: Seq<SlotRange>, i: int, j: int)
    requires
        hosts_are_shared(ranges),
        0 <= i < ranges.len(),
        0 <= j < ranges.len(),
    ensures
        ranges[i].master@.0 == ranges[j].master@.0 ==> ranges[i].master.shared_host()
            == ranges[j].master.shared_host(),
        forall|k: int|
            0 <= k < ranges[j].replicas@.len() && ranges[i].master@.0 == (
            #[trigger] ranges[j].replicas@[k])@.0 ==> ranges[i].master.shared_host()
                == ranges[j].replicas@[k].shared_host(),
        forall|k: int, l: int|
            0 <= k < ranges[i].replicas@.len() && 0 <= l < ranges[j].replicas@.len() && (
            #[trigger] ranges[i].replicas@[k])@.0 == (#[trigger] ranges[j].replicas@[l])@.0
                ==> ranges[i].replicas@[k].shared_host() == ranges[j].replicas@[l].shared_host(),
{
    assert(serves(ranges[i], ranges[i].master) && serves(ranges[j], ranges[j].master));
    assert forall|k: int|
        0 <= k < ranges[j].replicas@.len() && ranges[i].master@.0 == (
        #[trigger] ranges[j].replicas@[k])@.0 implies ranges[i].master.shared_host()
        == ranges[j].replicas@[k].shared_host() by {
        assert(serves(ranges[j], ranges[j].replicas@[k]));
    }
    assert forall|k: int, l: int|
        0 <= k < ranges[i].replicas@.len() && 0 <= l < ranges[j].replicas@.len() && (
        #[trigger] ranges[i].replicas@[k])@.0 == (
        #[trigger] ranges[j].replicas@[l])@.0 implies ranges[i].replicas@[k].shared_host()
        == ranges[j].replicas@[l].shared_host() by {
        assert(serves(ranges[i], ranges[i].replicas@[k]));
        assert(serves(ranges[j], ranges[j].replicas@[l]));
    }
}

/// A reply with one range of one node is read as that range, with the node's host and port as
/// its first two fields name them, whatever fields stand behind them.
pub proof fn law_parsed_range<F: Fn(&NodeAddress) -> bool>(
    reply: Value,
    answering: &str,
    slots: RedisResult<Vec<SlotRange>>,
    items: Vec<Value>,
    item: Vec<Value>,
    fields: Vec<Value>,
    start: i64,
    end: i64,
    host: Vec<u8>,
    port: i64,
)
    requires
        call_ensures(parse_slots::<F>, (reply, answering, None::<&F>), slots),
        reply == Value::Array(items),
        items@ == seq![Value::Array(item)],
        item@ == seq![Value::Int(start), Value::Int(end), Value::Array(fields)],
        fields@.len() >= 2,
        fields@[0] == Value::BulkString(host),
        fields@[1] == Value::Int(port),
        utf8_lossy(host@).len() > 0,
        utf8_lossy(host@) != seq!['0', '.', '0', '.', '0', '.', '0'],
        utf8_lossy(host@) != seq![':', ':'],
        utf8_lossy(host@) != seq!['?'],
    ensures
        slots is Ok,
        slots.unwrap()@.len() == 1,
        slots.unwrap()@[0].start == start as u16,
        slots.unwrap()@[0].end == end as u16,
        slots.unwrap()@[0].master@ == (utf8_lossy(host@), port as u16),
        slots.unwrap()@[0].replicas@.len() == 0,
{
    let node = Value::Array(fields);
    let name = answering@;
    let keep = |item: Seq<Value>| describes_range(item, name);
    law_listed_address(fields, name);
    let nodes = item@.skip(2);
    assert(nodes =~= seq![node]);
    law_addresses_of_one(node, name);
    assert(items@.drop_first() =~= Seq::<Value>::empty());
    assert(leading_arrays(items@.drop_first()) =~= Seq::<Seq<Value>>::empty());
    let lists = leading_arrays(items@);
    assert(lists =~= seq![item@]);
    assert(range_items(reply, name) =~= seq![item@]) by {
        reveal(Seq::filter);
        assert(lists.drop_last() =~= Seq::<Seq<Value>>::empty());
        assert(lists.drop_last().filter(keep) =~= Seq::<Seq<Value>>::empty());
        assert(keep(lists.last()));
    }
    law_bounds_of_range::<F>(item@, name, None::<&F>, slots.unwrap()@[0], start, end);
    law_nodes_of_range::<F>(item@, name, slots.unwrap()@[0]);
}

} // verus!
