//! What holds of every range that is read out of a reply.

use vstd::prelude::*;

use crate::node_address::{NodeAddress, NodeKey};
use crate::topology::{
    addresses, decided, host_named, is_wildcard, kept, leading_arrays, listed_address,
    listed_addresses, listed_host, may_decide, range_of_item, SlotRange,
};
use crate::value::Value;

verus! {

proof fn lemma_kept_addresses(
    nodes: Seq<NodeAddress>,
    verdicts: Seq<bool>,
    keeps: spec_fn(NodeKey) -> bool,
)
    requires
        verdicts.len() == nodes.len(),
        forall|i: int| 0 <= i < nodes.len() ==> verdicts[i] == keeps((#[trigger] nodes[i])@),
    ensures
        addresses(kept(nodes, verdicts)) == addresses(nodes).filter(keeps),
    decreases nodes.len(),
{
    reveal(Seq::filter);
    if nodes.len() == 0 {
        assert(addresses(kept(nodes, verdicts)) =~= addresses(nodes).filter(keeps));
    } else {
        assert forall|i: int| 0 <= i < nodes.len() - 1 implies verdicts.drop_last()[i] == keeps(
            (#[trigger] nodes.drop_last()[i])@,
        ) by {
            assert(verdicts[i] == keeps(nodes[i]@));
        }
        lemma_kept_addresses(nodes.drop_last(), verdicts.drop_last(), keeps);
        assert(addresses(nodes).drop_last() =~= addresses(nodes.drop_last()));
        assert(verdicts[nodes.len() - 1] == keeps(nodes.last()@));
        let before = kept(nodes.drop_last(), verdicts.drop_last());
        assert(addresses(before.push(nodes.last())) =~= addresses(before).push(nodes.last()@));
    }
}

proof fn lemma_all_kept(nodes: Seq<NodeAddress>, verdicts: Seq<bool>)
    requires
        verdicts.len() == nodes.len(),
        forall|i: int| 0 <= i < nodes.len() ==> verdicts[i],
    ensures
        kept(nodes, verdicts) == nodes,
    decreases nodes.len(),
{
    if nodes.len() > 0 {
        lemma_all_kept(nodes.drop_last(), verdicts.drop_last());
        assert(nodes.drop_last().push(nodes.last()) =~= nodes);
    }
}

/// A filter touches replicas alone. Where its answer depends on the address, the node
/// that takes the writes is the first one listed, and the replicas are those of the
/// others that the filter keeps, in the order in which they are listed.
pub proof fn law_replica_filter<F: Fn(&NodeAddress) -> bool>(
    item: Seq<Value>,
    answering: Seq<char>,
    filter: Option<&F>,
    keeps: spec_fn(NodeKey) -> bool,
    range: SlotRange,
)
    requires
        range_of_item(item, answering, filter, range),
        forall|node: NodeAddress, verdict: bool| #[trigger]
            may_decide(filter, node, verdict) ==> verdict == keeps(node@),
    ensures
        listed_addresses(item.skip(2), answering).len() > 0,
        range.master@ == listed_addresses(item.skip(2), answering)[0],
        addresses(range.replicas@) == listed_addresses(
            item.skip(2),
            answering,
        ).drop_first().filter(keeps),
{
    let all = listed_addresses(item.skip(2), answering);
    let (listed, verdicts) = choose|listed: Seq<NodeAddress>, verdicts: Seq<bool>|
        {
            &&& seq![range.master@] + addresses(listed) == all
            &&& #[trigger] decided(filter, listed, verdicts, range.replicas@)
        };
    assert((seq![range.master@] + addresses(listed))[0] == range.master@);
    assert(all.drop_first() =~= addresses(listed));
    assert forall|i: int| 0 <= i < listed.len() implies verdicts[i] == keeps(
        (#[trigger] listed[i])@,
    ) by {
        assert(may_decide(filter, listed[i], verdicts[i]));
    }
    lemma_kept_addresses(listed, verdicts, keeps);
}

/// Without a filter every node but the first is a replica.
pub proof fn law_no_replica_filter<F: Fn(&NodeAddress) -> bool>(
    item: Seq<Value>,
    answering: Seq<char>,
    range: SlotRange,
)
    requires
        range_of_item(item, answering, None::<&F>, range),
    ensures
        seq![range.master@] + addresses(range.replicas@) == listed_addresses(
            item.skip(2),
            answering,
        ),
{
    let all = listed_addresses(item.skip(2), answering);
    let (listed, verdicts) = choose|listed: Seq<NodeAddress>, verdicts: Seq<bool>|
        {
            &&& seq![range.master@] + addresses(listed) == all
            &&& #[trigger] decided(None::<&F>, listed, verdicts, range.replicas@)
        };
    assert forall|i: int| 0 <= i < listed.len() implies verdicts[i] by {
        assert(may_decide(None::<&F>, listed[i], verdicts[i]));
    }
    lemma_all_kept(listed, verdicts);
}

/// A filter that drops every node leaves the range to the node that takes the writes.
pub proof fn law_dropping_filter<F: Fn(&NodeAddress) -> bool>(
    item: Seq<Value>,
    answering: Seq<char>,
    filter: Option<&F>,
    range: SlotRange,
)
    requires
        range_of_item(item, answering, filter, range),
        forall|node: NodeAddress, verdict: bool| #[trigger]
            may_decide(filter, node, verdict) ==> !verdict,
    ensures
        range.master@ == listed_addresses(item.skip(2), answering)[0],
        range.replicas@.len() == 0,
{
    let none = |key: NodeKey| false;
    law_replica_filter(item, answering, filter, none, range);
    let others = listed_addresses(item.skip(2), answering).drop_first();
    assert(addresses(range.replicas@).len() == 0) by {
        broadcast use vstd::seq_lib::group_filter_ensures;

        if others.filter(none).len() > 0 {
            assert(none(others.filter(none)[0]));
        }
    }
}

/// A node without a name, with an empty one or with a wildcard is the node that
/// answered; a node named `?` is not listed, and any other node is listed under its own
/// name.
pub proof fn law_listed_hosts(name: Seq<char>, answering: Seq<char>)
    requires
        answering.len() > 0,
    ensures
        listed_host(Value::Nil, answering) == Some(answering),
        host_named(Seq::empty(), answering) == Some(answering),
        is_wildcard(name) ==> host_named(name, answering) == Some(answering),
        name == "?"@ ==> host_named(name, answering) is None,
        name.len() > 0 && !is_wildcard(name) && name != "?"@ ==> host_named(name, answering)
            == Some(name),
{
    reveal_strlit("?");
    reveal_strlit("0.0.0.0");
    reveal_strlit("::");
    assert("?"@.len() == 1 && "0.0.0.0"@.len() == 7 && "::"@.len() == 2);
}

/// No address that is read out of a reply has an empty host. Its host is a wildcard or
/// `?` only where the node that answered is itself known by such a host.
pub proof fn law_no_empty_hosts(nodes: Seq<Value>, answering: Seq<char>, i: int)
    requires
        0 <= i < listed_addresses(nodes, answering).len(),
    ensures
        listed_addresses(nodes, answering)[i].0.len() > 0,
        is_wildcard(listed_addresses(nodes, answering)[i].0) || listed_addresses(
            nodes,
            answering,
        )[i].0 == "?"@ ==> listed_addresses(nodes, answering)[i].0 == answering,
    decreases nodes.len(),
{
    let before = listed_addresses(nodes.drop_last(), answering);
    if i < before.len() {
        law_no_empty_hosts(nodes.drop_last(), answering, i);
    } else {
        assert(listed_address(nodes.last(), answering) is Some);
    }
}

/// What stands behind an item that is no list does not count.
pub proof fn law_reading_stops(items: Seq<Value>, more: Seq<Value>, stop: Value)
    requires
        stop !is Array,
    ensures
        leading_arrays(items.push(stop) + more) == leading_arrays(items),
    decreases items.len(),
{
    let all = items.push(stop) + more;
    if items.len() == 0 {
        assert(all[0] == stop);
    } else {
        assert(all[0] == items[0]);
        assert(all.drop_first() =~= items.drop_first().push(stop) + more);
        law_reading_stops(items.drop_first(), more, stop);
    }
}

} // verus!
