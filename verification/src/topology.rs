//! The ranges of slots that a cluster's nodes serve.

use arcstr::ArcStr;
use vstd::prelude::*;

use crate::arc_str::{arc_from, arc_text};
use crate::node_address::{NodeAddress, NodeKey};
use crate::text::{is_empty, same_text, text_from_utf8_lossy, utf8_lossy};
use crate::value::{RedisResult, Value};

verus! {

/// Whether `host` stands for every address of a machine.
pub open spec fn is_wildcard(host: Seq<char>) -> bool {
    host == "0.0.0.0"@ || host == "::"@
}

/// Whether `host` stands for every address of a machine.
pub fn is_wildcard_address(host: &str) -> (wildcard: bool)
    ensures
        wildcard == is_wildcard(host@),
{
    same_text(host, "0.0.0.0") || same_text(host, "::")
}

/// A range of slots with the nodes that serve it.
#[derive(Debug)]
pub struct SlotRange {
    /// The first slot.
    pub start: u16,
    /// The last slot.
    pub end: u16,
    /// The node that takes writes.
    pub master: NodeAddress,
    /// The nodes that take reads.
    pub replicas: Vec<NodeAddress>,
}

impl SlotRange {
    /// The range from `start` to `end`.
    pub fn new(start: u16, end: u16, master: NodeAddress, replicas: Vec<NodeAddress>) -> (range:
        Self)
        ensures
            range == (SlotRange { start, end, master, replicas }),
    {
        SlotRange { start, end, master, replicas }
    }
}

/// The host that the listed name `name` means: an empty or wildcard name is the host of
/// the node that answered, and `?` tells of no host. An empty host is none.
pub open spec fn host_named(name: Seq<char>, answering: Seq<char>) -> Option<Seq<char>> {
    let host = if name.len() == 0 || is_wildcard(name) {
        answering
    } else {
        name
    };
    if name == "?"@ || host.len() == 0 {
        None
    } else {
        Some(host)
    }
}

/// The host that a node is listed under. An absent name is as good as an empty one.
pub open spec fn listed_host(host: Value, answering: Seq<char>) -> Option<Seq<char>> {
    match host {
        Value::BulkString(bytes) => host_named(utf8_lossy(bytes@), answering),
        Value::Nil => host_named(Seq::empty(), answering),
        _ => None,
    }
}

/// The address that `node` is listed with, if it is listed with one. Of the port, the
/// low sixteen bits count.
pub open spec fn listed_address(node: Value, answering: Seq<char>) -> Option<NodeKey> {
    match node {
        Value::Array(fields) => if fields@.len() < 2 {
            None
        } else {
            match (listed_host(fields@[0], answering), fields@[1]) {
                (Some(host), Value::Int(port)) => Some((host, port as u16)),
                _ => None,
            }
        },
        _ => None,
    }
}

/// The addresses of those of `nodes` that have one.
pub open spec fn listed_addresses(nodes: Seq<Value>, answering: Seq<char>) -> Seq<NodeKey>
    decreases nodes.len(),
{
    if nodes.len() == 0 {
        Seq::empty()
    } else {
        let before = listed_addresses(nodes.drop_last(), answering);
        match listed_address(nodes.last(), answering) {
            Some(address) => before.push(address),
            None => before,
        }
    }
}

/// Whether no two hosts hold the same text.
spec fn distinct_hosts(hosts: Seq<ArcStr>) -> bool {
    forall|i: int, j: int|
        0 <= i < j < hosts.len() ==> arc_text(#[trigger] hosts[i]) != arc_text(#[trigger] hosts[j])
}

/// Whether `later` lists all that `earlier` does, and first.
spec fn extends(earlier: Seq<ArcStr>, later: Seq<ArcStr>) -> bool {
    earlier.len() <= later.len() && forall|i: int|
        0 <= i < earlier.len() ==> earlier[i] == #[trigger] later[i]
}

/// The string for `host` among `hosts`, which gains one if there is none.
fn intern(hosts: &mut Vec<ArcStr>, host: &str) -> (shared: ArcStr)
    requires
        distinct_hosts(old(hosts)@),
    ensures
        distinct_hosts(final(hosts)@),
        extends(old(hosts)@, final(hosts)@),
        final(hosts)@.contains(shared),
        arc_text(shared) == host@,
{
    for i in 0..hosts.len()
        invariant
            hosts@ == old(hosts)@,
            distinct_hosts(hosts@),
            forall|j: int| 0 <= j < i ==> arc_text(#[trigger] hosts@[j]) != host@,
    {
        if same_text(hosts[i].as_str(), host) {
            return hosts[i].clone();
        }
    }
    let shared = arc_from(host);
    hosts.push(shared.clone());
    assert(hosts@[hosts@.len() - 1] == shared);
    shared
}

/// The host that the listed name `name` means in a reply of the node on `answering`.
pub fn resolve_host(name: &str, answering: &str) -> (host: Option<String>)
    ensures
        match host {
            Some(host) => host_named(name@, answering@) == Some(host@),
            None => host_named(name@, answering@) is None,
        },
{
    proof {
        reveal_strlit("?");
        reveal_strlit("0.0.0.0");
        reveal_strlit("::");
    }
    let host = if is_empty(name) || is_wildcard_address(name) {
        answering
    } else if same_text(name, "?") {
        return None;
    } else {
        name
    };
    if is_empty(host) {
        return None;
    }
    Some(host.to_owned())
}

/// The address that `node` is listed with.
fn try_to_address(node: &Value, answering: &str, hosts: &mut Vec<ArcStr>) -> (address: Option<
    NodeAddress,
>)
    requires
        distinct_hosts(old(hosts)@),
    ensures
        distinct_hosts(final(hosts)@),
        extends(old(hosts)@, final(hosts)@),
        match address {
            Some(found) => listed_address(*node, answering@) == Some(found@)
                && final(hosts)@.contains(found.shared_host()),
            None => listed_address(*node, answering@) is None,
        },
{
    let Value::Array(fields) = node else {
        return None;
    };
    if fields.len() < 2 {
        return None;
    }
    let host = match &fields[0] {
        Value::BulkString(bytes) => {
            let name = text_from_utf8_lossy(bytes.as_slice());
            resolve_host(name.as_str(), answering)
        },
        Value::Nil => {
            proof {
                reveal_strlit("");
                assert(""@ =~= Seq::<char>::empty());
            }
            resolve_host("", answering)
        },
        _ => {
            return None;
        },
    };
    let Some(host) = host else {
        return None;
    };
    let port: u16 = match &fields[1] {
        Value::Int(port) => #[verifier::truncate] (*port as u16),
        _ => {
            return None;
        },
    };
    Some(NodeAddress::from_parts(intern(hosts, host.as_str()), port))
}

/// The items up to the first that is no array, each as the list that it is.
pub open spec fn leading_arrays(items: Seq<Value>) -> Seq<Seq<Value>>
    decreases items.len(),
{
    if items.len() == 0 {
        Seq::empty()
    } else {
        match items[0] {
            Value::Array(item) => seq![item@] + leading_arrays(items.drop_first()),
            _ => Seq::empty(),
        }
    }
}

/// Whether `item` tells of a range: two integers for its bounds, and a node with an
/// address behind them.
pub open spec fn describes_range(item: Seq<Value>, answering: Seq<char>) -> bool {
    &&& item.len() >= 3
    &&& item[0] is Int
    &&& item[1] is Int
    &&& listed_addresses(item.skip(2), answering).len() > 0
}

/// The items of a reply that tell of a range. Those behind an item that is no array are
/// not read.
pub open spec fn range_items(reply: Value, answering: Seq<char>) -> Seq<Seq<Value>> {
    match reply {
        Value::Array(items) => leading_arrays(items@).filter(
            |item: Seq<Value>| describes_range(item, answering),
        ),
        _ => Seq::empty(),
    }
}

/// The addresses of `nodes`, in order.
pub open spec fn addresses(nodes: Seq<NodeAddress>) -> Seq<NodeKey> {
    nodes.map_values(|node: NodeAddress| node@)
}

/// Those of `nodes` whose verdict is `true`.
pub open spec fn kept(nodes: Seq<NodeAddress>, verdicts: Seq<bool>) -> Seq<NodeAddress>
    decreases nodes.len(),
{
    if nodes.len() == 0 {
        Seq::empty()
    } else {
        let before = kept(nodes.drop_last(), verdicts.drop_last());
        if verdicts[nodes.len() - 1] {
            before.push(nodes.last())
        } else {
            before
        }
    }
}

/// Whether `filter` can answer `verdict` of `node`. Without a filter every node is kept.
pub open spec fn may_decide<F: Fn(&NodeAddress) -> bool>(
    filter: Option<&F>,
    node: NodeAddress,
    verdict: bool,
) -> bool {
    match filter {
        Some(filter) => call_ensures(*filter, (&node,), verdict),
        None => verdict,
    }
}

/// Whether `replicas` are those of `listed` that `filter` keeps, by the answers
/// `verdicts`.
pub open spec fn decided<F: Fn(&NodeAddress) -> bool>(
    filter: Option<&F>,
    listed: Seq<NodeAddress>,
    verdicts: Seq<bool>,
    replicas: Seq<NodeAddress>,
) -> bool {
    &&& verdicts.len() == listed.len()
    &&& forall|i: int| 0 <= i < listed.len() ==> may_decide(filter, #[trigger] listed[i], verdicts[i])
    &&& replicas == kept(listed, verdicts)
}

/// Whether `range` is what `item` tells of: the first node with an address takes the
/// writes, and of the others the filter keeps the replicas.
pub open spec fn range_of_item<F: Fn(&NodeAddress) -> bool>(
    item: Seq<Value>,
    answering: Seq<char>,
    filter: Option<&F>,
    range: SlotRange,
) -> bool {
    &&& range.start == item[0]->Int_0 as u16
    &&& range.end == item[1]->Int_0 as u16
    &&& exists|listed: Seq<NodeAddress>, verdicts: Seq<bool>|
        {
            &&& seq![range.master@] + addresses(listed) == listed_addresses(item.skip(2), answering)
            &&& #[trigger] decided(filter, listed, verdicts, range.replicas@)
        }
}

/// Whether `node` serves `range`.
pub open spec fn serves(range: SlotRange, node: NodeAddress) -> bool {
    node == range.master || range.replicas@.contains(node)
}

/// Whether the nodes of all ranges that have the same host share one string for it.
pub open spec fn hosts_are_shared(ranges: Seq<SlotRange>) -> bool {
    forall|i: int, j: int, a: NodeAddress, b: NodeAddress|
        0 <= i < ranges.len() && 0 <= j < ranges.len() && #[trigger] serves(ranges[i], a)
            && #[trigger] serves(ranges[j], b) && a@.0 == b@.0 ==> a.shared_host() == b.shared_host()
}

/// Whether the string of each node's host is one of `hosts`.
spec fn interned(hosts: Seq<ArcStr>, range: SlotRange) -> bool {
    &&& hosts.contains(range.master.shared_host())
    &&& forall|i: int|
        0 <= i < range.replicas@.len() ==> hosts.contains(
            (#[trigger] range.replicas@[i]).shared_host(),
        )
}

proof fn lemma_extends_contains(earlier: Seq<ArcStr>, later: Seq<ArcStr>, host: ArcStr)
    requires
        extends(earlier, later),
        earlier.contains(host),
    ensures
        later.contains(host),
{
    let i = choose|i: int| 0 <= i < earlier.len() && earlier[i] == host;
    assert(later[i] == host);
}

proof fn lemma_extends_interned(earlier: Seq<ArcStr>, later: Seq<ArcStr>, range: SlotRange)
    requires
        extends(earlier, later),
        interned(earlier, range),
    ensures
        interned(later, range),
{
    lemma_extends_contains(earlier, later, range.master.shared_host());
    assert forall|i: int| 0 <= i < range.replicas@.len() implies later.contains(
        (#[trigger] range.replicas@[i]).shared_host(),
    ) by {
        lemma_extends_contains(earlier, later, range.replicas@[i].shared_host());
    }
}

/// The range that `item` tells of, if it tells of one.
fn range_from_item<F: Fn(&NodeAddress) -> bool>(
    item: &Vec<Value>,
    answering: &str,
    filter: Option<&F>,
    hosts: &mut Vec<ArcStr>,
) -> (range: Option<SlotRange>)
    requires
        distinct_hosts(old(hosts)@),
        filter matches Some(filter) ==> forall|node: NodeAddress| call_requires(*filter, (&node,)),
    ensures
        distinct_hosts(final(hosts)@),
        extends(old(hosts)@, final(hosts)@),
        range is Some == describes_range(item@, answering@),
        range matches Some(range) ==> range_of_item(item@, answering@, filter, range) && interned(
            final(hosts)@,
            range,
        ),
{
    if item.len() < 3 {
        return None;
    }
    let start: u16 = match &item[0] {
        Value::Int(start) => #[verifier::truncate] (*start as u16),
        _ => {
            return None;
        },
    };
    let end: u16 = match &item[1] {
        Value::Int(end) => #[verifier::truncate] (*end as u16),
        _ => {
            return None;
        },
    };
    let ghost nodes = item@.skip(2);
    let mut primary: Option<NodeAddress> = None;
    let mut replicas: Vec<NodeAddress> = Vec::new();
    let ghost mut listed: Seq<NodeAddress> = Seq::empty();
    let ghost mut verdicts: Seq<bool> = Seq::empty();
    for i in 2..item.len()
        invariant
            item@.len() >= 3,
            nodes == item@.skip(2),
            distinct_hosts(hosts@),
            extends(old(hosts)@, hosts@),
            filter matches Some(filter) ==> forall|node: NodeAddress|
                call_requires(*filter, (&node,)),
            match primary {
                Some(primary) => {
                    &&& hosts@.contains(primary.shared_host())
                    &&& seq![primary@] + addresses(listed) == listed_addresses(
                        nodes.take(i - 2),
                        answering@,
                    )
                },
                None => {
                    &&& listed.len() == 0
                    &&& listed_addresses(nodes.take(i - 2), answering@).len() == 0
                },
            },
            decided(filter, listed, verdicts, replicas@),
            forall|j: int|
                0 <= j < replicas@.len() ==> hosts@.contains(
                    (#[trigger] replicas@[j]).shared_host(),
                ),
    {
        let ghost hosts_before = hosts@;
        let ghost listed_before = listed;
        let ghost verdicts_before = verdicts;
        let node = try_to_address(&item[i], answering, hosts);
        proof {
            let next = nodes.take(i - 1);
            assert(next.drop_last() =~= nodes.take(i - 2));
            assert(next.last() == item@[i as int]);
            if primary is Some {
                lemma_extends_contains(hosts_before, hosts@, primary->0.shared_host());
            }
            assert forall|j: int| 0 <= j < replicas@.len() implies hosts@.contains(
                (#[trigger] replicas@[j]).shared_host(),
            ) by {
                lemma_extends_contains(hosts_before, hosts@, replicas@[j].shared_host());
            }
        }
        if let Some(node) = node {
            if primary.is_none() {
                proof {
                    assert(addresses(listed) =~= Seq::<NodeKey>::empty());
                    assert(listed_addresses(nodes.take(i - 2), answering@).push(node@) =~= seq![
                        node@,
                    ] + addresses(listed));
                }
                primary = Some(node);
            } else {
                let keep = match filter {
                    Some(filter) => filter(&node),
                    None => true,
                };
                proof {
                    listed = listed_before.push(node);
                    verdicts = verdicts_before.push(keep);
                    assert(listed.drop_last() =~= listed_before);
                    assert(verdicts.drop_last() =~= verdicts_before);
                    assert(may_decide(filter, node, keep));
                    assert forall|j: int| 0 <= j < listed.len() implies may_decide(
                        filter,
                        #[trigger] listed[j],
                        verdicts[j],
                    ) by {
                        if j < listed_before.len() {
                            assert(may_decide(filter, listed_before[j], verdicts_before[j]));
                        }
                    }
                    assert(seq![primary->0@] + addresses(listed) =~= (seq![primary->0@] + addresses(
                        listed_before,
                    )).push(node@));
                }
                if keep {
                    replicas.push(node);
                }
            }
        }
    }
    assert(nodes.take(item@.len() - 2) =~= nodes);
    let Some(master) = primary else {
        return None;
    };
    proof {
        assert((seq![master@] + addresses(listed)).len() > 0);
    }
    let range = SlotRange::new(start, end, master, replicas);
    assert(decided(filter, listed, verdicts, range.replicas@));
    assert(range_of_item(item@, answering@, filter, range));
    Some(range)
}

proof fn lemma_filter_push(
    done: Seq<Seq<Value>>,
    item: Seq<Value>,
    keep: spec_fn(Seq<Value>) -> bool,
)
    ensures
        done.push(item).filter(keep) == if keep(item) {
            done.filter(keep).push(item)
        } else {
            done.filter(keep)
        },
{
    reveal(Seq::filter);
    assert(done.push(item).drop_last() =~= done);
}

proof fn lemma_hosts_are_shared(hosts: Seq<ArcStr>, ranges: Seq<SlotRange>)
    requires
        distinct_hosts(hosts),
        forall|i: int| 0 <= i < ranges.len() ==> interned(hosts, #[trigger] ranges[i]),
    ensures
        hosts_are_shared(ranges),
{
    assert forall|i: int, j: int, a: NodeAddress, b: NodeAddress|
        0 <= i < ranges.len() && 0 <= j < ranges.len() && #[trigger] serves(ranges[i], a)
            && #[trigger] serves(ranges[j], b) && a@.0 == b@.0 implies a.shared_host()
        == b.shared_host() by {
        a.lemma_shared_host();
        b.lemma_shared_host();
        assert(interned(hosts, ranges[i]) && interned(hosts, ranges[j]));
        assert(hosts.contains(a.shared_host()));
        assert(hosts.contains(b.shared_host()));
    }
}

/// Reads the ranges of slots out of a reply to `CLUSTER SLOTS` of the node on the host
/// `addr_of_answering_node`. Nodes other than a range's first are kept where
/// `replica_filter` answers `true`.
pub fn parse_slots<F: Fn(&NodeAddress) -> bool>(
    raw_slot_resp: Value,
    addr_of_answering_node: &str,
    replica_filter: Option<&F>,
) -> (slots: RedisResult<Vec<SlotRange>>)
    requires
        replica_filter matches Some(filter) ==> forall|node: NodeAddress|
            call_requires(*filter, (&node,)),
    ensures
        slots is Ok,
        ({
            let items = range_items(raw_slot_resp, addr_of_answering_node@);
            let ranges = slots->Ok_0@;
            &&& ranges.len() == items.len()
            &&& forall|i: int|
                0 <= i < items.len() ==> range_of_item(
                    items[i],
                    addr_of_answering_node@,
                    replica_filter,
                    #[trigger] ranges[i],
                )
            &&& hosts_are_shared(ranges)
        }),
{
    let mut slots: Vec<SlotRange> = Vec::new();
    let mut hosts: Vec<ArcStr> = Vec::new();
    let ghost answering = addr_of_answering_node@;
    let ghost keep = |item: Seq<Value>| describes_range(item, answering);
    if let Value::Array(items) = &raw_slot_resp {
        let ghost mut done: Seq<Seq<Value>> = Seq::empty();
        assert(items@.skip(0) =~= items@);
        assert(done + leading_arrays(items@) =~= leading_arrays(items@));
        assert(done.filter(keep) =~= Seq::<Seq<Value>>::empty()) by {
            reveal(Seq::filter);
        }
        let mut index: usize = 0;
        while index < items.len()
            invariant_except_break
                index <= items@.len(),
                leading_arrays(items@) == done + leading_arrays(items@.skip(index as int)),
            invariant
                answering == addr_of_answering_node@,
                keep == (|item: Seq<Value>| describes_range(item, answering)),
                distinct_hosts(hosts@),
                replica_filter matches Some(filter) ==> forall|node: NodeAddress|
                    call_requires(*filter, (&node,)),
                slots@.len() == done.filter(keep).len(),
                forall|i: int|
                    0 <= i < slots@.len() ==> range_of_item(
                        done.filter(keep)[i],
                        answering,
                        replica_filter,
                        #[trigger] slots@[i],
                    ),
                forall|i: int| 0 <= i < slots@.len() ==> interned(hosts@, #[trigger] slots@[i]),
            ensures
                leading_arrays(items@) == done,
            decreases items@.len() - index,
        {
            let ghost rest = items@.skip(index as int);
            assert(rest[0] == items@[index as int]);
            assert(rest.drop_first() =~= items@.skip(index + 1));
            let Value::Array(item) = &items[index] else {
                assert(done + leading_arrays(rest) =~= done);
                break;
            };
            let ghost hosts_before = hosts@;
            let ghost done_before = done;
            let ghost slots_before = slots@;
            let range = range_from_item(item, addr_of_answering_node, replica_filter, &mut hosts);
            proof {
                done = done_before.push(item@);
                lemma_filter_push(done_before, item@, keep);
                assert(done_before + leading_arrays(rest) =~= done + leading_arrays(
                    rest.drop_first(),
                ));
                assert forall|i: int| 0 <= i < slots_before.len() implies interned(
                    hosts@,
                    #[trigger] slots_before[i],
                ) by {
                    lemma_extends_interned(hosts_before, hosts@, slots_before[i]);
                }
            }
            if let Some(range) = range {
                slots.push(range);
            }
            index = index + 1;
        }
    }
    proof {
        lemma_hosts_are_shared(hosts@, slots@);
    }
    Ok(slots)
}

} // verus!
