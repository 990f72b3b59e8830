//! What holds of nodes' addresses and of collections of them.

use vstd::prelude::*;
use vstd::std_specs::cmp::PartialEqSpec;

use crate::node_address::{host_and_port, NodeAddress, NodeKey};
use crate::node_collections::{contains_node, keys_of, NodeSet, NodeZones};
use crate::text_laws::{law_decimal, number_of_digits};
use crate::zone_discovery::{DiscoveryRecords, NodeAvailabilityZoneDiscoveryMethod};

verus! {

/// An address is written as its host, a colon, and its port in digits without leading zeros.
pub proof fn law_address_text(address: &NodeAddress, text: String)
    requires
        call_ensures(NodeAddress::to_text, (address,), text),
    ensures
        text@.len() > address@.0.len() + 1,
        text@.subrange(0, address@.0.len() as int) == address@.0,
        text@[address@.0.len() as int] == ':',
        number_of_digits(text@.subrange(address@.0.len() as int + 1, text@.len() as int))
            == address@.1,
        forall|i: int|
            address@.0.len() < i < text@.len() ==> 48 <= #[trigger] text@[i] as int <= 57,
        text@.len() > address@.0.len() + 2 ==> text@[address@.0.len() as int + 1] != '0',
{
    let start = address@.0.len() as int;
    let digits = crate::text::decimal(address@.1 as nat);
    law_decimal(address@.1 as nat);
    assert(text@.subrange(0, start) =~= address@.0);
    assert(text@.subrange(start + 1, text@.len() as int) =~= digits);
    assert forall|i: int| start < i < text@.len() implies 48 <= #[trigger] text@[i] as int <= 57 by {
        assert(text@[i] == digits[i - start - 1]);
    }
    if digits.len() > 1 {
        assert(text@[start + 1] == digits[0]);
    }
}

/// Different addresses are written differently.
pub proof fn law_address_texts_differ(a: NodeKey, b: NodeKey)
    requires
        host_and_port(a) == host_and_port(b),
    ensures
        a.0 == b.0,
        a.1 == b.1,
{
    let text = host_and_port(a);
    let digits_a = crate::text::decimal(a.1 as nat);
    let digits_b = crate::text::decimal(b.1 as nat);
    law_decimal(a.1 as nat);
    law_decimal(b.1 as nat);
    assert(text.len() == a.0.len() + 1 + digits_a.len());
    assert(host_and_port(b).len() == b.0.len() + 1 + digits_b.len());
    if a.0.len() < b.0.len() {
        let i = b.0.len() as int;
        assert(host_and_port(b)[i] == ':');
        assert(text[i] == digits_a[i - a.0.len() - 1]);
    }
    if b.0.len() < a.0.len() {
        let i = a.0.len() as int;
        assert(text[i] == ':');
        assert(text[i] == digits_b[i - b.0.len() - 1]);
    }
    let start = a.0.len() as int;
    assert(a.0 =~= text.subrange(0, start));
    assert(b.0 =~= text.subrange(0, start));
    assert(digits_a =~= text.subrange(start + 1, text.len() as int));
    assert(digits_b =~= text.subrange(start + 1, text.len() as int));
}

/// Two addresses are equal exactly where their hosts and their ports are.
pub proof fn law_equal_addresses(a: NodeAddress, b: NodeAddress)
    ensures
        a.eq_spec(&b) <==> a@.0 == b@.0 && a@.1 == b@.1,
{
}

/// An address equals a text exactly where the text is how it is written.
pub proof fn law_equal_texts(address: &NodeAddress, text: String, other: &str)
    requires
        call_ensures(NodeAddress::to_text, (address,), text),
    ensures
        address.eq_spec(&other) <==> other@ == text@,
{
}

/// A node stands in a list where one of the list has its address.
pub proof fn law_contained_nodes(nodes: &[NodeAddress], node: &NodeAddress, found: bool)
    requires
        call_ensures(contains_node, (nodes, node), found),
    ensures
        found <==> exists|i: int| 0 <= i < nodes@.len() && (#[trigger] nodes@[i])@ == node@,
{
}

/// The list of a set has the nodes of the set, each once, and no other.
pub proof fn law_listed_set(set: &NodeSet, nodes: &[NodeAddress], key: NodeKey)
    requires
        call_ensures(NodeSet::nodes, (set,), nodes),
    ensures
        set@.contains(key) <==> exists|i: int| 0 <= i < nodes@.len() && (#[trigger] nodes@[i])@ == key,
        forall|i: int, j: int|
            0 <= i < j < nodes@.len() ==> (#[trigger] nodes@[i])@ != (#[trigger] nodes@[j])@,
{
    assert(keys_of(nodes@).contains(key) <==> exists|i: int|
        0 <= i < nodes@.len() && (#[trigger] nodes@[i])@ == key);
}

/// The zones that are known of some nodes are those that have been found, of those nodes alone.
pub proof fn law_cached_zones(
    records: &DiscoveryRecords,
    nodes: &[NodeAddress],
    zones: NodeZones,
    key: NodeKey,
)
    requires
        call_ensures(DiscoveryRecords::cached_zones, (records, nodes), zones),
    ensures
        zones@.contains_key(key) <==> records.zones().contains_key(key) && exists|i: int|
            0 <= i < nodes@.len() && (#[trigger] nodes@[i])@ == key,
        zones@.contains_key(key) ==> zones@[key] == records.zones()[key],
{
    assert(keys_of(nodes@).contains(key) <==> exists|i: int|
        0 <= i < nodes@.len() && (#[trigger] nodes@[i])@ == key);
}

/// A way that has worked is preferred until it fails or another works; the failure of another
/// changes nothing.
pub proof fn law_preferred_ways(
    working: &mut DiscoveryRecords,
    failing: &mut DiscoveryRecords,
    way: NodeAvailabilityZoneDiscoveryMethod,
    other: NodeAvailabilityZoneDiscoveryMethod,
    found: &NodeZones,
)
    requires
        call_ensures(DiscoveryRecords::record_success, (working, way, found), ()),
        *old(failing) == *final(working),
        call_ensures(DiscoveryRecords::record_failure, (failing, other), ()),
    ensures
        final(working).preferred() == Some(way),
        way == other ==> final(failing).preferred() is None,
        way != other ==> final(failing).preferred() == Some(way),
        forall|key: NodeKey|
            found@.contains_key(key) ==> final(failing).zones().contains_key(key)
                && #[trigger] final(failing).zones()[key] == found@[key],
        forall|key: NodeKey|
            !found@.contains_key(key) && old(working).zones().contains_key(key) ==> final(
                failing
            ).zones().contains_key(key) && #[trigger] final(failing).zones()[key] == old(
                working
            ).zones()[key],
        forall|key: NodeKey|
            !found@.contains_key(key) && !old(working).zones().contains_key(key)
                ==> !#[trigger] final(failing).zones().contains_key(key),
{
}

/// A reply to `CLUSTER SHARDS` is asked for first, then hosts' names are looked at, and nodes
/// are asked for `INFO SERVER` last; there is no other way, and none is tried twice.
pub proof fn law_order_of_ways(way: NodeAvailabilityZoneDiscoveryMethod)
    ensures
        NodeAvailabilityZoneDiscoveryMethod::ALL@.contains(way),
        NodeAvailabilityZoneDiscoveryMethod::ALL@.len() == 3,
        NodeAvailabilityZoneDiscoveryMethod::ALL@[0] == way <==> way is ClusterShards,
        NodeAvailabilityZoneDiscoveryMethod::ALL@[1] == way <==> way is Hostname,
        NodeAvailabilityZoneDiscoveryMethod::ALL@[2] == way <==> way is InfoServer,
{
    let all = NodeAvailabilityZoneDiscoveryMethod::ALL@;
    assert(all[0] == way || all[1] == way || all[2] == way);
}

} // verus!
