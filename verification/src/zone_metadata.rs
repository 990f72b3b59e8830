//! Availability zones in what nodes tell of themselves.

use arcstr::ArcStr;
use vstd::prelude::*;

use crate::arc_str::{arc_from, arc_text};
use crate::node_address::{NodeAddress, NodeKey};
use crate::node_collections::NodeZones;
use crate::text::{
    alphanumerics, before_first, chars_of, contents, ends_with, find_first, is_empty,
    lower_alphanumerics, part, same_chars, same_text, split, split_at_each, text_from_utf8_lossy,
    text_of, trim, trimmed, utf8_lossy,
};
use crate::topology::{is_wildcard, is_wildcard_address};
use crate::value::Value;

verus! {

/// The form in which names of fields are compared: ASCII letters and digits alone, in
/// lowercase.
pub fn normalize_metadata_key(key: &str) -> (normalized: String)
    ensures
        normalized@ == alphanumerics(key@),
{
    let chars = chars_of(key);
    let normalized = lower_alphanumerics(&chars);
    text_of(&normalized)
}

/// The text of a value that holds one.
pub open spec fn text_in(value: Value) -> Option<Seq<char>> {
    match value {
        Value::BulkString(bytes) => Some(utf8_lossy(bytes@)),
        Value::SimpleString(text) => Some(text@),
        Value::VerbatimString { text, .. } => Some(text@),
        Value::Okay => Some("OK"@),
        _ => None,
    }
}

/// The text of a value that holds one.
pub fn value_to_string(value: &Value) -> (text: Option<String>)
    ensures
        match text {
            Some(text) => text_in(*value) == Some(text@),
            None => text_in(*value) is None,
        },
{
    match value {
        Value::BulkString(bytes) => Some(text_from_utf8_lossy(bytes.as_slice())),
        Value::SimpleString(text) => Some(text.clone()),
        Value::VerbatimString { text, .. } => Some(text.clone()),
        Value::Okay => Some("OK".to_owned()),
        _ => None,
    }
}

/// The fields of a value: its pairs, or the items of a list taken two by two. An item
/// left over at the end counts for nothing.
pub open spec fn fields(value: Value) -> Seq<(Value, Value)> {
    match value {
        Value::Pairs(pairs) => pairs@,
        Value::Array(items) => Seq::new(
            items@.len() / 2,
            |i: int| (items@[2 * i], items@[2 * i + 1]),
        ),
        _ => Seq::empty(),
    }
}

/// The texts of `names`.
pub open spec fn texts(names: Seq<&str>) -> Seq<Seq<char>> {
    names.map_values(|name: &str| name@)
}

/// Whether two names mean the same field.
pub open spec fn same_name(a: Seq<char>, b: Seq<char>) -> bool {
    alphanumerics(a) == alphanumerics(b)
}

/// Whether `key` is a text that means one of the fields `names`.
pub open spec fn is_named(key: Value, names: Seq<Seq<char>>) -> bool {
    match text_in(key) {
        Some(text) => exists|i: int| 0 <= i < names.len() && same_name(text, #[trigger] names[i]),
        None => false,
    }
}

/// The value of the first of `fields` that has one of the names `names`.
pub open spec fn first_field(fields: Seq<(Value, Value)>, names: Seq<Seq<char>>) -> Option<Value>
    decreases fields.len(),
{
    if fields.len() == 0 {
        None
    } else if is_named(fields[0].0, names) {
        Some(fields[0].1)
    } else {
        first_field(fields.drop_first(), names)
    }
}

/// Whether `key` is a text that means one of the fields `names`.
fn named(key: &Value, names: &[&str]) -> (found: bool)
    ensures
        found == is_named(*key, texts(names@)),
{
    let Some(text) = value_to_string(key) else {
        return false;
    };
    let text = normalize_metadata_key(text.as_str());
    for i in 0..names.len()
        invariant
            text_in(*key) is Some,
            text@ == alphanumerics(text_in(*key)->0),
            forall|j: int| 0 <= j < i ==> !same_name(text_in(*key)->0, #[trigger] texts(names@)[j]),
    {
        let name = normalize_metadata_key(names[i]);
        assert(texts(names@)[i as int] == names@[i as int]@);
        if same_text(text.as_str(), name.as_str()) {
            return true;
        }
    }
    false
}

/// The value of the first field of `value` that has one of the names `keys`.
pub fn map_get<'a>(value: &'a Value, keys: &[&str]) -> (found: Option<&'a Value>)
    ensures
        match found {
            Some(found) => first_field(fields(*value), texts(keys@)) == Some(*found),
            None => first_field(fields(*value), texts(keys@)) is None,
        },
{
    let ghost all = fields(*value);
    let ghost names = texts(keys@);
    assert(all.skip(0) =~= all);
    match value {
        Value::Pairs(pairs) => {
            for i in 0..pairs.len()
                invariant
                    all == fields(*value),
                    all == pairs@,
                    names == texts(keys@),
                    first_field(all, names) == first_field(all.skip(i as int), names),
            {
                assert(all.skip(i as int).drop_first() =~= all.skip(i + 1));
                if named(&pairs[i].0, keys) {
                    return Some(&pairs[i].1);
                }
            }
            None
        },
        Value::Array(items) => {
            for i in 0..items.len() / 2
                invariant
                    all == fields(*value),
                    *value == Value::Array(*items),
                    names == texts(keys@),
                    first_field(all, names) == first_field(all.skip(i as int), names),
            {
                assert(all.skip(i as int).drop_first() =~= all.skip(i + 1));
                assert(all[i as int] == (items@[2 * i], items@[2 * i + 1]));
                if named(&items[2 * i], keys) {
                    return Some(&items[2 * i + 1]);
                }
            }
            None
        },
        _ => None,
    }
}

/// The names of the field that holds a node's zone.
pub open spec fn zone_names() -> Seq<Seq<char>> {
    seq![
        "availability-zone"@,
        "availability_zone"@,
        "availability zone"@,
        "availabilityZone"@,
        "az"@,
        "zone"@,
    ]
}

/// The zone of a node of `CLUSTER SHARDS`: the text of the first field that is named as
/// one, without white space around it.
pub open spec fn node_zone(node: Value) -> Option<Seq<char>> {
    match first_field(fields(node), zone_names()) {
        Some(field) => match text_in(field) {
            Some(text) if trimmed(text).len() > 0 => Some(trimmed(text)),
            _ => None,
        },
        None => None,
    }
}

/// `text` without white space around it.
fn trim_text(text: &str) -> (result: String)
    ensures
        result@ == trimmed(text@),
{
    let chars = chars_of(text);
    let chars = trim(&chars);
    text_of(&chars)
}

/// The zone of a node of `CLUSTER SHARDS`.
pub fn cluster_shards_node_zone(node: &Value) -> (zone: Option<String>)
    ensures
        match zone {
            Some(zone) => node_zone(*node) == Some(zone@),
            None => node_zone(*node) is None,
        },
{
    let names = [
        "availability-zone",
        "availability_zone",
        "availability zone",
        "availabilityZone",
        "az",
        "zone",
    ];
    assert(texts(names@) =~= zone_names());
    let Some(field) = map_get(node, names.as_slice()) else {
        return None;
    };
    let Some(text) = value_to_string(field) else {
        return None;
    };
    let zone = trim_text(text.as_str());
    if is_empty(zone.as_str()) {
        None
    } else {
        Some(zone)
    }
}

/// The names of the fields that hold a node's port, in the order in which they count.
pub open spec fn port_names() -> Seq<Seq<char>> {
    seq!["port"@, "tls-port"@, "tls_port"@]
}

/// The port in the field `name` of `node`, if it holds one.
pub open spec fn port_in(node: Value, name: Seq<char>) -> Option<u16> {
    match first_field(fields(node), seq![name]) {
        Some(Value::Int(port)) if 0 <= port <= u16::MAX => Some(port as u16),
        _ => None,
    }
}

/// The port in the first of the fields `names` that holds one.
pub open spec fn first_port(node: Value, names: Seq<Seq<char>>) -> Option<u16>
    decreases names.len(),
{
    if names.len() == 0 {
        None
    } else if port_in(node, names[0]) is Some {
        port_in(node, names[0])
    } else {
        first_port(node, names.drop_first())
    }
}

/// The names of the fields that hold a node's host, in the order in which they count.
pub open spec fn host_names() -> Seq<Seq<char>> {
    seq!["endpoint"@, "hostname"@, "host"@, "ip"@, "addr"@]
}

/// The host in the field `name` of `node`, if it names one: an empty or wildcard name is
/// the host of the node that answered, and `?` names none.
pub open spec fn host_in(node: Value, name: Seq<char>, answering: Seq<char>) -> Option<Seq<char>> {
    match first_field(fields(node), seq![name]) {
        Some(field) => match text_in(field) {
            Some(text) => if trimmed(text) == "?"@ {
                None
            } else if trimmed(text).len() == 0 || is_wildcard(trimmed(text)) {
                Some(answering)
            } else {
                Some(trimmed(text))
            },
            None => None,
        },
        None => None,
    }
}

/// The host in the first of the fields `names` that names one.
pub open spec fn first_host(node: Value, names: Seq<Seq<char>>, answering: Seq<char>) -> Option<
    Seq<char>,
>
    decreases names.len(),
{
    if names.len() == 0 {
        None
    } else if host_in(node, names[0], answering) is Some {
        host_in(node, names[0], answering)
    } else {
        first_host(node, names.drop_first(), answering)
    }
}

/// The address of a node of `CLUSTER SHARDS`, where it has a port and a host.
pub open spec fn shard_node_address(node: Value, answering: Seq<char>) -> Option<NodeKey> {
    match (first_port(node, port_names()), first_host(node, host_names(), answering)) {
        (Some(port), Some(host)) => Some((host, port)),
        _ => None,
    }
}

/// The port in the field `name` of `node`.
fn port_field(node: &Value, name: &str) -> (port: Option<u16>)
    ensures
        port == port_in(*node, name@),
{
    let names = [name];
    assert(texts(names@) =~= seq![name@]);
    match map_get(node, names.as_slice()) {
        Some(Value::Int(port)) => if 0 <= *port && *port <= 65535 {
            Some(*port as u16)
        } else {
            None
        },
        _ => None,
    }
}

/// The host in the field `name` of `node`.
fn host_field(node: &Value, name: &str, answering: &str) -> (host: Option<String>)
    ensures
        match host {
            Some(host) => host_in(*node, name@, answering@) == Some(host@),
            None => host_in(*node, name@, answering@) is None,
        },
{
    let names = [name];
    assert(texts(names@) =~= seq![name@]);
    let Some(field) = map_get(node, names.as_slice()) else {
        return None;
    };
    let Some(text) = value_to_string(field) else {
        return None;
    };
    let host = trim_text(text.as_str());
    if same_text(host.as_str(), "?") {
        None
    } else if is_empty(host.as_str()) || is_wildcard_address(host.as_str()) {
        Some(answering.to_owned())
    } else {
        Some(host)
    }
}

/// The address of a node of `CLUSTER SHARDS`.
pub fn cluster_shards_node_address(node: &Value, addr_of_answering_node: &str) -> (address: Option<
    NodeAddress,
>)
    ensures
        match address {
            Some(address) => shard_node_address(*node, addr_of_answering_node@) == Some(address@),
            None => shard_node_address(*node, addr_of_answering_node@) is None,
        },
{
    let ports = ["port", "tls-port", "tls_port"];
    let ghost port_texts = texts(ports@);
    assert(port_texts =~= port_names());
    assert(port_texts.skip(0) =~= port_texts);
    let mut port: Option<u16> = None;
    let mut i: usize = 0;
    while i < ports.len() && port.is_none()
        invariant
            i <= ports@.len(),
            port_texts == texts(ports@),
            first_port(*node, port_texts) == if port is Some {
                port
            } else {
                first_port(*node, port_texts.skip(i as int))
            },
        decreases ports@.len() - i,
    {
        assert(port_texts.skip(i as int).drop_first() =~= port_texts.skip(i + 1));
        port = port_field(node, ports[i]);
        i = i + 1;
    }
    let Some(port) = port else {
        return None;
    };
    let hosts = ["endpoint", "hostname", "host", "ip", "addr"];
    let ghost host_texts = texts(hosts@);
    assert(host_texts =~= host_names());
    assert(host_texts.skip(0) =~= host_texts);
    for i in 0..hosts.len()
        invariant
            host_texts == texts(hosts@),
            host_texts == host_names(),
            first_port(*node, port_names()) == Some(port),
            first_host(*node, host_texts, addr_of_answering_node@) == first_host(
                *node,
                host_texts.skip(i as int),
                addr_of_answering_node@,
            ),
    {
        assert(host_texts.skip(i as int).drop_first() =~= host_texts.skip(i + 1));
        if let Some(host) = host_field(node, hosts[i], addr_of_answering_node) {
            return Some(NodeAddress::new(host.as_str(), port));
        }
    }
    None
}

/// `zones` with the zone of `node`, where it has an address and a zone.
pub open spec fn with_node(
    zones: Map<NodeKey, Seq<char>>,
    node: Value,
    answering: Seq<char>,
) -> Map<NodeKey, Seq<char>> {
    match (shard_node_address(node, answering), node_zone(node)) {
        (Some(address), Some(zone)) => zones.insert(address, zone),
        _ => zones,
    }
}

/// `zones` with the zones of `nodes`, where later nodes come after earlier ones.
pub open spec fn with_nodes(
    zones: Map<NodeKey, Seq<char>>,
    nodes: Seq<Value>,
    answering: Seq<char>,
) -> Map<NodeKey, Seq<char>>
    decreases nodes.len(),
{
    if nodes.len() == 0 {
        zones
    } else {
        with_node(with_nodes(zones, nodes.drop_last(), answering), nodes.last(), answering)
    }
}

/// The nodes that a shard of `CLUSTER SHARDS` lists.
pub open spec fn nodes_of_shard(shard: Value) -> Seq<Value> {
    match first_field(fields(shard), seq!["nodes"@]) {
        Some(Value::Array(nodes)) => nodes@,
        _ => Seq::empty(),
    }
}

/// The zones of the nodes of `shards`.
pub open spec fn zones_of_shards(shards: Seq<Value>, answering: Seq<char>) -> Map<
    NodeKey,
    Seq<char>,
>
    decreases shards.len(),
{
    if shards.len() == 0 {
        Map::empty()
    } else {
        with_nodes(
            zones_of_shards(shards.drop_last(), answering),
            nodes_of_shard(shards.last()),
            answering,
        )
    }
}

/// The zones that a reply to `CLUSTER SHARDS` tells of.
pub open spec fn zones_of_reply(reply: Value, answering: Seq<char>) -> Map<NodeKey, Seq<char>> {
    match reply {
        Value::Array(shards) => zones_of_shards(shards@, answering),
        _ => Map::empty(),
    }
}

/// Gives `zones` the zones of `nodes`.
fn add_zones(zones: &mut NodeZones, nodes: &Vec<Value>, answering: &str)
    requires
        old(zones).wf(),
    ensures
        final(zones).wf(),
        final(zones)@ == with_nodes(old(zones)@, nodes@, answering@),
{
    for i in 0..nodes.len()
        invariant
            zones.wf(),
            zones@ == with_nodes(old(zones)@, nodes@.take(i as int), answering@),
    {
        assert(nodes@.take(i + 1).drop_last() =~= nodes@.take(i as int));
        if let Some(zone) = cluster_shards_node_zone(&nodes[i]) {
            if let Some(address) = cluster_shards_node_address(&nodes[i], answering) {
                zones.insert(address, arc_from(zone.as_str()));
            }
        }
    }
    assert(nodes@.take(nodes@.len() as int) =~= nodes@);
}

/// Reads the zones of nodes out of a reply to `CLUSTER SHARDS` of the node on the host
/// `addr_of_answering_node`.
pub fn parse_cluster_shards_availability_zones(
    raw_shards_resp: &Value,
    addr_of_answering_node: &str,
) -> (zones: NodeZones)
    ensures
        zones.wf(),
        zones@ == zones_of_reply(*raw_shards_resp, addr_of_answering_node@),
{
    let mut zones = NodeZones::new();
    let Value::Array(shards) = raw_shards_resp else {
        return zones;
    };
    let names = ["nodes"];
    assert(texts(names@) =~= seq!["nodes"@]);
    for i in 0..shards.len()
        invariant
            zones.wf(),
            texts(names@) == seq!["nodes"@],
            zones@ == zones_of_shards(shards@.take(i as int), addr_of_answering_node@),
    {
        assert(shards@.take(i + 1).drop_last() =~= shards@.take(i as int));
        if let Some(Value::Array(nodes)) = map_get(&shards[i], names.as_slice()) {
            add_zones(&mut zones, nodes, addr_of_answering_node);
        }
    }
    assert(shards@.take(shards@.len() as int) =~= shards@);
    zones
}

/// Whether `key` names a zone in a reply to `INFO`.
pub open spec fn is_zone_key(key: Seq<char>) -> bool {
    let name = alphanumerics(key);
    "availabilityzone"@.is_suffix_of(name) || name == "az"@
}

/// The zone in a line of `INFO`: what stands behind the first colon of a line that is
/// no comment and has the name of a zone before the colon.
pub open spec fn zone_in_line(line: Seq<char>) -> Option<Seq<char>> {
    let text = trimmed(line);
    let colon = before_first(text, ':') as int;
    if text.len() == 0 || text[0] == '#' || colon == text.len() {
        None
    } else {
        let zone = trimmed(text.skip(colon + 1));
        if is_zone_key(text.take(colon)) && zone.len() > 0 {
            Some(zone)
        } else {
            None
        }
    }
}

/// The zone in the first of `lines` that holds one.
pub open spec fn first_zone_in(lines: Seq<Seq<char>>) -> Option<Seq<char>>
    decreases lines.len(),
{
    if lines.len() == 0 {
        None
    } else if zone_in_line(lines[0]) is Some {
        zone_in_line(lines[0])
    } else {
        first_zone_in(lines.drop_first())
    }
}

/// The zone in a line of `INFO`.
fn line_zone(line: &[char]) -> (zone: Option<Vec<char>>)
    ensures
        match zone {
            Some(zone) => zone_in_line(line@) == Some(zone@),
            None => zone_in_line(line@) is None,
        },
{
    let text = trim(line);
    if text.len() == 0 || text[0] == '#' {
        return None;
    }
    let colon: usize = find_first(&text, ':');
    if colon == text.len() {
        return None;
    }
    let key = part(&text, 0, colon);
    assert(key@ =~= text@.take(colon as int));
    let name = lower_alphanumerics(&key);
    let long_name = chars_of("availabilityzone");
    let short_name = chars_of("az");
    if !ends_with(&name, &long_name) && !same_chars(&name, &short_name) {
        return None;
    }
    let zone = part(&text, colon + 1, text.len());
    assert(zone@ =~= text@.skip(colon + 1));
    let zone = trim(&zone);
    if zone.len() == 0 {
        None
    } else {
        Some(zone)
    }
}

/// Reads the zone of a node out of its reply to `INFO SERVER`. Lines end with a line
/// feed; a carriage return before it is white space.
pub fn parse_info_server_availability_zone(info: &str) -> (zone: Option<ArcStr>)
    ensures
        match zone {
            Some(zone) => first_zone_in(split(info@, '\n')) == Some(arc_text(zone)),
            None => first_zone_in(split(info@, '\n')) is None,
        },
{
    let chars = chars_of(info);
    let lines = split_at_each(&chars, '\n');
    let ghost all = contents(lines@);
    assert(all.skip(0) =~= all);
    for i in 0..lines.len()
        invariant
            all == contents(lines@),
            all == split(info@, '\n'),
            first_zone_in(all) == first_zone_in(all.skip(i as int)),
    {
        assert(all.skip(i as int).drop_first() =~= all.skip(i + 1));
        assert(all[i as int] == lines@[i as int]@);
        if let Some(zone) = line_zone(&lines[i]) {
            let zone = text_of(&zone);
            return Some(arc_from(zone.as_str()));
        }
    }
    None
}

} // verus!
