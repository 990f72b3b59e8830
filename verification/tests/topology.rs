use redis_cluster::node_address::NodeAddress;
use redis_cluster::topology::{is_wildcard_address, parse_slots, resolve_host};
use redis_cluster::value::Value;

type NoFilter = fn(&NodeAddress) -> bool;

fn slot_value_with_replicas(start: u16, end: u16, nodes: Vec<(&str, u16)>) -> Value {
    let mut node_values: Vec<Value> = nodes
        .iter()
        .map(|(host, port)| {
            Value::Array(vec![
                Value::BulkString(host.as_bytes().to_vec()),
                Value::Int(*port as i64),
            ])
        })
        .collect();
    let mut slot_vec = vec![Value::Int(start as i64), Value::Int(end as i64)];
    slot_vec.append(&mut node_values);
    Value::Array(slot_vec)
}

fn slot_value(start: u16, end: u16, node: &str, port: u16) -> Value {
    slot_value_with_replicas(start, end, vec![(node, port)])
}

#[test]
fn parse_slots_returns_slots_with_host_name_if_missing() {
    let view = Value::Array(vec![slot_value(0, 4000, "", 6379)]);

    let slots = parse_slots(view, "node", None::<&NoFilter>).unwrap();
    assert_eq!(slots[0].master, "node:6379");
}

#[test]
fn parse_slots_treats_wildcard_hostnames_as_answering_node() {
    // Master advertised as 0.0.0.0 should be treated as the answering node's host
    let view = Value::Array(vec![slot_value_with_replicas(
        0,
        100,
        vec![("0.0.0.0", 7000)],
    )]);
    let slots = parse_slots(view, "answer.host", None::<&NoFilter>).unwrap();
    assert_eq!(slots[0].master, "answer.host:7000");

    // IPv6 wildcard :: similarly falls back to answering node
    let view_v6 = Value::Array(vec![slot_value_with_replicas(200, 300, vec![("::", 7001)])]);
    let slots_v6 = parse_slots(view_v6, "answer6.host", None::<&NoFilter>).unwrap();
    assert_eq!(slots_v6[0].master, "answer6.host:7001");
}

#[test]
fn parse_slots_applies_replica_filter() {
    // Shard: primary "p:6379" + replicas "r1:6379", "r2:6379", "r3:6379"
    let view = Value::Array(vec![slot_value_with_replicas(
        0,
        100,
        vec![("p", 6379), ("r1", 6379), ("r2", 6379), ("r3", 6379)],
    )]);

    // Keep only "r2" — primary must pass through untouched.
    let keep_r2 = |addr: &NodeAddress| addr.host() == "r2";
    let slots = parse_slots(view, "answer", Some(&keep_r2)).unwrap();

    assert_eq!(slots[0].master, "p:6379");
    assert_eq!(slots[0].replicas.len(), 1);
    assert_eq!(slots[0].replicas[0], "r2:6379");
}

#[test]
fn parse_slots_filter_dropping_all_replicas_leaves_primary() {
    let view = Value::Array(vec![slot_value_with_replicas(
        0,
        100,
        vec![("p", 6379), ("r1", 6379), ("r2", 6379)],
    )]);

    let drop_all = |_addr: &NodeAddress| false;
    let slots = parse_slots(view, "answer", Some(&drop_all)).unwrap();

    assert_eq!(slots[0].master, "p:6379");
    assert!(slots[0].replicas.is_empty());
}

#[test]
fn parse_slots_keeps_every_replica_without_a_filter() {
    let view = Value::Array(vec![slot_value_with_replicas(
        5,
        6,
        vec![("p", 1), ("r1", 2), ("?", 3), ("r2", 4)],
    )]);
    let slots = parse_slots(view, "answer", None::<&NoFilter>).unwrap();
    assert_eq!(slots.len(), 1);
    assert_eq!((slots[0].start, slots[0].end), (5, 6));
    assert_eq!(slots[0].replicas.len(), 2);
    assert_eq!(slots[0].replicas[0], "r1:2");
    assert_eq!(slots[0].replicas[1], "r2:4");
}

#[test]
fn parse_slots_takes_a_null_host_for_the_answering_node() {
    let node = Value::Array(vec![Value::Nil, Value::Int(6379)]);
    let view = Value::Array(vec![Value::Array(vec![
        Value::Int(0),
        Value::Int(16383),
        node,
    ])]);
    let slots = parse_slots(view, "answer", None::<&NoFilter>).unwrap();
    assert_eq!(slots.len(), 1);
    assert_eq!((slots[0].start, slots[0].end), (0, 16383));
    assert_eq!(slots[0].master, "answer:6379");
}

#[test]
fn parse_slots_passes_over_unknown_nodes() {
    let view = Value::Array(vec![
        slot_value(0, 7000, "known", 6379),
        slot_value(7001, 16383, "?", 6380),
    ]);
    let slots = parse_slots(view, "answer", None::<&NoFilter>).unwrap();
    assert_eq!(slots.len(), 1);
    assert_eq!(slots[0].master, "known:6379");
}

#[test]
fn parse_slots_promotes_the_first_node_with_an_address() {
    let view = Value::Array(vec![slot_value_with_replicas(
        0,
        1,
        vec![("?", 1), ("p", 2), ("r", 3)],
    )]);
    let drop_all = |_addr: &NodeAddress| false;
    let slots = parse_slots(view, "answer", Some(&drop_all)).unwrap();
    assert_eq!(slots[0].master, "p:2");
    assert!(slots[0].replicas.is_empty());
}

#[test]
fn parse_slots_skips_items_that_tell_of_no_range() {
    let view = Value::Array(vec![
        Value::Array(vec![Value::Int(0), Value::Int(1)]),
        Value::Array(vec![Value::Nil, Value::Int(1), Value::Nil]),
        Value::Array(vec![Value::Int(1), Value::Okay, Value::Nil]),
        Value::Array(vec![Value::Int(1), Value::Int(2), Value::Nil]),
        Value::Array(vec![
            Value::Int(1),
            Value::Int(2),
            Value::Array(vec![Value::Int(5), Value::Int(6)]),
            Value::Array(vec![Value::Nil]),
            Value::Array(vec![Value::Nil, Value::Nil]),
        ]),
        slot_value(3, 4, "n", 5),
    ]);
    let slots = parse_slots(view, "answer", None::<&NoFilter>).unwrap();
    assert_eq!(slots.len(), 1);
    assert_eq!((slots[0].start, slots[0].end), (3, 4));
}

#[test]
fn parse_slots_stops_at_an_item_that_is_no_list() {
    let view = Value::Array(vec![
        slot_value(0, 1, "a", 1),
        Value::Nil,
        slot_value(2, 3, "b", 2),
    ]);
    let slots = parse_slots(view, "answer", None::<&NoFilter>).unwrap();
    assert_eq!(slots.len(), 1);
    assert_eq!(slots[0].master, "a:1");
    assert!(parse_slots(Value::Okay, "answer", None::<&NoFilter>).unwrap().is_empty());
}

#[test]
fn parse_slots_takes_the_low_bits_of_bounds_and_ports() {
    let node = Value::Array(vec![Value::BulkString(b"n".to_vec()), Value::Int(65536 + 7)]);
    let view = Value::Array(vec![Value::Array(vec![
        Value::Int(-1),
        Value::Int(65536 * 3 + 2),
        node,
    ])]);
    let slots = parse_slots(view, "answer", None::<&NoFilter>).unwrap();
    assert_eq!((slots[0].start, slots[0].end), (65535, 2));
    assert_eq!(slots[0].master, "n:7");
}

#[test]
fn parse_slots_reads_hosts_that_are_no_utf8() {
    let node = Value::Array(vec![Value::BulkString(vec![b'h', 0xff]), Value::Int(1)]);
    let view = Value::Array(vec![Value::Array(vec![Value::Int(0), Value::Int(1), node])]);
    let slots = parse_slots(view, "answer", None::<&NoFilter>).unwrap();
    assert_eq!(slots[0].master.host(), "h\u{fffd}");
}

#[test]
fn parse_slots_never_yields_an_empty_host() {
    let view = Value::Array(vec![slot_value(0, 1, "", 1), slot_value(2, 3, "::", 1)]);
    let slots = parse_slots(view, "", None::<&NoFilter>).unwrap();
    assert!(slots.is_empty());
}

#[test]
fn resolve_host_tells_the_cases_apart() {
    assert_eq!(resolve_host("", "me"), Some("me".to_string()));
    assert_eq!(resolve_host("0.0.0.0", "me"), Some("me".to_string()));
    assert_eq!(resolve_host("::", "me"), Some("me".to_string()));
    assert_eq!(resolve_host("?", "me"), None);
    assert_eq!(resolve_host("you", "me"), Some("you".to_string()));
    assert_eq!(resolve_host("", ""), None);
    assert!(is_wildcard_address("::"));
    assert!(!is_wildcard_address("::1"));
    assert!(!is_wildcard_address("0.0.0.1"));
}

#[test]
fn addresses_compare_by_host_and_port() {
    let a = NodeAddress::new("h", 1);
    assert_eq!(a, NodeAddress::from_parts("h".into(), 1));
    assert_ne!(a, NodeAddress::new("h", 2));
    assert_ne!(a, NodeAddress::new("g", 1));
    assert_eq!(a.clone(), a);
    assert_eq!(NodeAddress::new("a:b", 65535).to_text(), "a:b:65535");
    assert_eq!(NodeAddress::new("h", 0), "h:0");
    assert_eq!(a.port(), 1);
}
