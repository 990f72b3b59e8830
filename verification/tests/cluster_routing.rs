//! A cluster that is held in memory. Its topology is read out of a reply to
//! `CLUSTER SLOTS`, keys are routed by the slot map that comes of it, and every node reads
//! the packed payloads that it is sent with the decoder of the command log.

use redis_cluster::node_address::NodeAddress;
use redis_cluster::resp_commands::decode_commands;
use redis_cluster::slot_range_map::SlotRangeMap;
use redis_cluster::topology::parse_slots;
use redis_cluster::value::Value;
use std::collections::HashMap;

struct Node {
    address: NodeAddress,
    store: HashMap<String, String>,
    log: Vec<String>,
}

impl Node {
    /// Runs the commands of a packed payload, in order. The arguments hold nothing that the
    /// log would escape.
    fn run(&mut self, packed: &[u8]) -> Vec<Option<String>> {
        let mut replies = Vec::new();
        for line in decode_commands(packed) {
            let args: Vec<String> = line.trim_matches('"').split("\" \"").map(String::from).collect();
            replies.push(match args[0].as_str() {
                "SET" => {
                    self.store.insert(args[1].clone(), args[2].clone());
                    Some("OK".to_string())
                }
                "GET" => self.store.get(&args[1]).cloned(),
                other => panic!("unknown command {other}"),
            });
            self.log.push(line);
        }
        replies
    }
}

struct Cluster {
    slots: SlotRangeMap<usize>,
    nodes: Vec<Node>,
}

/// The slot of a key: a CRC16 of the key, or of the part of it in braces.
fn slot_of(key: &str) -> u16 {
    let bytes = match key.split_once('{').and_then(|(_, rest)| rest.split_once('}')) {
        Some((tag, _)) if !tag.is_empty() => tag.as_bytes(),
        _ => key.as_bytes(),
    };
    let mut crc: u16 = 0;
    for b in bytes {
        crc ^= u16::from(*b) << 8;
        for _ in 0..8 {
            crc = if crc & 0x8000 != 0 { (crc << 1) ^ 0x1021 } else { crc << 1 };
        }
    }
    crc % 16384
}

fn pack(args: &[&str]) -> Vec<u8> {
    let mut out = format!("*{}\r\n", args.len()).into_bytes();
    for arg in args {
        out.extend_from_slice(format!("${}\r\n{}\r\n", arg.len(), arg).as_bytes());
    }
    out
}

impl Cluster {
    fn new() -> Self {
        let range = |start: i64, end: i64, port: i64| {
            Value::Array(vec![
                Value::Int(start),
                Value::Int(end),
                Value::Array(vec![Value::Nil, Value::Int(port)]),
            ])
        };
        let reply = Value::Array(vec![
            range(0, 5460, 7000),
            range(5461, 10922, 7001),
            range(10923, 16383, 7002),
        ]);
        let ranges = parse_slots(reply, "127.0.0.1", None::<&fn(&NodeAddress) -> bool>).unwrap();
        let mut slots = SlotRangeMap::new();
        let mut nodes = Vec::new();
        for range in ranges {
            slots.insert(range.start, range.end, nodes.len());
            nodes.push(Node { address: range.master, store: HashMap::new(), log: Vec::new() });
        }
        Cluster { slots, nodes }
    }

    fn index_of(&self, key: &str) -> usize {
        *self.slots.get(slot_of(key)).expect("every slot is covered")
    }

    /// Sends commands as a pipeline: one payload to each node, with the commands whose key is
    /// the node's, and puts the replies back in the order of the commands.
    fn pipeline(&mut self, commands: &[Vec<&str>]) -> Vec<Option<String>> {
        let mut payloads: Vec<Vec<u8>> = vec![Vec::new(); self.nodes.len()];
        let mut sent_to: Vec<usize> = Vec::new();
        for command in commands {
            let index = self.index_of(command[1]);
            payloads[index].extend_from_slice(&pack(command));
            sent_to.push(index);
        }
        let mut replies: Vec<std::vec::IntoIter<Option<String>>> = Vec::new();
        for (node, payload) in self.nodes.iter_mut().zip(&payloads) {
            replies.push(node.run(payload).into_iter());
        }
        sent_to
            .iter()
            .map(|index| replies[*index].next().expect("a reply for each command"))
            .collect()
    }
}

#[test]
fn keys_with_one_tag_go_to_one_node() {
    let mut cluster = Cluster::new();
    cluster.pipeline(&[vec!["SET", "{x}key1", "foo"], vec!["SET", "{x}key2", "bar"]]);
    cluster.pipeline(&[vec!["GET", "{x}key1"], vec!["GET", "{x}key2"]]);

    let node = &cluster.nodes[cluster.index_of("{x}key1")];
    assert_eq!(node.address, "127.0.0.1:7002");
    assert_eq!(
        node.log,
        vec![
            r#""SET" "{x}key1" "foo""#,
            r#""SET" "{x}key2" "bar""#,
            r#""GET" "{x}key1""#,
            r#""GET" "{x}key2""#,
        ]
    );
}

#[test]
fn keys_are_spread_by_the_slots_of_a_parsed_reply() {
    let cluster = Cluster::new();
    assert_eq!((slot_of("foo"), slot_of("bar"), slot_of("baz")), (12182, 5061, 4813));
    let address = |key: &str| cluster.nodes[cluster.index_of(key)].address.to_text();
    assert_eq!(address("foo"), "127.0.0.1:7002");
    assert_eq!(address("bar"), "127.0.0.1:7000");
    assert_eq!(address("baz"), "127.0.0.1:7000");
}

#[test]
fn test_cluster_pipeline_command_ordering() {
    let mut cluster = Cluster::new();

    let mut queries = Vec::new();
    let mut expected = Vec::new();
    for i in 0..100 {
        queries.push(format!("foo{i}"));
        expected.push(format!("bar{i}"));
    }
    let sets: Vec<Vec<&str>> = queries
        .iter()
        .zip(&expected)
        .map(|(query, value)| vec!["SET", query.as_str(), value.as_str()])
        .collect();
    let stored = cluster.pipeline(&sets);
    assert!(stored.iter().all(|reply| reply.as_deref() == Some("OK")));

    let gets: Vec<Vec<&str>> = queries.iter().map(|query| vec!["GET", query.as_str()]).collect();
    let got: Vec<String> = cluster.pipeline(&gets).into_iter().map(|reply| reply.unwrap()).collect();
    assert_eq!(got, expected);

    // Every node had a share of both pipelines.
    assert!(cluster.nodes.iter().all(|node| !node.log.is_empty()));
    assert_eq!(cluster.nodes.iter().map(|node| node.log.len()).sum::<usize>(), 200);
}
