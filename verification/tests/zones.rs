use arcstr::ArcStr;
use redis_cluster::node_address::NodeAddress;
use redis_cluster::node_collections::{NodeSet, NodeZones};
use redis_cluster::text::{
    chars_of, ends_with, find_first, lower_alphanumerics, split_at_each, text_of, trim, white_space,
};
use redis_cluster::value::{Value, VerbatimFormat};
use redis_cluster::zone_discovery::{
    DiscoveryRecords, NodeAvailabilityZoneCoverage, NodeAvailabilityZoneDiscovery,
    NodeAvailabilityZoneDiscoveryMethod, NodeAvailabilityZoneDiscoveryState,
};
use redis_cluster::zone_discovery::NodeAvailabilityZoneCoverage::{Complete, Missing, Partial};
use redis_cluster::zone_discovery::NodeAvailabilityZoneDiscoveryMethod::{
    ClusterShards, Hostname, InfoServer,
};
use redis_cluster::zone_metadata::{
    cluster_shards_node_address, cluster_shards_node_zone, map_get, normalize_metadata_key,
    parse_cluster_shards_availability_zones, parse_info_server_availability_zone, value_to_string,
};
use redis_cluster::zone_names::{
    candidate_zones_from_label, digits_then_single_letter, ends_with_digit,
    is_aws_availability_zone, is_aws_availability_zone_id, is_gcp_availability_zone,
    parse_hostname_availability_zone,
};

fn bulk(value: &str) -> Value {
    Value::BulkString(value.as_bytes().to_vec())
}

#[test]
fn parse_cluster_shards_availability_zones_from_resp3_maps() {
    let view = Value::Array(vec![Value::Pairs(vec![(
        bulk("nodes"),
        Value::Array(vec![
            Value::Pairs(vec![
                (bulk("endpoint"), bulk("primary.example.com")),
                (bulk("port"), Value::Int(6379)),
                (bulk("availability-zone"), bulk("us-east-1a")),
            ]),
            Value::Pairs(vec![
                (bulk("hostname"), bulk("replica.example.com")),
                (bulk("port"), Value::Int(6380)),
                (bulk("availability_zone"), bulk("us-east-1b")),
            ]),
        ]),
    )])]);

    let zones = parse_cluster_shards_availability_zones(&view, "answer.example.com");

    assert_eq!(
        zones.get(&NodeAddress::new("primary.example.com", 6379)),
        Some(&ArcStr::from("us-east-1a"))
    );
    assert_eq!(
        zones.get(&NodeAddress::new("replica.example.com", 6380)),
        Some(&ArcStr::from("us-east-1b"))
    );
}

#[test]
fn parse_cluster_shards_availability_zones_from_flat_arrays() {
    let view = Value::Array(vec![Value::Array(vec![
        bulk("nodes"),
        Value::Array(vec![Value::Array(vec![
            bulk("endpoint"),
            bulk(""),
            bulk("port"),
            Value::Int(6379),
            bulk("az"),
            bulk("use1-az1"),
        ])]),
    ])]);

    let zones = parse_cluster_shards_availability_zones(&view, "answer.example.com");

    assert_eq!(
        zones.get(&NodeAddress::new("answer.example.com", 6379)),
        Some(&ArcStr::from("use1-az1"))
    );
}

#[test]
fn parse_info_server_availability_zone_handles_elasticache_key() {
    let info = "# Server\r\nredis_version:7.2.4\r\navailability_zone:us-east-1b\r\n";

    assert_eq!(
        parse_info_server_availability_zone(info),
        Some(ArcStr::from("us-east-1b"))
    );
}

#[test]
fn parse_hostname_availability_zone_supports_common_cloud_tokens() {
    assert_eq!(
        parse_hostname_availability_zone("cache-0001.us-east-1b.cache.amazonaws.com"),
        Some(ArcStr::from("us-east-1b"))
    );
    assert_eq!(
        parse_hostname_availability_zone("node-use1-az2.example.com"),
        Some(ArcStr::from("use1-az2"))
    );
    assert_eq!(
        parse_hostname_availability_zone("redis.us-central1-a.example.internal"),
        Some(ArcStr::from("us-central1-a"))
    );
}

#[test]
fn availability_zone_discovery_logs_only_important_coverage_transitions() {
    let mut discovery = NodeAvailabilityZoneDiscovery::default();

    assert!(!discovery.should_log_coverage(NodeAvailabilityZoneCoverage::Complete));
    assert!(!discovery.should_log_coverage(NodeAvailabilityZoneCoverage::Complete));
    assert!(discovery.should_log_coverage(NodeAvailabilityZoneCoverage::Missing));
    assert!(!discovery.should_log_coverage(NodeAvailabilityZoneCoverage::Missing));
    assert!(discovery.should_log_coverage(NodeAvailabilityZoneCoverage::Partial));
    assert!(!discovery.should_log_coverage(NodeAvailabilityZoneCoverage::Partial));
    assert!(discovery.should_log_coverage(NodeAvailabilityZoneCoverage::Complete));
}

#[test]
fn shared_discovery_state_logs_only_important_coverage_transitions() {
    let cache = NodeAvailabilityZoneDiscoveryState::default();

    assert!(!cache.should_log_coverage(NodeAvailabilityZoneCoverage::Complete));
    assert!(!cache.should_log_coverage(NodeAvailabilityZoneCoverage::Complete));
    assert!(cache.should_log_coverage(NodeAvailabilityZoneCoverage::Missing));
    assert!(!cache.should_log_coverage(NodeAvailabilityZoneCoverage::Missing));
    assert!(cache.should_log_coverage(NodeAvailabilityZoneCoverage::Partial));
    assert!(!cache.should_log_coverage(NodeAvailabilityZoneCoverage::Partial));
    assert!(cache.should_log_coverage(NodeAvailabilityZoneCoverage::Complete));
}

#[test]
fn first_incomplete_coverage_is_logged() {
    let mut discovery = NodeAvailabilityZoneDiscovery::default();
    assert!(discovery.should_log_coverage(NodeAvailabilityZoneCoverage::Partial));
    let mut discovery = NodeAvailabilityZoneDiscovery::default();
    assert!(discovery.should_log_coverage(NodeAvailabilityZoneCoverage::Missing));
}

#[test]
fn coverage_counts_nodes() {
    assert_eq!(NodeAvailabilityZoneCoverage::from_counts(0, 0), Missing);
    assert_eq!(NodeAvailabilityZoneCoverage::from_counts(0, 3), Missing);
    assert_eq!(NodeAvailabilityZoneCoverage::from_counts(2, 3), Partial);
    assert_eq!(NodeAvailabilityZoneCoverage::from_counts(3, 3), Complete);
    assert_eq!(NodeAvailabilityZoneCoverage::from_counts(4, 3), Complete);
}

#[test]
fn preferred_method_is_the_last_that_worked() {
    assert_eq!(
        NodeAvailabilityZoneDiscoveryMethod::ALL,
        [ClusterShards, Hostname, InfoServer]
    );
    let mut discovery = NodeAvailabilityZoneDiscovery::default();
    assert_eq!(discovery.preferred_method(), None);
    discovery.record_success(InfoServer);
    discovery.record_failure(Hostname);
    assert_eq!(discovery.preferred_method(), Some(InfoServer));
    discovery.record_success(Hostname);
    discovery.record_failure(Hostname);
    assert_eq!(discovery.preferred_method(), None);
}

#[test]
fn found_zones_are_known_from_then_on() {
    let a = NodeAddress::new("a", 1);
    let b = NodeAddress::new("b", 1);
    let mut records = DiscoveryRecords::default();
    let mut zones = NodeZones::new();
    zones.insert(a.clone(), ArcStr::from("z1"));
    zones.insert(b.clone(), ArcStr::from("z2"));
    records.record_success(NodeAvailabilityZoneDiscoveryMethod::Hostname, &zones);
    let mut newer = NodeZones::new();
    newer.insert(a.clone(), ArcStr::from("z3"));
    records.record_success(NodeAvailabilityZoneDiscoveryMethod::InfoServer, &newer);
    records.record_failure(NodeAvailabilityZoneDiscoveryMethod::InfoServer);

    let cached = records.cached_zones(&[a.clone(), b.clone(), NodeAddress::new("c", 1)]);
    assert_eq!(cached.get(&a), Some(&ArcStr::from("z3")));
    assert_eq!(cached.get(&b), Some(&ArcStr::from("z2")));
    assert_eq!(cached.get(&NodeAddress::new("c", 1)), None);
    assert_eq!(records.cached_zones(&[b.clone()]).get(&a), None);
    assert_eq!(records.preferred_method(), None);
}

#[test]
fn shared_records_are_seen_by_every_holder() {
    let state = NodeAvailabilityZoneDiscoveryState::default();
    let a = NodeAddress::new("a", 1);
    let mut zones = NodeZones::new();
    zones.insert(a.clone(), ArcStr::from("z"));
    state.record_success(ClusterShards, &zones);
    state.record_failure(Hostname);
    assert_eq!(state.preferred_method(), Some(ClusterShards));
    assert_eq!(state.cached_zones(&[a.clone()]).get(&a), Some(&ArcStr::from("z")));
    state.record_failure(ClusterShards);
    assert_eq!(state.preferred_method(), None);
    assert_eq!(state.cached_zones(&[a.clone()]).get(&a), Some(&ArcStr::from("z")));
}

#[test]
fn node_sets_hold_each_node_once() {
    let mut set = NodeSet::default();
    assert!(set.insert(NodeAddress::new("a", 1)));
    assert!(!set.insert(NodeAddress::new("a", 1)));
    assert!(set.insert(NodeAddress::new("a", 2)));
    assert_eq!(set.nodes().len(), 2);
    assert!(set.contains(&NodeAddress::new("a", 2)));
    assert!(!set.contains(&NodeAddress::new("b", 1)));
}

#[test]
fn node_zones_keep_the_last_zone() {
    let mut zones = NodeZones::default();
    let a = NodeAddress::new("a", 1);
    zones.insert(a.clone(), ArcStr::from("x"));
    zones.insert(a.clone(), ArcStr::from("y"));
    assert_eq!(zones.get(&a), Some(&ArcStr::from("y")));
}

#[test]
fn values_with_a_text_give_it() {
    assert_eq!(value_to_string(&bulk("a")), Some("a".to_string()));
    assert_eq!(
        value_to_string(&Value::BulkString(vec![0xff, b'a'])),
        Some("\u{fffd}a".to_string())
    );
    assert_eq!(
        value_to_string(&Value::SimpleString("s".to_string())),
        Some("s".to_string())
    );
    let verbatim = Value::VerbatimString {
        format: VerbatimFormat::Text,
        text: "v".to_string(),
    };
    assert_eq!(value_to_string(&verbatim), Some("v".to_string()));
    assert_eq!(value_to_string(&Value::Okay), Some("OK".to_string()));
    assert_eq!(value_to_string(&Value::Int(1)), None);
    assert_eq!(value_to_string(&Value::Nil), None);
    assert_eq!(value_to_string(&Value::Other), None);
}

#[test]
fn names_are_compared_without_case_and_separators() {
    assert_eq!(normalize_metadata_key("Availability-Zone_1 é"), "availabilityzone1");
    assert_eq!(normalize_metadata_key("availabilityzone1"), "availabilityzone1");
    let value = Value::Pairs(vec![
        (Value::Int(1), Value::Int(0)),
        (bulk("TLS_Port"), Value::Int(2)),
        (bulk("tls-port"), Value::Int(3)),
    ]);
    assert!(matches!(map_get(&value, &["x", "tls port"]), Some(Value::Int(2))));
    assert!(map_get(&value, &["port"]).is_none());
}

#[test]
fn pairs_and_flat_lists_are_read_alike() {
    let list = Value::Array(vec![bulk("a"), Value::Int(1), bulk("b"), Value::Int(2), bulk("c")]);
    let pairs = Value::Pairs(vec![(bulk("a"), Value::Int(1)), (bulk("b"), Value::Int(2))]);
    for value in [&list, &pairs] {
        assert!(matches!(map_get(value, &["b"]), Some(Value::Int(2))));
        assert!(matches!(map_get(value, &["b", "a"]), Some(Value::Int(1))));
        assert!(map_get(value, &["c"]).is_none());
    }
    assert!(map_get(&Value::Nil, &["a"]).is_none());
}

#[test]
fn shard_nodes_have_their_zone_trimmed() {
    let node = Value::Pairs(vec![(bulk("Zone"), bulk(" \tz1\u{a0}"))]);
    assert_eq!(cluster_shards_node_zone(&node), Some("z1".to_string()));
    let blank = Value::Pairs(vec![(bulk("az"), bulk("  ")), (bulk("zone"), bulk("z"))]);
    assert_eq!(cluster_shards_node_zone(&blank), None);
    let number = Value::Pairs(vec![(bulk("az"), Value::Int(1)), (bulk("zone"), bulk("z"))]);
    assert_eq!(cluster_shards_node_zone(&number), None);
}

#[test]
fn shard_nodes_are_addressed_by_the_first_field_that_counts() {
    let node = Value::Pairs(vec![
        (bulk("ip"), bulk("10.0.0.1")),
        (bulk("endpoint"), bulk("?")),
        (bulk("hostname"), bulk(" h ")),
        (bulk("port"), Value::Int(70000)),
        (bulk("tls-port"), Value::Int(6380)),
    ]);
    assert_eq!(
        cluster_shards_node_address(&node, "me"),
        Some(NodeAddress::new("h", 6380))
    );
    let wildcard = Value::Pairs(vec![
        (bulk("addr"), bulk("0.0.0.0")),
        (bulk("port"), Value::Int(1)),
    ]);
    assert_eq!(
        cluster_shards_node_address(&wildcard, "me"),
        Some(NodeAddress::new("me", 1))
    );
    let no_host = Value::Pairs(vec![(bulk("port"), Value::Int(1))]);
    assert_eq!(cluster_shards_node_address(&no_host, "me"), None);
    let no_port = Value::Pairs(vec![(bulk("host"), bulk("h"))]);
    assert_eq!(cluster_shards_node_address(&no_port, "me"), None);
    let negative = Value::Pairs(vec![(bulk("host"), bulk("h")), (bulk("port"), Value::Int(-1))]);
    assert_eq!(cluster_shards_node_address(&negative, "me"), None);
}

#[test]
fn shards_without_nodes_tell_of_no_zone() {
    let view = Value::Array(vec![
        Value::Nil,
        Value::Pairs(vec![(bulk("nodes"), Value::Okay)]),
        Value::Pairs(vec![(bulk("slots"), Value::Array(vec![]))]),
    ]);
    let zones = parse_cluster_shards_availability_zones(&view, "me");
    assert_eq!(zones.get(&NodeAddress::new("me", 6379)), None);
    let zones = parse_cluster_shards_availability_zones(&Value::Nil, "me");
    assert_eq!(zones.get(&NodeAddress::new("me", 6379)), None);
}

#[test]
fn info_lines_are_read_whatever_ends_them() {
    let zone = Some(ArcStr::from("us-east-1b"));
    for info in [
        "a:b\naz: us-east-1b \nzone:x",
        "a:b\r\naz: us-east-1b \r\nzone:x",
        "  AZ :us-east-1b",
        "az:\r\nserver_availability_zone:us-east-1b\r\naz:other",
        "# az:no\naz\nx_az:no\naz:us-east-1b",
    ] {
        assert_eq!(parse_info_server_availability_zone(info), zone);
    }
    assert_eq!(parse_info_server_availability_zone(""), None);
    assert_eq!(parse_info_server_availability_zone("#az:x\nlaz:y"), None);
    assert_eq!(
        parse_info_server_availability_zone("az:a:b"),
        Some(ArcStr::from("a:b"))
    );
}

#[test]
fn zone_names_are_told_by_their_shape() {
    assert!(is_aws_availability_zone("us-east-1a"));
    assert!(is_aws_availability_zone("us-gov-west-1b"));
    assert!(!is_aws_availability_zone("us-east-1"));
    assert!(!is_aws_availability_zone("us-1a"));
    assert!(!is_aws_availability_zone("us-East-1a"));
    assert!(is_aws_availability_zone_id("use1-az12"));
    assert!(!is_aws_availability_zone_id("use1-az"));
    assert!(!is_aws_availability_zone_id("-az1"));
    assert!(!is_aws_availability_zone_id("use1-az1-x"));
    assert!(is_gcp_availability_zone("us-central1-a"));
    assert!(!is_gcp_availability_zone("us-central-a"));
    assert!(!is_gcp_availability_zone("us-central1-ab"));
    assert!(!is_gcp_availability_zone("us-central1-é"));
    assert!(digits_then_single_letter("12a"));
    assert!(!digits_then_single_letter("a"));
    assert!(!digits_then_single_letter("1"));
    assert!(!digits_then_single_letter("1ab"));
    assert!(!digits_then_single_letter(""));
    assert!(ends_with_digit("a1"));
    assert!(!ends_with_digit("1a"));
    assert!(!ends_with_digit(""));
}

#[test]
fn labels_hold_each_run_of_their_parts() {
    assert_eq!(
        candidate_zones_from_label("a--b-c-d-e"),
        vec![
            "a-b", "a-b-c", "a-b-c-d", "b-c", "b-c-d", "b-c-d-e", "c-d", "c-d-e", "d-e"
        ]
    );
    assert!(candidate_zones_from_label("a").is_empty());
    assert!(candidate_zones_from_label("").is_empty());
}

#[test]
fn zone_of_a_host_stands_in_one_of_its_labels() {
    let zone = parse_hostname_availability_zone("x.node-1-us-east-1a-y.z").unwrap();
    assert_eq!(zone, "us-east-1a");
    assert!(candidate_zones_from_label("node-1-us-east-1a-y").contains(&zone.to_string()));
    assert_eq!(parse_hostname_availability_zone("localhost"), None);
    assert_eq!(parse_hostname_availability_zone("us-east.1a"), None);
    assert_eq!(parse_hostname_availability_zone(""), None);
}

#[test]
fn white_space_is_that_of_unicode() {
    for code in 0..=0x10ffffu32 {
        if let Some(c) = char::from_u32(code) {
            assert_eq!(white_space(c), c.is_whitespace());
        }
    }
}

#[test]
fn trimming_and_splitting_follow_std() {
    for text in ["", " ", "a", " a b ", "\r\n\ta\u{3000}", "a,,b,", ","] {
        let chars = chars_of(text);
        assert_eq!(text_of(&trim(&chars)), text.trim());
        let trimmed = trim(&chars);
        assert_eq!(trim(&trimmed), trimmed);
        let parts: Vec<String> = split_at_each(&chars, ',').iter().map(|part| text_of(part)).collect();
        assert_eq!(parts, text.split(',').collect::<Vec<_>>());
        assert_eq!(parts.join(","), text);
        assert_eq!(find_first(&chars, ','), text.find(',').unwrap_or(text.chars().count()));
    }
    assert!(ends_with(&chars_of("abc"), &chars_of("bc")));
    assert!(!ends_with(&chars_of("c"), &chars_of("bc")));
    assert_eq!(text_of(&lower_alphanumerics(&chars_of("A-b_9É"))), "ab9");
}
