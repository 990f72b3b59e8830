use arcstr::ArcStr;
use redis_cluster::node_address::NodeAddress;
use redis_cluster::node_collections::NodeZones;
use redis_cluster::read_routing::{ClusterTopology, ReadCandidates, Replicas, Shard};
use redis_cluster::zonal_read_routing::ZonalReadRoutingStrategy;
use redis_cluster::zone_discovery::NodeAvailabilityZoneDiscoveryMethod;

fn node(host: &str, port: u16) -> NodeAddress {
    NodeAddress::from_parts(host.into(), port)
}

fn zones(entries: Vec<(NodeAddress, ArcStr)>) -> NodeZones {
    let mut zones = NodeZones::new();
    for (node, zone) in entries {
        zones.insert(node, zone);
    }
    zones
}

fn topology() -> ClusterTopology {
    ClusterTopology::from_shards_with_node_availability_zones(
        vec![
            Shard::new(
                vec![(0, 1000)],
                node("primary1", 6379),
                vec![
                    node("replica1a", 6379),
                    node("replica1b", 6379),
                    node("replica1c", 6379),
                ],
            ),
            Shard::new(
                vec![(1001, 2000)],
                node("primary2", 6379),
                vec![node("replica2a", 6379), node("replica2b", 6379)],
            ),
        ],
        zones(vec![
            (node("replica1a", 6379), "us-east-1b".into()),
            (node("replica1b", 6379), "us-east-1c".into()),
            (node("replica1c", 6379), "us-east-1b".into()),
            (node("replica2a", 6379), "us-east-1c".into()),
            (node("replica2b", 6379), "us-east-1d".into()),
        ]),
    )
}

#[test]
fn routes_to_local_replicas_first() {
    let mut strategy = ZonalReadRoutingStrategy::new("us-east-1b");
    strategy.on_topology_changed(topology());

    let replicas = [
        node("replica1a", 6379),
        node("replica1b", 6379),
        node("replica1c", 6379),
    ];
    let candidates = ReadCandidates::replicas_only(1, Replicas::new(&replicas).unwrap());

    assert_eq!(strategy.route_read(&candidates), &replicas[0]);
    assert_eq!(strategy.route_read(&candidates), &replicas[2]);
    assert_eq!(strategy.route_read(&candidates), &replicas[0]);
}

#[test]
fn falls_back_to_all_replicas_when_shard_has_no_local_replicas() {
    let mut strategy = ZonalReadRoutingStrategy::new("us-east-1b");
    strategy.on_topology_changed(topology());

    let replicas = [node("replica2a", 6379), node("replica2b", 6379)];
    let candidates = ReadCandidates::replicas_only(1500, Replicas::new(&replicas).unwrap());

    assert_eq!(strategy.route_read(&candidates), &replicas[0]);
    assert_eq!(strategy.route_read(&candidates), &replicas[1]);
    assert_eq!(strategy.route_read(&candidates), &replicas[0]);
}

#[test]
fn eager_connections_include_primaries_local_replicas_and_remote_fallbacks() {
    let strategy = ZonalReadRoutingStrategy::new("us-east-1b");
    let nodes = strategy.eager_connection_nodes(&topology()).unwrap();

    assert!(nodes.contains(&node("primary1", 6379)));
    assert!(nodes.contains(&node("primary2", 6379)));
    assert!(nodes.contains(&node("replica1a", 6379)));
    assert!(nodes.contains(&node("replica1c", 6379)));
    assert!(!nodes.contains(&node("replica1b", 6379)));
    assert!(nodes.contains(&node("replica2a", 6379)));
    assert!(nodes.contains(&node("replica2b", 6379)));
}

#[test]
fn cloned_strategies_share_discovered_zones_but_not_slot_counters() {
    let mut strategy = ZonalReadRoutingStrategy::shared("us-east-1b");
    let mut clone = strategy.clone();
    let cached_node = node("replica1a", 6379);
    let mut zones = NodeZones::new();
    zones.insert(cached_node.clone(), ArcStr::from("us-east-1b"));

    strategy
        .node_availability_zone_discovery_cache()
        .unwrap()
        .record_success(NodeAvailabilityZoneDiscoveryMethod::ClusterShards, &zones);

    assert_eq!(
        clone
            .node_availability_zone_discovery_cache()
            .unwrap()
            .cached_zones(std::slice::from_ref(&cached_node))
            .get(&cached_node),
        Some(&ArcStr::from("us-east-1b"))
    );

    strategy.on_topology_changed(topology());
    clone.on_topology_changed(topology());
    let replicas = [
        node("replica1a", 6379),
        node("replica1b", 6379),
        node("replica1c", 6379),
    ];
    let candidates = ReadCandidates::replicas_only(1, Replicas::new(&replicas).unwrap());

    assert_eq!(strategy.route_read(&candidates), &replicas[0]);
    assert_eq!(strategy.route_read(&candidates), &replicas[2]);
    assert_eq!(clone.route_read(&candidates), &replicas[0]);
}

#[test]
fn unknown_slots_go_to_the_first_replica() {
    let mut strategy = ZonalReadRoutingStrategy::new("us-east-1b");
    let replicas = [node("a", 1), node("b", 1)];
    let candidates = ReadCandidates::replicas_only(7, Replicas::new(&replicas).unwrap());
    assert_eq!(strategy.route_read(&candidates), &replicas[0]);
    assert_eq!(strategy.route_read(&candidates), &replicas[0]);
    strategy.on_topology_changed(topology());
    let beyond = ReadCandidates::replicas_only(2001, Replicas::new(&replicas).unwrap());
    assert_eq!(strategy.route_read(&beyond), &replicas[0]);
    assert_eq!(strategy.route_read(&beyond), &replicas[0]);
}

#[test]
fn a_shard_has_one_counter_for_all_its_ranges() {
    let mut strategy = ZonalReadRoutingStrategy::new("z");
    strategy.on_topology_changed(ClusterTopology::from_shards_with_node_availability_zones(
        vec![Shard::new(
            vec![(0, 9), (20, 29)],
            node("p", 1),
            vec![node("r1", 1), node("r2", 1), node("r3", 1)],
        )],
        NodeZones::new(),
    ));
    let replicas = [node("r1", 1), node("r2", 1), node("r3", 1)];
    let primary = node("p", 1);
    let low = ReadCandidates::any_node(5, &primary, Replicas::new(&replicas).unwrap());
    let high = ReadCandidates::replicas_only(25, Replicas::new(&replicas).unwrap());
    assert_eq!(strategy.route_read(&low), &replicas[0]);
    assert_eq!(strategy.route_read(&high), &replicas[1]);
    assert_eq!(strategy.route_read(&low), &replicas[2]);
    assert_eq!(strategy.route_read(&high), &replicas[0]);
    assert_eq!((low.slot(), high.slot()), (5, 25));
}

#[test]
fn routed_nodes_are_among_the_early_connections() {
    let mut strategy = ZonalReadRoutingStrategy::new("us-east-1c");
    let nodes = strategy.eager_connection_nodes(&topology()).unwrap();
    strategy.on_topology_changed(topology());
    let shards = topology();
    for (shard, slot) in shards.shards().iter().zip([500, 1500]) {
        let candidates = ReadCandidates::replicas_only(slot, Replicas::new(shard.replicas()).unwrap());
        for _ in 0..4 {
            assert!(nodes.contains(strategy.route_read(&candidates)));
        }
    }
    assert!(!nodes.contains(&node("replica1a", 6379)));
    assert!(!nodes.contains(&node("replica2b", 6379)));
}

#[test]
fn a_new_topology_starts_the_counters_again() {
    let mut strategy = ZonalReadRoutingStrategy::new("us-east-1b");
    strategy.on_topology_changed(topology());
    let replicas = [node("replica1a", 6379), node("replica1c", 6379)];
    let candidates = ReadCandidates::replicas_only(1, Replicas::new(&replicas).unwrap());
    assert_eq!(strategy.route_read(&candidates), &replicas[0]);
    strategy.on_topology_changed(topology());
    assert_eq!(strategy.route_read(&candidates), &replicas[0]);
    assert_eq!(strategy.availability_zone(), "us-east-1b");
}

#[test]
fn created_strategies_are_fresh() {
    let mut strategy = ZonalReadRoutingStrategy::new("us-east-1b");
    strategy.on_topology_changed(topology());
    let mut created = strategy.create_strategy();
    assert_eq!(created.availability_zone(), "us-east-1b");
    let replicas = [node("replica1b", 6379), node("replica1a", 6379)];
    let candidates = ReadCandidates::replicas_only(1, Replicas::new(&replicas).unwrap());
    assert_eq!(created.route_read(&candidates), &replicas[0]);
    assert_eq!(strategy.route_read(&candidates), &replicas[1]);
}

#[test]
fn replicas_are_never_none() {
    assert!(Replicas::new(&[]).is_none());
    let nodes = [node("a", 1), node("b", 1)];
    let replicas = Replicas::new(&nodes).unwrap();
    assert_eq!(replicas.len(), 2);
    assert_eq!(replicas.first(), &nodes[0]);
    assert_eq!(replicas.get(1), Some(&nodes[1]));
    assert_eq!(replicas.get(2), None);
}
