//! What is known about the availability zones of a cluster's nodes, and how it was found.

use vstd::prelude::*;
use vstd::rwlock::{RwLock, RwLockPredicate};

use crate::node_address::{NodeAddress, NodeKey};
use crate::node_collections::{keys_of, lemma_keys_of_take, NodeZones};

verus! {

/// A way to find the zones of nodes.
#[derive(Debug, Clone, Copy, PartialEq, Eq, Structural)]
pub enum NodeAvailabilityZoneDiscoveryMethod {
    /// From a reply to `CLUSTER SHARDS`.
    ClusterShards,
    /// From a reply to `INFO SERVER`.
    InfoServer,
    /// From the hosts' names.
    Hostname,
}

impl NodeAvailabilityZoneDiscoveryMethod {
    /// Every way, in the order in which they are tried.
    pub const ALL: [NodeAvailabilityZoneDiscoveryMethod; 3] = [
        NodeAvailabilityZoneDiscoveryMethod::ClusterShards,
        NodeAvailabilityZoneDiscoveryMethod::Hostname,
        NodeAvailabilityZoneDiscoveryMethod::InfoServer,
    ];
}

/// How many of the nodes have a known zone.
#[derive(Debug, Clone, Copy, PartialEq, Eq, Structural)]
pub enum NodeAvailabilityZoneCoverage {
    /// None of them.
    Missing,
    /// Some of them.
    Partial,
    /// All of them.
    Complete,
}

impl NodeAvailabilityZoneCoverage {
    /// The coverage when the zones of `known_nodes` out of `total_nodes` are known.
    pub fn from_counts(known_nodes: usize, total_nodes: usize) -> (coverage: Self)
        ensures
            coverage is Missing <==> known_nodes == 0,
            coverage is Partial <==> 0 < known_nodes < total_nodes,
            coverage is Complete <==> 0 < known_nodes && known_nodes >= total_nodes,
    {
        if known_nodes == 0 {
            Self::Missing
        } else if known_nodes >= total_nodes {
            Self::Complete
        } else {
            Self::Partial
        }
    }
}

/// Whether `coverage` is worth a line in the log after `previous`: a change is, and so is
/// a first result that leaves a zone unknown.
pub open spec fn is_news(
    previous: Option<NodeAvailabilityZoneCoverage>,
    coverage: NodeAvailabilityZoneCoverage,
) -> bool {
    match previous {
        None => coverage !is Complete,
        Some(previous) => previous != coverage,
    }
}

/// Which way to find zones has worked, and how much it has found.
#[derive(Debug)]
pub struct NodeAvailabilityZoneDiscovery {
    preferred_method: Option<NodeAvailabilityZoneDiscoveryMethod>,
    last_coverage: Option<NodeAvailabilityZoneCoverage>,
}

impl NodeAvailabilityZoneDiscovery {
    /// The way that worked last, unless it has failed since.
    pub closed spec fn preferred(&self) -> Option<NodeAvailabilityZoneDiscoveryMethod> {
        self.preferred_method
    }

    /// The coverage seen last.
    pub closed spec fn last(&self) -> Option<NodeAvailabilityZoneCoverage> {
        self.last_coverage
    }

    /// The way that worked last, unless it has failed since.
    pub fn preferred_method(&self) -> (method: Option<NodeAvailabilityZoneDiscoveryMethod>)
        ensures
            method == self.preferred(),
    {
        self.preferred_method
    }

    /// Takes note that `method` worked.
    pub fn record_success(&mut self, method: NodeAvailabilityZoneDiscoveryMethod)
        ensures
            final(self).preferred() == Some(method),
            final(self).last() == old(self).last(),
    {
        self.preferred_method = Some(method);
    }

    /// Takes note that `method` failed: it is preferred no longer.
    pub fn record_failure(&mut self, method: NodeAvailabilityZoneDiscoveryMethod)
        ensures
            final(self).preferred() == if old(self).preferred() == Some(method) {
                None
            } else {
                old(self).preferred()
            },
            final(self).last() == old(self).last(),
    {
        if let Some(preferred) = self.preferred_method {
            if preferred == method {
                self.preferred_method = None;
            }
        }
    }

    /// Takes note of `coverage`, and tells whether it is worth a line in the log.
    pub fn should_log_coverage(&mut self, coverage: NodeAvailabilityZoneCoverage) -> (log: bool)
        ensures
            log == is_news(old(self).last(), coverage),
            final(self).last() == Some(coverage),
            final(self).preferred() == old(self).preferred(),
    {
        let previous = self.last_coverage;
        self.last_coverage = Some(coverage);
        match previous {
            None => coverage != NodeAvailabilityZoneCoverage::Complete,
            Some(previous) => previous != coverage,
        }
    }
}

impl Default for NodeAvailabilityZoneDiscovery {
    fn default() -> (discovery: Self)
        ensures
            discovery.preferred() is None,
            discovery.last() is None,
    {
        NodeAvailabilityZoneDiscovery { preferred_method: None, last_coverage: None }
    }
}

/// The state of the search for zones, with the zones found so far.
#[derive(Debug)]
pub struct DiscoveryRecords {
    discovery: NodeAvailabilityZoneDiscovery,
    zones: NodeZones,
}

impl DiscoveryRecords {
    /// Each node has at most one zone.
    pub closed spec fn wf(&self) -> bool {
        self.zones.wf()
    }

    /// The way that worked last, unless it has failed since.
    pub closed spec fn preferred(&self) -> Option<NodeAvailabilityZoneDiscoveryMethod> {
        self.discovery.preferred()
    }

    /// The coverage seen last.
    pub closed spec fn last(&self) -> Option<NodeAvailabilityZoneCoverage> {
        self.discovery.last()
    }

    /// The zones found so far.
    pub closed spec fn zones(&self) -> Map<NodeKey, Seq<char>> {
        self.zones@
    }

    /// The way that worked last, unless it has failed since.
    pub fn preferred_method(&self) -> (method: Option<NodeAvailabilityZoneDiscoveryMethod>)
        ensures
            method == self.preferred(),
    {
        self.discovery.preferred_method()
    }

    /// Takes note that `method` found `zones`.
    pub fn record_success(
        &mut self,
        method: NodeAvailabilityZoneDiscoveryMethod,
        zones: &NodeZones,
    )
        requires
            old(self).wf(),
            zones.wf(),
        ensures
            final(self).wf(),
            final(self).preferred() == Some(method),
            final(self).last() == old(self).last(),
            final(self).zones() == old(self).zones().union_prefer_right(zones@),
    {
        self.discovery.record_success(method);
        self.zones.merge(zones);
    }

    /// Takes note that `method` failed. What was found before stays.
    pub fn record_failure(&mut self, method: NodeAvailabilityZoneDiscoveryMethod)
        requires
            old(self).wf(),
        ensures
            final(self).wf(),
            final(self).preferred() == if old(self).preferred() == Some(method) {
                None
            } else {
                old(self).preferred()
            },
            final(self).last() == old(self).last(),
            final(self).zones() == old(self).zones(),
    {
        self.discovery.record_failure(method);
    }

    /// Takes note of `coverage`, and tells whether it is worth a line in the log.
    pub fn should_log_coverage(&mut self, coverage: NodeAvailabilityZoneCoverage) -> (log: bool)
        requires
            old(self).wf(),
        ensures
            final(self).wf(),
            log == is_news(old(self).last(), coverage),
            final(self).last() == Some(coverage),
            final(self).preferred() == old(self).preferred(),
            final(self).zones() == old(self).zones(),
    {
        self.discovery.should_log_coverage(coverage)
    }

    /// The known zones of `nodes`.
    pub fn cached_zones(&self, nodes: &[NodeAddress]) -> (zones: NodeZones)
        requires
            self.wf(),
        ensures
            zones.wf(),
            zones@ == self.zones().restrict(keys_of(nodes@)),
    {
        let mut zones = NodeZones::new();
        assert(zones@ =~= self.zones().restrict(keys_of(nodes@.take(0))));
        for i in 0..nodes.len()
            invariant
                self.wf(),
                zones.wf(),
                zones@ == self.zones().restrict(keys_of(nodes@.take(i as int))),
        {
            proof {
                lemma_keys_of_take(nodes@, i as int);
            }
            if let Some(zone) = self.zones.get(&nodes[i]) {
                zones.insert(nodes[i].clone(), zone.clone());
            }
            assert(zones@ =~= self.zones().restrict(keys_of(nodes@.take(i + 1))));
        }
        assert(nodes@.take(nodes@.len() as int) =~= nodes@);
        zones
    }
}

impl Default for DiscoveryRecords {
    fn default() -> (records: Self)
        ensures
            records.wf(),
            records.preferred() is None,
            records.last() is None,
            records.zones() == Map::<NodeKey, Seq<char>>::empty(),
    {
        DiscoveryRecords {
            discovery: NodeAvailabilityZoneDiscovery::default(),
            zones: NodeZones::new(),
        }
    }
}

/// What always holds of shared records.
pub struct ValidRecords;

impl RwLockPredicate<DiscoveryRecords> for ValidRecords {
    open spec fn inv(self, records: DiscoveryRecords) -> bool {
        records.wf()
    }
}

/// Records that several holders share.
///
/// Each call has the records to itself for as long as it lasts, and does with them what the
/// method of the same name of [`DiscoveryRecords`] does. Between two calls of one holder
/// any other may have changed them, so that no call says what it finds there.
pub struct NodeAvailabilityZoneDiscoveryState {
    records: RwLock<DiscoveryRecords, ValidRecords>,
}

impl NodeAvailabilityZoneDiscoveryState {
    /// The way that worked last, unless it has failed since.
    pub fn preferred_method(&self) -> (method: Option<NodeAvailabilityZoneDiscoveryMethod>)
        ensures
            exists|records: DiscoveryRecords| records.wf() && method == #[trigger] records.preferred(),
    {
        let handle = self.records.acquire_read();
        let method = handle.borrow().preferred_method();
        handle.release_read();
        method
    }

    /// Takes note that `method` found `zones`.
    pub fn record_success(&self, method: NodeAvailabilityZoneDiscoveryMethod, zones: &NodeZones)
        requires
            zones.wf(),
    {
        let (mut records, handle) = self.records.acquire_write();
        records.record_success(method, zones);
        handle.release_write(records);
    }

    /// Takes note that `method` failed.
    pub fn record_failure(&self, method: NodeAvailabilityZoneDiscoveryMethod) {
        let (mut records, handle) = self.records.acquire_write();
        records.record_failure(method);
        handle.release_write(records);
    }

    /// Takes note of `coverage`, and tells whether it is worth a line in the log.
    pub fn should_log_coverage(&self, coverage: NodeAvailabilityZoneCoverage) -> (log: bool)
        ensures
            exists|records: DiscoveryRecords|
                records.wf() && log == is_news(#[trigger] records.last(), coverage),
    {
        let (mut records, handle) = self.records.acquire_write();
        let ghost before = records;
        let log = records.should_log_coverage(coverage);
        handle.release_write(records);
        assert(before.wf() && log == is_news(before.last(), coverage));
        log
    }

    /// The known zones of `nodes`.
    pub fn cached_zones(&self, nodes: &[NodeAddress]) -> (zones: NodeZones)
        ensures
            zones.wf(),
            exists|records: DiscoveryRecords|
                records.wf() && zones@ == (#[trigger] records.zones()).restrict(keys_of(nodes@)),
    {
        let handle = self.records.acquire_read();
        let zones = handle.borrow().cached_zones(nodes);
        handle.release_read();
        zones
    }
}

impl Default for NodeAvailabilityZoneDiscoveryState {
    fn default() -> (state: Self) {
        NodeAvailabilityZoneDiscoveryState {
            records: RwLock::new(DiscoveryRecords::default(), Ghost(ValidRecords)),
        }
    }
}

} // verus!
