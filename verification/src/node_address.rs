//! Addresses of cluster nodes, and sets and maps of them.

use arcstr::ArcStr;
use vstd::prelude::*;

use crate::arc_str::{arc_from, arc_text};
use crate::slot_range_map::{comparable_values, equal_values, equivalence};
use crate::text::{decimal, push_decimal, same_text};

verus! {

/// What a node's address means: its host and its port.
pub type NodeKey = (Seq<char>, u16);

/// The host and port of a node of the cluster.
#[derive(Debug)]
pub struct NodeAddress {
    host: ArcStr,
    port: u16,
}

impl View for NodeAddress {
    type V = NodeKey;

    closed spec fn view(&self) -> NodeKey {
        (arc_text(self.host), self.port)
    }
}

/// An address written as `host:port`.
pub open spec fn host_and_port(address: NodeKey) -> Seq<char> {
    address.0 + seq![':'] + decimal(address.1 as nat)
}

impl NodeAddress {
    /// The string that holds the host.
    pub closed spec fn shared_host(&self) -> ArcStr {
        self.host
    }

    /// The host's string holds the host.
    pub proof fn lemma_shared_host(&self)
        ensures
            arc_text(self.shared_host()) == self@.0,
    {
    }

    /// The address of `port` on `host`.
    pub fn new(host: &str, port: u16) -> (address: Self)
        ensures
            address@ == (host@, port),
    {
        NodeAddress { host: arc_from(host), port }
    }

    /// The address of `port` on `host`, whose string it keeps.
    pub fn from_parts(host: ArcStr, port: u16) -> (address: Self)
        ensures
            address@ == (arc_text(host), port),
            address.shared_host() == host,
    {
        NodeAddress { host, port }
    }

    /// The host.
    pub fn host(&self) -> (host: &str)
        ensures
            host@ == self@.0,
    {
        self.host.as_str()
    }

    /// The port.
    pub fn port(&self) -> (port: u16)
        ensures
            port == self@.1,
    {
        self.port
    }

    /// The address as `host:port`.
    pub fn to_text(&self) -> (text: String)
        ensures
            text@ == host_and_port(self@),
    {
        let mut text = String::new();
        text.append(self.host.as_str());
        text.push(':');
        push_decimal(&mut text, self.port as u64);
        assert(text@ =~= host_and_port(self@));
        text
    }
}

impl Clone for NodeAddress {
    fn clone(&self) -> (address: Self)
        ensures
            address == *self,
    {
        NodeAddress { host: self.host.clone(), port: self.port }
    }
}

impl PartialEq for NodeAddress {
    fn eq(&self, other: &Self) -> (same: bool) {
        self.port == other.port && same_text(self.host.as_str(), other.host.as_str())
    }
}

impl Eq for NodeAddress {

}

impl vstd::std_specs::cmp::PartialEqSpecImpl for NodeAddress {
    open spec fn obeys_eq_spec() -> bool {
        true
    }

    open spec fn eq_spec(&self, other: &Self) -> bool {
        self@ == other@
    }
}

/// Addresses compare as their hosts and ports do, which a clone keeps: a map of slots whose
/// values are addresses is read back up to that comparison.
pub proof fn law_addresses_are_comparable()
    ensures
        comparable_values::<NodeAddress>(),
{
    let equal = equal_values::<NodeAddress>();
    assert forall|a: NodeAddress| #[trigger] equal(a, a) by {}
    assert(equivalence(equal));
}

impl<'a> PartialEq<&'a str> for NodeAddress {
    fn eq(&self, other: &&'a str) -> (same: bool) {
        let text = self.to_text();
        same_text(text.as_str(), *other)
    }
}

impl<'a> vstd::std_specs::cmp::PartialEqSpecImpl<&'a str> for NodeAddress {
    open spec fn obeys_eq_spec() -> bool {
        true
    }

    open spec fn eq_spec(&self, other: &&'a str) -> bool {
        host_and_port(self@) == other@
    }
}

} // verus!
