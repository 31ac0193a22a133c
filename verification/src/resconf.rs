//! The resolver to ask, taken from a resolver configuration.

use resolv_conf::{Config, ScopedIp};
use vstd::prelude::*;

verus! {

/// The address of a name server, by its bytes.
#[derive(Debug, Clone, Copy, PartialEq, Eq)]
pub enum NameServer {
    V4([u8; 4]),
    V6([u8; 16]),
}

/// The name servers that `resolv_conf::Config::parse` finds in the text of a
/// resolver configuration, in their order; nothing where it refuses the text.
pub uninterp spec fn configured_nameservers(conf: Seq<u8>) -> Option<Seq<NameServer>>;

/// `resolv_conf::Config::parse`, of whose outcome the name servers are kept,
/// each as its bytes, a scope dropped. Nothing is claimed of them but that
/// they depend on the text alone.
#[verifier::external_body]
fn parse_nameservers(conf: &[u8]) -> (r: Option<Vec<NameServer>>)
    ensures
        match r {
            Some(servers) => configured_nameservers(conf@) == Some(servers@),
            None => configured_nameservers(conf@) is None,
        },
{
    match Config::parse(conf) {
        Ok(config) => Some(
            config.nameservers.iter().map(
                |ip|
                    match ip {
                        ScopedIp::V4(addr) => NameServer::V4(addr.octets()),
                        ScopedIp::V6(addr, _) => NameServer::V6(addr.octets()),
                    },
            ).collect(),
        ),
        Err(_) => None,
    }
}

/// The resolver among name servers: the first of them, where it has an
/// IPv4 address.
pub open spec fn first_v4(servers: Seq<NameServer>) -> Option<[u8; 4]> {
    if servers.len() > 0 {
        match servers[0] {
            NameServer::V4(addr) => Some(addr),
            NameServer::V6(_) => None,
        }
    } else {
        None
    }
}

/// Picks the resolver among the name servers of a configuration.
pub fn pick_resolver(servers: &Vec<NameServer>) -> (r: Option<[u8; 4]>)
    ensures
        r == first_v4(servers@),
{
    if servers.len() == 0 {
        return None;
    }
    match servers[0] {
        NameServer::V4(addr) => Some(addr),
        NameServer::V6(_) => None,
    }
}

/// The first IPv4 address from index `from` on, if there is one.
pub open spec fn first_v4_from(servers: Seq<NameServer>, from: int) -> Option<[u8; 4]>
    decreases servers.len() - from,
{
    if from < 0 || from >= servers.len() {
        None
    } else {
        match servers[from] {
            NameServer::V4(addr) => Some(addr),
            NameServer::V6(_) => first_v4_from(servers, from + 1),
        }
    }
}

/// Picks the resolver among the DNS servers of all network adapters: the
/// first of them that has an IPv4 address.
pub fn first_v4_among(servers: &Vec<NameServer>) -> (r: Option<[u8; 4]>)
    ensures
        r == first_v4_from(servers@, 0),
{
    let mut i: usize = 0;
    while i < servers.len()
        invariant
            i <= servers.len(),
            first_v4_from(servers@, 0) == first_v4_from(servers@, i as int),
        decreases servers.len() - i,
    {
        match servers[i] {
            NameServer::V4(addr) => {
                return Some(addr);
            },
            NameServer::V6(_) => {},
        }
        i = i + 1;
    }
    None
}

/// The resolver that the text of a resolver configuration names: its first
/// name server, where the text parses and that server has an IPv4 address.
pub fn get_resolver(conf: &[u8]) -> (r: Option<[u8; 4]>)
    ensures
        r == match configured_nameservers(conf@) {
            Some(servers) => first_v4(servers),
            None => None,
        },
{
    match parse_nameservers(conf) {
        Some(servers) => pick_resolver(&servers),
        None => None,
    }
}

} // verus!
