//! Trusted networks of the security gateway: which configured values are
//! valid, and whether a client address is trusted. Addresses and networks
//! are parsed and compared by the `ipnet` crate.
use crate::text::{chars_of, string_of};
use vstd::prelude::*;

verus! {

/// `s` parses as an IP address (v4 or v6).
pub uninterp spec fn ip_text(s: Seq<char>) -> bool;

/// `s` parses as an `ipnet::IpNet` (an address with a prefix length).
pub uninterp spec fn net_text(s: Seq<char>) -> bool;

/// Both texts parse as IP addresses, and the addresses are equal.
pub uninterp spec fn same_ip(a: Seq<char>, b: Seq<char>) -> bool;

/// `net` parses as an `ipnet::IpNet`, `ip` as an address, and the network
/// contains the address (`IpNet::contains`).
pub uninterp spec fn net_holds(net: Seq<char>, ip: Seq<char>) -> bool;

/// Parse an address: the text is read as the address type that
/// `ipnet::IpNet::new` takes.
#[verifier::external_body]
pub(crate) fn parses_ip(s: &str) -> (r: bool)
    ensures
        r == ip_text(s@),
{
    s.parse().map(|a| ipnet::IpNet::new(a, 0)).is_ok()
}

/// `s.parse::<ipnet::IpNet>()` succeeds.
#[verifier::external_body]
fn parses_net(s: &str) -> (r: bool)
    ensures
        r == net_text(s@),
{
    s.parse::<ipnet::IpNet>().is_ok()
}

/// Parse both texts as addresses and compare them.
#[verifier::external_body]
fn equal_ips(a: &str, b: &str) -> (r: bool)
    ensures
        r == same_ip(a@, b@),
{
    let host = |t: &str| t.parse().ok().and_then(|x| ipnet::IpNet::new(x, 0).ok()).map(|n| n.addr());
    matches!((host(a), host(b)), (Some(x), Some(y)) if x == y)
}

/// Parse the network and the address, and ask the network whether it
/// contains the address.
#[verifier::external_body]
fn net_contains(net: &str, ip: &str) -> (r: bool)
    ensures
        r == net_holds(net@, ip@),
{
    let addr = ip.parse().ok().and_then(|x| ipnet::IpNet::new(x, 0).ok()).map(|n| n.addr());
    match (net.parse::<ipnet::IpNet>(), addr) {
        (Ok(n), Some(x)) => n.contains(&x),
        _ => false,
    }
}

/// A configured value is an address or a network.
pub open spec fn valid_network(v: Seq<char>) -> bool {
    ip_text(v) || net_text(v)
}

/// Every trusted value must be an IP address or a CIDR network; otherwise
/// the first one that is neither is named.
pub fn validate_networks(values: &[String]) -> (r: Result<(), String>)
    ensures
        r is Ok <==> forall|k: int| 0 <= k < values@.len() ==> valid_network(#[trigger] values@[k]@),
        r matches Err(e) ==> exists|k: int|
            0 <= k < values@.len() && !valid_network(#[trigger] values@[k]@) && (forall|j: int|
                0 <= j < k ==> valid_network(#[trigger] values@[j]@)) && e@
                == "Invalid trusted IP or CIDR: "@ + values@[k]@,
{
    let mut i: usize = 0;
    while i < values.len()
        invariant
            i <= values.len(),
            forall|j: int| 0 <= j < i ==> valid_network(#[trigger] values@[j]@),
        decreases values.len() - i,
    {
        if !parses_ip(values[i].as_str()) && !parses_net(values[i].as_str()) {
            let mut msg = chars_of("Invalid trusted IP or CIDR: ");
            let mut v = chars_of(values[i].as_str());
            msg.append(&mut v);
            return Err(string_of(&msg));
        }
        i = i + 1;
    }
    Ok(())
}

/// The value trusts the address: it is that address, or a network holding
/// it.
pub open spec fn trusts(value: Seq<char>, ip: Seq<char>) -> bool {
    same_ip(value, ip) || net_holds(value, ip)
}

/// A client is trusted when it is a loopback address, or when a configured
/// value is its address or a network that contains it.
pub fn is_trusted(ip: &str, loopback: bool, networks: &[String]) -> (r: bool)
    ensures
        r == (loopback || exists|k: int| 0 <= k < networks@.len() && trusts(#[trigger] networks@[k]@, ip@)),
{
    if loopback {
        return true;
    }
    let mut i: usize = 0;
    while i < networks.len()
        invariant
            i <= networks.len(),
            forall|j: int| 0 <= j < i ==> !trusts(#[trigger] networks@[j]@, ip@),
        decreases networks.len() - i,
    {
        if equal_ips(networks[i].as_str(), ip) || net_contains(networks[i].as_str(), ip) {
            assert(trusts(networks@[i as int]@, ip@));
            return true;
        }
        i = i + 1;
    }
    false
}

} // verus!
