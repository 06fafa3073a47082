//! Network addresses, and the choices that the client makes between them.

use vstd::prelude::*;
use crate::client_laws::first_usable_address_is_picked;

verus! {

/// An IP address, as a number.
#[derive(Clone, Copy, Debug, PartialEq, Eq, Structural)]
pub enum IpAddress {
    V4(u32),
    V6(u128),
}

/// An IP address with a port, and with what else belongs to an IPv6 socket address.
#[derive(Clone, Copy, Debug, PartialEq, Eq, Structural)]
pub enum Endpoint {
    V4 { ip: u32, port: u16 },
    V6 { ip6: u128, port: u16, flowinfo: u32, scope_id: u32 },
}

impl Endpoint {
    /// Whether the address is an IPv4 address.
    pub fn is_ipv4(&self) -> (answer: bool)
        ensures
            answer == (self is V4),
    {
        match self {
            Endpoint::V4 { .. } => true,
            Endpoint::V6 { .. } => false,
        }
    }

    /// Whether the address is an IPv6 address.
    pub fn is_ipv6(&self) -> (answer: bool)
        ensures
            answer == (self is V6),
    {
        match self {
            Endpoint::V4 { .. } => false,
            Endpoint::V6 { .. } => true,
        }
    }
}

/// The address may be used.
pub open spec fn is_eligible(address: Endpoint, ipv4_only: bool) -> bool {
    ipv4_only ==> address is V4
}

/// The first of the addresses that may be used.
pub open spec fn first_eligible(addresses: Seq<Endpoint>, ipv4_only: bool) -> Option<Endpoint>
    decreases addresses.len(),
{
    if addresses.len() == 0 {
        None
    } else if is_eligible(addresses[0], ipv4_only) {
        Some(addresses[0])
    } else {
        first_eligible(addresses.drop_first(), ipv4_only)
    }
}

/// The first of the addresses that may be used.
fn pick(addresses: &Vec<Endpoint>, ipv4_only: bool) -> (address: Option<Endpoint>)
    ensures
        address == first_eligible(addresses@, ipv4_only),
        match address {
            Some(address) => exists|i: int|
                0 <= i < addresses@.len() && #[trigger] addresses@[i] == address && (ipv4_only
                    ==> address is V4) && forall|j: int|
                    0 <= j < i ==> ipv4_only && #[trigger] addresses@[j] is V6,
            None => forall|i: int|
                0 <= i < addresses@.len() ==> ipv4_only && #[trigger] addresses@[i] is V6,
        },
{
    let mut i: usize = 0;
    assert(addresses@.skip(0) == addresses@);
    while i < addresses.len()
        invariant
            i <= addresses@.len(),
            first_eligible(addresses@.skip(i as int), ipv4_only) == first_eligible(
                addresses@,
                ipv4_only,
            ),
        decreases addresses@.len() - i,
    {
        let address = addresses[i];
        if !ipv4_only || address.is_ipv4() {
            proof {
                first_usable_address_is_picked(addresses@, ipv4_only);
            }
            return Some(address);
        }
        assert(addresses@.skip(i as int).drop_first() == addresses@.skip(i + 1));
        i += 1;
    }
    proof {
        first_usable_address_is_picked(addresses@, ipv4_only);
    }
    None
}

/// Picks the address of the remote host from what a lookup of its name gave: the first that may
/// be used, or none if the lookup failed.
pub fn resolve_remote(addresses: Option<&Vec<Endpoint>>, ipv4_only: bool) -> (address: Option<Endpoint>)
    ensures
        address == (match addresses {
            Some(addresses) => first_eligible(addresses@, ipv4_only),
            None => None,
        }),
        match address {
            Some(address) => addresses is Some && exists|i: int|
                0 <= i < addresses->0@.len() && #[trigger] addresses->0@[i] == address && (ipv4_only
                    ==> address is V4) && forall|j: int|
                    0 <= j < i ==> ipv4_only && #[trigger] addresses->0@[j] is V6,
            None => addresses is None || forall|i: int|
                0 <= i < addresses->0@.len() ==> ipv4_only && #[trigger] addresses->0@[i] is V6,
        },
{
    match addresses {
        Some(addresses) => pick(addresses, ipv4_only),
        None => None,
    }
}

/// The address that takes the place of the current one, if a lookup gave another.
pub open spec fn replacement(current: Endpoint, resolved: Option<Endpoint>) -> Option<Endpoint> {
    if resolved is Some && resolved->0 != current {
        resolved
    } else {
        None
    }
}

/// Returns the address that takes the place of the current one, if a lookup gave another.
pub fn address_change(current: Endpoint, resolved: Option<Endpoint>) -> (change: Option<Endpoint>)
    ensures
        change == replacement(current, resolved),
        change is Some <==> resolved is Some && resolved->0 != current,
        change is Some ==> change == resolved,
{
    match resolved {
        Some(address) => {
            if address != current {
                Some(address)
            } else {
                None
            }
        },
        None => None,
    }
}

/// Both addresses are of one family.
pub open spec fn same_family(remote: Endpoint, local: IpAddress) -> bool {
    remote is V4 <==> local is V4
}

/// The address to bind to, so that answers to `remote` leave from the local address.
pub open spec fn binding(remote: Endpoint, local: IpAddress, port: u16) -> Endpoint {
    match local {
        IpAddress::V4(ip) => Endpoint::V4 { ip, port },
        IpAddress::V6(ip6) => Endpoint::V6 {
            ip6,
            port,
            flowinfo: remote->flowinfo,
            scope_id: remote->scope_id,
        },
    }
}

/// Returns the address to bind to, so that answers to `remote` leave from the address that it
/// sent to: the local address with the local port and, for IPv6, the flow and the scope of the
/// remote.
pub fn bind_endpoint(remote: Endpoint, local: IpAddress, port: u16) -> (bound: Endpoint)
    requires
        same_family(remote, local),
    ensures
        match bound {
            Endpoint::V4 { ip, port: bound_port } => local == IpAddress::V4(ip) && bound_port
                == port,
            Endpoint::V6 { ip6, port: bound_port, flowinfo, scope_id } => {
                &&& local == IpAddress::V6(ip6)
                &&& bound_port == port
                &&& flowinfo == remote->flowinfo
                &&& scope_id == remote->scope_id
            },
        },
        bound == binding(remote, local, port),
        bound is V4 <==> local is V4,
        bound is V4 <==> remote is V4,
{
    match local {
        IpAddress::V4(ip) => Endpoint::V4 { ip, port },
        IpAddress::V6(ip6) => match remote {
            Endpoint::V6 { flowinfo, scope_id, .. } => Endpoint::V6 { ip6, port, flowinfo, scope_id },
            Endpoint::V4 { .. } => Endpoint::V6 { ip6, port, flowinfo: 0, scope_id: 0 },
        },
    }
}

/// The addresses to give to the tunnel before it can reach `remote`.
pub open spec fn assignment(
    remote: Endpoint,
    assigned: bool,
    local: Option<u128>,
    peer: Option<u128>,
) -> Option<(u128, u128)> {
    if remote is V6 && !assigned && local is Some && peer is Some {
        Some((local->0, peer->0))
    } else {
        None
    }
}

/// Returns the addresses to give to the tunnel before it can reach `remote`: its own and its
/// peer's, if the remote has an IPv6 address and the tunnel was given none so far.
pub fn ipv6_to_assign(
    remote: Endpoint,
    assigned: bool,
    local: Option<u128>,
    peer: Option<u128>,
) -> (pair: Option<(u128, u128)>)
    ensures
        pair == (if remote is V6 && !assigned && local is Some && peer is Some {
            Some((local->0, peer->0))
        } else {
            None
        }),
        pair == assignment(remote, assigned, local, peer),
        remote is V4 || assigned ==> pair is None,
        match pair {
            Some((own, other)) => local == Some(own) && peer == Some(other),
            None => remote is V4 || assigned || local is None || peer is None,
        },
{
    if remote.is_ipv6() && !assigned {
        match (local, peer) {
            (Some(local), Some(peer)) => Some((local, peer)),
            _ => None,
        }
    } else {
        None
    }
}

/// The first eligible address is eligible, and it is one of those that the lookup gave.
pub proof fn resolved_address_is_eligible(addresses: Seq<Endpoint>, ipv4_only: bool)
    ensures
        match first_eligible(addresses, ipv4_only) {
            Some(address) => addresses.contains(address) && is_eligible(address, ipv4_only),
            None => forall|i: int|
                0 <= i < addresses.len() ==> !is_eligible(#[trigger] addresses[i], ipv4_only),
        },
    decreases addresses.len(),
{
    if addresses.len() > 0 {
        if is_eligible(addresses[0], ipv4_only) {
            assert(addresses.contains(addresses[0]));
        } else {
            let rest = addresses.drop_first();
            resolved_address_is_eligible(rest, ipv4_only);
            match first_eligible(rest, ipv4_only) {
                Some(address) => {
                    let i = choose|i: int| 0 <= i < rest.len() && rest[i] == address;
                    assert(addresses[i + 1] == address);
                },
                None => {
                    assert forall|i: int| 0 <= i < addresses.len() implies !is_eligible(
                        #[trigger] addresses[i],
                        ipv4_only,
                    ) by {
                        if i > 0 {
                            assert(addresses[i] == rest[i - 1]);
                        }
                    }
                },
            }
        }
    }
}

} // verus!
