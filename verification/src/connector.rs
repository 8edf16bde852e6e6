//! The socket address a pool connector dials, read from a peer's
//! multiaddress: its last IP component gives the host and its last UDP
//! component the port, which defaults to 4200.
use vstd::prelude::*;
use multiaddr::{Multiaddr, Protocol};

verus! {

#[verifier::external_type_specification]
#[verifier::external_body]
pub struct ExMultiaddr(Multiaddr);

/// A component of a multiaddress, as far as the address to dial reads it.
#[derive(Clone, Copy, Debug, PartialEq, Eq)]
pub enum AddrPart {
    Ip4([u8; 4]),
    Ip6([u8; 16]),
    Udp(u16),
    /// Any other protocol.
    Other,
}

/// The host of a socket address.
#[derive(Clone, Copy, Debug, PartialEq, Eq)]
pub enum Host {
    V4([u8; 4]),
    V6([u8; 16]),
}

#[derive(Clone, Copy, Debug, PartialEq, Eq)]
pub struct SocketAddress {
    pub host: Host,
    pub port: u16,
}

/// The port dialed when the multiaddress names none.
pub const DEFAULT_PORT: u16 = 4200;

/// The components of a multiaddress, in order.
pub uninterp spec fn multiaddr_components(addr: Multiaddr) -> Seq<AddrPart>;

/// `Multiaddr::iter`: the components of `addr` in order, each IPv4, IPv6
/// or UDP component with its address or port and every other protocol as
/// `Other`.
#[verifier::external_body]
fn components(addr: &Multiaddr) -> (parts: Vec<AddrPart>)
    ensures
        parts@ == multiaddr_components(*addr),
{
    addr.iter().map(|p| match p {
        Protocol::Ip4(ip) => AddrPart::Ip4(ip.octets()),
        Protocol::Ip6(ip) => AddrPart::Ip6(ip.octets()),
        Protocol::Udp(port) => AddrPart::Udp(port),
        _ => AddrPart::Other,
    }).collect()
}

/// The host of the last IP component, if any.
pub open spec fn last_host(parts: Seq<AddrPart>) -> Option<Host>
    decreases parts.len(),
{
    if parts.len() == 0 {
        None
    } else {
        match parts.last() {
            AddrPart::Ip4(a) => Some(Host::V4(a)),
            AddrPart::Ip6(a) => Some(Host::V6(a)),
            _ => last_host(parts.drop_last()),
        }
    }
}

/// The port of the last UDP component, if any.
pub open spec fn last_port(parts: Seq<AddrPart>) -> Option<u16>
    decreases parts.len(),
{
    if parts.len() == 0 {
        None
    } else {
        match parts.last() {
            AddrPart::Udp(p) => Some(p),
            _ => last_port(parts.drop_last()),
        }
    }
}

/// The socket address that `parts` name: none without an IP component.
pub open spec fn socket_address_spec(parts: Seq<AddrPart>) -> Option<SocketAddress> {
    match last_host(parts) {
        Some(host) => Some(
            SocketAddress {
                host,
                port: match last_port(parts) {
                    Some(p) => p,
                    None => DEFAULT_PORT,
                },
            },
        ),
        None => None,
    }
}

/// The socket address named by the components `parts` of a multiaddress.
pub fn socket_address_of(parts: &Vec<AddrPart>) -> (r: Option<SocketAddress>)
    ensures
        r == socket_address_spec(parts@),
{
    let mut host: Option<Host> = None;
    let mut port: Option<u16> = None;
    let mut i: usize = 0;
    while i < parts.len()
        invariant
            i <= parts.len(),
            host == last_host(parts@.take(i as int)),
            port == last_port(parts@.take(i as int)),
        decreases parts.len() - i,
    {
        proof {
            assert(parts@.take(i + 1).drop_last() =~= parts@.take(i as int));
            assert(parts@.take(i + 1).last() == parts@[i as int]);
        }
        match parts[i] {
            AddrPart::Ip4(a) => {
                host = Some(Host::V4(a));
            },
            AddrPart::Ip6(a) => {
                host = Some(Host::V6(a));
            },
            AddrPart::Udp(p) => {
                port = Some(p);
            },
            AddrPart::Other => {},
        }
        i = i + 1;
    }
    proof {
        assert(parts@.take(i as int) =~= parts@);
    }
    match host {
        Some(h) => Some(
            SocketAddress {
                host: h,
                port: match port {
                    Some(p) => p,
                    None => DEFAULT_PORT,
                },
            },
        ),
        None => None,
    }
}

/// The socket address to dial for `multi_address`.
pub fn get_socket_address(multi_address: Multiaddr) -> (r: Option<SocketAddress>)
    ensures
        r == socket_address_spec(multiaddr_components(multi_address)),
{
    let parts = components(&multi_address);
    socket_address_of(&parts)
}

} // verus!
