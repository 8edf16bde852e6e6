use lightning_core::connector::{get_socket_address, socket_address_of, AddrPart, Host, SocketAddress, DEFAULT_PORT};
use multiaddr::Multiaddr;

fn addr(s: &str) -> Multiaddr {
    s.parse().unwrap()
}

#[test]
fn ip4_and_udp_give_the_address() {
    assert_eq!(
        get_socket_address(addr("/ip4/127.0.0.1/udp/4433")),
        Some(SocketAddress { host: Host::V4([127, 0, 0, 1]), port: 4433 })
    );
}

#[test]
fn the_port_defaults_without_udp() {
    let mut ip6 = [0u8; 16];
    ip6[15] = 1;
    assert_eq!(
        get_socket_address(addr("/ip6/::1/tcp/80")),
        Some(SocketAddress { host: Host::V6(ip6), port: DEFAULT_PORT })
    );
    assert_eq!(DEFAULT_PORT, 4200);
}

#[test]
fn no_ip_no_address() {
    assert_eq!(get_socket_address(addr("/dns/example.com/udp/1")), None);
    assert_eq!(get_socket_address(addr("/udp/1")), None);
}

#[test]
fn the_last_host_and_port_win() {
    assert_eq!(
        get_socket_address(addr("/ip4/1.2.3.4/udp/5/ip4/5.6.7.8/udp/9")),
        Some(SocketAddress { host: Host::V4([5, 6, 7, 8]), port: 9 })
    );
    assert_eq!(
        socket_address_of(&vec![AddrPart::Udp(3), AddrPart::Ip4([9, 9, 9, 9]), AddrPart::Other]),
        Some(SocketAddress { host: Host::V4([9, 9, 9, 9]), port: 3 })
    );
    assert_eq!(socket_address_of(&vec![]), None);
}
