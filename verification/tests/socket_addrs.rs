use dstd::net::{
    in6_addr, in_addr, sockaddr, sockaddr_in, sockaddr_in6, sockaddr_storage, SocketAddr,
    SocketAddrExt, SocketAddrV4, SocketAddrV6, AF_INET, AF_INET6,
};

fn v4(ip: [u8; 4], port: u16) -> SocketAddr {
    SocketAddr::V4(SocketAddrV4 { ip, port })
}

#[test]
fn ipv4_record_is_in_network_order() {
    let a = v4([127, 0, 0, 1], 8080);
    assert_eq!(a.address_family(), AF_INET);
    assert_eq!(
        a.to_sockaddr(),
        sockaddr::In(sockaddr_in {
            sin_family: 2,
            sin_port: [0x1f, 0x90],
            sin_addr: in_addr { s_addr: [127, 0, 0, 1] },
        })
    );
}

#[test]
fn ipv6_record_keeps_flow_and_scope() {
    let mut ip = [0u8; 16];
    ip[15] = 1;
    let a = SocketAddr::V6(SocketAddrV6 { ip, port: 443, flowinfo: 9, scope_id: 3 });
    assert_eq!(a.address_family(), AF_INET6);
    assert_eq!(AF_INET6, 10);
    assert_eq!(
        a.to_sockaddr(),
        sockaddr::In6(sockaddr_in6 {
            sin6_family: 10,
            sin6_port: [1, 187],
            sin6_flowinfo: 9,
            sin6_addr: in6_addr { s6_addr: ip },
            sin6_scope_id: 3,
        })
    );
}

#[test]
fn records_read_back_to_their_address() {
    let addrs = [
        v4([0, 0, 0, 0], 0),
        v4([10, 1, 2, 3], 65535),
        v4([192, 168, 0, 1], 256),
        SocketAddr::V6(SocketAddrV6 { ip: [0xfe; 16], port: 1, flowinfo: 0, scope_id: 0 }),
    ];
    for a in addrs {
        assert_eq!(SocketAddr::from_sockaddr(a.to_sockaddr()), a);
    }
}

#[test]
fn unknown_records_read_as_unspecified() {
    let unspecified = v4([0, 0, 0, 0], 0);
    let s = sockaddr::Storage(sockaddr_storage { ss_family: 1 });
    assert_eq!(SocketAddr::from_sockaddr(s), unspecified);
    let s4 = sockaddr::Storage(sockaddr_storage { ss_family: AF_INET });
    assert_eq!(SocketAddr::from_sockaddr(s4), unspecified);
    let s6 = sockaddr::Storage(sockaddr_storage { ss_family: AF_INET6 });
    assert_eq!(
        SocketAddr::from_sockaddr(s6),
        SocketAddr::V6(SocketAddrV6 { ip: [0; 16], port: 0, flowinfo: 0, scope_id: 0 })
    );
    let wrong = sockaddr::In(sockaddr_in {
        sin_family: AF_INET6,
        sin_port: [0, 80],
        sin_addr: in_addr { s_addr: [1, 2, 3, 4] },
    });
    assert_eq!(SocketAddr::from_sockaddr(wrong), unspecified);
    let good = sockaddr::In(sockaddr_in {
        sin_family: AF_INET,
        sin_port: [0, 80],
        sin_addr: in_addr { s_addr: [1, 2, 3, 4] },
    });
    assert_eq!(SocketAddr::from_sockaddr(good), v4([1, 2, 3, 4], 80));
}

#[test]
fn ipv6_record_of_family_inet_reads_the_ipv4_layout() {
    let r = sockaddr::In6(sockaddr_in6 {
        sin6_family: AF_INET,
        sin6_port: [0x1f, 0x90],
        sin6_flowinfo: 0x0403_0201,
        sin6_addr: in6_addr { s6_addr: [9; 16] },
        sin6_scope_id: 7,
    });
    assert_eq!(SocketAddr::from_sockaddr(r), v4([1, 2, 3, 4], 8080));
}

#[test]
fn default_record_is_zeroed_ipv6() {
    match sockaddr::default() {
        sockaddr::In6(r) => {
            assert_eq!(r.sin6_family, 0);
            assert_eq!(r.sin6_port, [0, 0]);
            assert_eq!(r.sin6_flowinfo, 0);
            assert_eq!(r.sin6_addr.s6_addr, [0u8; 16]);
            assert_eq!(r.sin6_scope_id, 0);
        },
        _ => panic!("expected the IPv6 layout"),
    }
}
