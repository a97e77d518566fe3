//! Socket addresses, and the `sockaddr` records the operating system takes for
//! them.
//!
//! Multi-byte fields that the operating system reads in network byte order
//! (ports, IPv4 addresses) are held as their bytes, most significant first.
#![allow(non_camel_case_types)]

use vstd::prelude::*;

verus! {

/// Address family code.
pub type sa_family_t = u16;

/// The family code of IPv4 addresses.
pub const AF_INET: sa_family_t = 2;
/// The family code of IPv6 addresses (Linux).
pub const AF_INET6: sa_family_t = 10;

/// Header shared by every socket address record: its family.
#[derive(Debug, Clone, Copy, PartialEq, Eq, Structural)]
pub struct sockaddr_storage {
    pub ss_family: sa_family_t,
}

/// An IPv4 address, in network byte order.
#[derive(Debug, Clone, Copy, PartialEq, Eq)]
pub struct in_addr {
    pub s_addr: [u8; 4],
}

/// An IPv6 address, in network byte order.
#[derive(Debug, Clone, Copy, PartialEq, Eq)]
pub struct in6_addr {
    pub s6_addr: [u8; 16],
}

/// An IPv4 socket address record.
#[derive(Debug, Clone, Copy, PartialEq, Eq)]
pub struct sockaddr_in {
    pub sin_family: sa_family_t,
    /// The port, most significant byte first.
    pub sin_port: [u8; 2],
    pub sin_addr: in_addr,
}

/// An IPv6 socket address record.
#[derive(Debug, Clone, Copy, PartialEq, Eq)]
pub struct sockaddr_in6 {
    pub sin6_family: sa_family_t,
    /// The port, most significant byte first.
    pub sin6_port: [u8; 2],
    pub sin6_flowinfo: u32,
    pub sin6_addr: in6_addr,
    pub sin6_scope_id: u32,
}

/// A socket address record as the operating system fills or reads it: one of
/// the layouts, each starting with its family. A `Storage` record carries only
/// its family; the rest of it is zero, as in a zeroed record.
#[derive(Debug, Clone, Copy, PartialEq, Eq)]
pub enum sockaddr {
    Storage(sockaddr_storage),
    In(sockaddr_in),
    In6(sockaddr_in6),
}

impl Default for sockaddr {
    /// A zeroed record of the largest layout, as filled in by the operating
    /// system when it reports an address.
    fn default() -> (r: sockaddr)
        ensures
            r matches sockaddr::In6(a) && a.sin6_family == 0 && a.sin6_port@ == seq![0u8, 0u8]
                && a.sin6_flowinfo == 0 && a.sin6_addr.s6_addr@ == Seq::new(16, |i: int| 0u8)
                && a.sin6_scope_id == 0,
    {
        let r = sockaddr::In6(
            sockaddr_in6 {
                sin6_family: 0,
                sin6_port: [0u8, 0u8],
                sin6_flowinfo: 0,
                sin6_addr: in6_addr { s6_addr: [0u8; 16] },
                sin6_scope_id: 0,
            },
        );
        proof {
            if let sockaddr::In6(a) = r {
                assert(a.sin6_port@ =~= seq![0u8, 0u8]);
                assert(a.sin6_addr.s6_addr@ =~= Seq::new(16, |i: int| 0u8));
            }
        }
        r
    }
}

/// An IPv4 socket address.
#[derive(Debug, Clone, Copy, PartialEq, Eq)]
pub struct SocketAddrV4 {
    pub ip: [u8; 4],
    pub port: u16,
}

/// An IPv6 socket address.
#[derive(Debug, Clone, Copy, PartialEq, Eq)]
pub struct SocketAddrV6 {
    pub ip: [u8; 16],
    pub port: u16,
    pub flowinfo: u32,
    pub scope_id: u32,
}

/// An IPv4 or IPv6 socket address.
#[derive(Debug, Clone, Copy, PartialEq, Eq)]
pub enum SocketAddr {
    V4(SocketAddrV4),
    V6(SocketAddrV6),
}

/// The two bytes of `port`, most significant first.
pub open spec fn port_bytes(port: u16) -> [u8; 2] {
    [(port >> 8u16) as u8, (port & 0xffu16) as u8]
}

/// The port whose bytes, most significant first, are `b`.
pub open spec fn port_of_bytes(b: [u8; 2]) -> u16 {
    (((b[0] as u16) << 8u16) | (b[1] as u16)) as u16
}

/// The address every unknown record is read as: `0.0.0.0:0`.
pub open spec fn unspecified_addr() -> SocketAddr {
    SocketAddr::V4(SocketAddrV4 { ip: [0u8, 0u8, 0u8, 0u8], port: 0 })
}

/// The four bytes of `w` as they lie in memory, least significant first.
pub open spec fn word_bytes(w: u32) -> [u8; 4] {
    [(w & 0xffu32) as u8, ((w >> 8u32) & 0xffu32) as u8, ((w >> 16u32) & 0xffu32) as u8, (w >> 24u32) as u8]
}

/// The record the operating system takes for `a`.
pub open spec fn sockaddr_of(a: SocketAddr) -> sockaddr {
    match a {
        SocketAddr::V4(v4) => sockaddr::In(sockaddr_in {
            sin_family: AF_INET,
            sin_port: port_bytes(v4.port),
            sin_addr: in_addr { s_addr: v4.ip },
        }),
        SocketAddr::V6(v6) => sockaddr::In6(sockaddr_in6 {
            sin6_family: AF_INET6,
            sin6_port: port_bytes(v6.port),
            sin6_flowinfo: v6.flowinfo,
            sin6_addr: in6_addr { s6_addr: v6.ip },
            sin6_scope_id: v6.scope_id,
        }),
    }
}

/// The address a record holds: an IPv4 record of family `AF_INET`, an IPv6
/// record of family `AF_INET6`, a bare `Storage` record of either family as
/// the all-zero address of that family, and anything else as `0.0.0.0:0`.
/// An IPv6 record of family `AF_INET` is read through the IPv4 layout, which
/// lies over its first bytes: its port is the port, and the bytes of its flow
/// information, as they lie in memory, are the IPv4 address.
pub open spec fn addr_of(s: sockaddr) -> SocketAddr {
    match s {
        sockaddr::In(r) => if r.sin_family == AF_INET {
            SocketAddr::V4(SocketAddrV4 { ip: r.sin_addr.s_addr, port: port_of_bytes(r.sin_port) })
        } else {
            unspecified_addr()
        },
        sockaddr::In6(r) => if r.sin6_family == AF_INET6 {
            SocketAddr::V6(SocketAddrV6 {
                ip: r.sin6_addr.s6_addr,
                port: port_of_bytes(r.sin6_port),
                flowinfo: r.sin6_flowinfo,
                scope_id: r.sin6_scope_id,
            })
        } else if r.sin6_family == AF_INET {
            SocketAddr::V4(SocketAddrV4 {
                ip: word_bytes(r.sin6_flowinfo),
                port: port_of_bytes(r.sin6_port),
            })
        } else {
            unspecified_addr()
        },
        sockaddr::Storage(r) => if r.ss_family == AF_INET6 {
            SocketAddr::V6(SocketAddrV6 { ip: [0u8, 0u8, 0u8, 0u8, 0u8, 0u8, 0u8, 0u8, 0u8, 0u8, 0u8, 0u8, 0u8, 0u8, 0u8, 0u8], port: 0, flowinfo: 0, scope_id: 0 })
        } else {
            unspecified_addr()
        },
    }
}

/// The family code of `a`.
pub open spec fn family_of(a: SocketAddr) -> sa_family_t {
    match a {
        SocketAddr::V4(_) => AF_INET,
        SocketAddr::V6(_) => AF_INET6,
    }
}

/// The family field of a record.
pub open spec fn record_family(s: sockaddr) -> sa_family_t {
    match s {
        sockaddr::Storage(r) => r.ss_family,
        sockaddr::In(r) => r.sin_family,
        sockaddr::In6(r) => r.sin6_family,
    }
}

/// Splits a port into its bytes, most significant first.
fn to_port_bytes(port: u16) -> (r: [u8; 2])
    ensures
        r == port_bytes(port),
{
    let hi: u8 = (port >> 8u16) as u8;
    let lo: u8 = (port & 0xffu16) as u8;
    let r = [hi, lo];
    assert(r@ =~= port_bytes(port)@);
    r
}

/// Splits a word into its bytes as they lie in memory.
fn to_word_bytes(w: u32) -> (r: [u8; 4])
    ensures
        r == word_bytes(w),
{
    let r = [
        (w & 0xffu32) as u8,
        ((w >> 8u32) & 0xffu32) as u8,
        ((w >> 16u32) & 0xffu32) as u8,
        (w >> 24u32) as u8,
    ];
    assert(r@ =~= word_bytes(w)@);
    r
}

/// Joins the bytes of a port, most significant first.
fn from_port_bytes(b: [u8; 2]) -> (r: u16)
    ensures
        r == port_of_bytes(b),
{
    let hi: u16 = b[0] as u16;
    let lo: u16 = b[1] as u16;
    ((hi << 8u16) | lo) as u16
}

/// Reading the bytes of a port back gives the port.
proof fn lemma_port_round_trip(port: u16)
    ensures
        port_of_bytes(port_bytes(port)) == port,
{
    let b = port_bytes(port);
    assert(b[0] == (port >> 8u16) as u8);
    assert(b[1] == (port & 0xffu16) as u8);
    let hi: u8 = (port >> 8u16) as u8;
    let lo: u8 = (port & 0xffu16) as u8;
    assert((((hi as u16) << 8u16) | (lo as u16)) as u16 == port) by (bit_vector)
        requires
            hi == (port >> 8u16) as u8,
            lo == (port & 0xffu16) as u8,
    ;
}

/// Conversions between socket addresses and the records of the operating
/// system.
pub trait SocketAddrExt: Sized {
    /// The address a record holds.
    fn from_sockaddr(addr: sockaddr) -> Self;

    /// The record for this address.
    fn to_sockaddr(&self) -> sockaddr;

    /// The family code of this address.
    fn address_family(&self) -> sa_family_t;
}

impl SocketAddrExt for SocketAddr {
    fn from_sockaddr(addr: sockaddr) -> (r: SocketAddr)
        ensures
            r == addr_of(addr),
    {
        match addr {
            sockaddr::In(r) => {
                if r.sin_family == AF_INET {
                    SocketAddr::V4(SocketAddrV4 {
                        ip: r.sin_addr.s_addr,
                        port: from_port_bytes(r.sin_port),
                    })
                } else {
                    SocketAddr::V4(SocketAddrV4 { ip: [0u8, 0u8, 0u8, 0u8], port: 0 })
                }
            },
            sockaddr::In6(r) => {
                if r.sin6_family == AF_INET6 {
                    SocketAddr::V6(SocketAddrV6 {
                        ip: r.sin6_addr.s6_addr,
                        port: from_port_bytes(r.sin6_port),
                        flowinfo: r.sin6_flowinfo,
                        scope_id: r.sin6_scope_id,
                    })
                } else if r.sin6_family == AF_INET {
                    SocketAddr::V4(SocketAddrV4 {
                        ip: to_word_bytes(r.sin6_flowinfo),
                        port: from_port_bytes(r.sin6_port),
                    })
                } else {
                    SocketAddr::V4(SocketAddrV4 { ip: [0u8, 0u8, 0u8, 0u8], port: 0 })
                }
            },
            sockaddr::Storage(r) => {
                if r.ss_family == AF_INET6 {
                    SocketAddr::V6(
                        SocketAddrV6 {
                            ip: [0u8, 0u8, 0u8, 0u8, 0u8, 0u8, 0u8, 0u8, 0u8, 0u8, 0u8, 0u8, 0u8, 0u8, 0u8, 0u8],
                            port: 0,
                            flowinfo: 0,
                            scope_id: 0,
                        },
                    )
                } else {
                    SocketAddr::V4(SocketAddrV4 { ip: [0u8, 0u8, 0u8, 0u8], port: 0 })
                }
            },
        }
    }

    fn to_sockaddr(&self) -> (r: sockaddr)
        ensures
            r == sockaddr_of(*self),
    {
        match self {
            SocketAddr::V4(addr) => sockaddr::In(sockaddr_in {
                sin_family: AF_INET,
                sin_port: to_port_bytes(addr.port),
                sin_addr: in_addr { s_addr: addr.ip },
            }),
            SocketAddr::V6(addr) => sockaddr::In6(sockaddr_in6 {
                sin6_family: AF_INET6,
                sin6_port: to_port_bytes(addr.port),
                sin6_flowinfo: addr.flowinfo,
                sin6_addr: in6_addr { s6_addr: addr.ip },
                sin6_scope_id: addr.scope_id,
            }),
        }
    }

    fn address_family(&self) -> (r: sa_family_t)
        ensures
            r == family_of(*self),
    {
        match self {
            SocketAddr::V4(_) => AF_INET,
            SocketAddr::V6(_) => AF_INET6,
        }
    }
}

/// Reading back the record of an address gives the address, and the record's
/// family is the address's family.
pub proof fn law_sockaddr_round_trip(a: SocketAddr)
    ensures
        addr_of(sockaddr_of(a)) == a,
        record_family(sockaddr_of(a)) == family_of(a),
{
    match a {
        SocketAddr::V4(v4) => {
            lemma_port_round_trip(v4.port);
        },
        SocketAddr::V6(v6) => {
            lemma_port_round_trip(v6.port);
        },
    }
}

} // verus!
