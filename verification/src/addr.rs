//! Server addresses of the server list, and their order.

use vstd::prelude::*;

verus! {

/// The protocol generation a server speaks.
#[derive(Clone, Copy, Debug, PartialEq, Eq, Structural, Hash)]
pub enum ProtocolVersion {
    V5,
    V6,
    V7,
}

/// An IP address: IPv4 as its 32-bit big-endian value, IPv6 as its
/// 128-bit big-endian value.
#[derive(Clone, Copy, Debug, PartialEq, Eq, Structural, Hash)]
pub enum IpAddr {
    V4(u32),
    V6(u128),
}

/// An IP address and a port.
#[derive(Clone, Copy, Debug, PartialEq, Eq, Structural, Hash)]
pub struct Addr {
    pub ip_address: IpAddr,
    pub port: u16,
}

/// A server's address together with the protocol it speaks there.
#[derive(Clone, Copy, Debug, PartialEq, Eq, Structural, Hash)]
pub struct ServerAddr {
    pub version: ProtocolVersion,
    pub addr: Addr,
}

impl ServerAddr {
    /// The address `addr` spoken to in `version`.
    pub fn new(version: ProtocolVersion, addr: Addr) -> (res: ServerAddr)
        ensures
            res.version == version,
            res.addr == addr,
    {
        ServerAddr { version, addr }
    }
}

/// The position of an IP address in the order of addresses: every IPv4
/// address before every IPv6 address, each family by value.
pub open spec fn ip_rank(ip: IpAddr) -> int {
    match ip {
        IpAddr::V4(a) => a as int,
        IpAddr::V6(a) => 0x1_0000_0000_0000_0000_0000_0000_0000_0000 + a,
    }
}

/// The position of an address in the order of addresses: by IP address,
/// then by port.
pub open spec fn addr_rank(a: Addr) -> int {
    ip_rank(a.ip_address) * 0x10000 + a.port
}

/// `a` comes before `b`.
pub open spec fn addr_lt(a: Addr, b: Addr) -> bool {
    addr_rank(a) < addr_rank(b)
}

/// Distinct addresses have distinct positions.
pub proof fn lemma_addr_rank_injective(a: Addr, b: Addr)
    ensures
        addr_rank(a) == addr_rank(b) ==> a == b,
{
    if addr_rank(a) == addr_rank(b) {
        assert(ip_rank(a.ip_address) == ip_rank(b.ip_address));
        assert(a.port == b.port);
    }
}

/// The order of addresses in terms of their parts: IPv4 addresses by
/// their 32-bit big-endian value, then by port; IPv6 addresses by their
/// 128-bit big-endian value, then by port; every IPv4 address before
/// every IPv6 address.
pub proof fn lemma_addr_order(a: Addr, b: Addr)
    ensures
        match (a.ip_address, b.ip_address) {
            (IpAddr::V4(x), IpAddr::V4(y)) => addr_lt(a, b) <==> (x < y || (x == y && a.port
                < b.port)),
            (IpAddr::V6(x), IpAddr::V6(y)) => addr_lt(a, b) <==> (x < y || (x == y && a.port
                < b.port)),
            (IpAddr::V4(_), IpAddr::V6(_)) => addr_lt(a, b),
            (IpAddr::V6(_), IpAddr::V4(_)) => !addr_lt(a, b),
        },
{
}

/// Whether `a` comes before `b`.
pub fn addr_less(a: &Addr, b: &Addr) -> (res: bool)
    ensures
        res == addr_lt(*a, *b),
{
    let ord: i8 = match (a.ip_address, b.ip_address) {
        (IpAddr::V4(x), IpAddr::V4(y)) => if x < y {
            -1
        } else if x == y {
            0
        } else {
            1
        },
        (IpAddr::V4(_), IpAddr::V6(_)) => -1,
        (IpAddr::V6(_), IpAddr::V4(_)) => 1,
        (IpAddr::V6(x), IpAddr::V6(y)) => if x < y {
            -1
        } else if x == y {
            0
        } else {
            1
        },
    };
    if ord < 0 {
        true
    } else if ord > 0 {
        false
    } else {
        a.port < b.port
    }
}

} // verus!
