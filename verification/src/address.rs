//! Network endpoints as plain values.

use vstd::prelude::*;

verus! {

/// An IP address, held as the octets that travel on the wire.
#[derive(Clone, Copy, Debug, PartialEq, Eq)]
pub enum IpAddress {
    V4([u8; 4]),
    V6([u8; 16]),
}

/// An IP address together with a port.
#[derive(Clone, Copy, Debug, PartialEq, Eq)]
pub struct SocketAddress {
    pub ip: IpAddress,
    pub port: u16,
}

impl IpAddress {
    /// The octets of the address in network order: four or sixteen of them.
    pub open spec fn octets(self) -> Seq<u8> {
        match self {
            IpAddress::V4(a) => a@,
            IpAddress::V6(a) => a@,
        }
    }

    /// Tells whether this is an IPv4 address.
    pub fn is_v4(&self) -> (r: bool)
        ensures
            r == (*self is V4),
    {
        match self {
            IpAddress::V4(_) => true,
            IpAddress::V6(_) => false,
        }
    }
}

/// The IPv4 address whose octets are the first four bytes of `s`.
pub open spec fn v4_from(s: Seq<u8>) -> IpAddress {
    IpAddress::V4([s[0], s[1], s[2], s[3]])
}

/// The IPv6 address whose octets are the first sixteen bytes of `s`.
pub open spec fn v6_from(s: Seq<u8>) -> IpAddress {
    IpAddress::V6(
        [
            s[0],
            s[1],
            s[2],
            s[3],
            s[4],
            s[5],
            s[6],
            s[7],
            s[8],
            s[9],
            s[10],
            s[11],
            s[12],
            s[13],
            s[14],
            s[15],
        ],
    )
}

/// An address is determined by its octets.
pub proof fn lemma_v4_from_octets(ip: IpAddress)
    requires
        ip is V4,
    ensures
        v4_from(ip.octets()) == ip,
        ip.octets().len() == 4,
{
    let a = ip->V4_0;
    let b = v4_from(ip.octets())->V4_0;
    assert(a@ =~= b@);
    assert(a == b);
}

/// An address is determined by its octets.
pub proof fn lemma_v6_from_octets(ip: IpAddress)
    requires
        ip is V6,
    ensures
        v6_from(ip.octets()) == ip,
        ip.octets().len() == 16,
{
    let a = ip->V6_0;
    let b = v6_from(ip.octets())->V6_0;
    assert(a@ =~= b@);
    assert(a == b);
}

/// The number that two bytes spell in network order.
pub open spec fn be16(hi: u8, lo: u8) -> int {
    hi as int * 256 + lo as int
}

/// The high byte of a sixteen-bit number.
pub open spec fn hi_byte(n: u16) -> u8 {
    (n as int / 256) as u8
}

/// The low byte of a sixteen-bit number.
pub open spec fn lo_byte(n: u16) -> u8 {
    (n as int % 256) as u8
}

} // verus!
