//! Internet addresses and their compact forms.

use crate::bytes::{be_bytes, be_number, be_u16, be_value, push_be};
use crate::bytes::{lemma_be_bytes_len, lemma_be_round_trip, lemma_be_value_bytes, lemma_byte_ranges};
use vstd::prelude::*;

verus! {

/// An IPv4 address, as the number that its four bytes write.
#[derive(Debug, Clone, Copy, PartialEq, Eq, Hash, Structural)]
pub struct Ipv4Addr {
    pub bits: u32,
}

/// An IPv6 address, as the number that its sixteen bytes write.
#[derive(Debug, Clone, Copy, PartialEq, Eq, Hash, Structural)]
pub struct Ipv6Addr {
    pub bits: u128,
}

/// An address of either family.
#[derive(Debug, Clone, Copy, PartialEq, Eq, Hash, Structural)]
pub enum IpAddr {
    V4(Ipv4Addr),
    V6(Ipv6Addr),
}

/// An IPv4 address with a port.
#[derive(Debug, Clone, Copy, PartialEq, Eq, Hash, Structural)]
pub struct SocketAddrV4 {
    pub ip: Ipv4Addr,
    pub port: u16,
}

/// An IPv6 address with a port.
#[derive(Debug, Clone, Copy, PartialEq, Eq, Hash, Structural)]
pub struct SocketAddrV6 {
    pub ip: Ipv6Addr,
    pub port: u16,
}

/// An address of either family with a port.
#[derive(Debug, Clone, Copy, PartialEq, Eq, Hash, Structural)]
pub enum SocketAddr {
    V4(SocketAddrV4),
    V6(SocketAddrV6),
}

impl Ipv4Addr {
    /// The four bytes of the address.
    pub open spec fn octets(self) -> Seq<u8> {
        be_bytes(self.bits as nat, 4)
    }

    /// The address with the given four bytes.
    pub fn new(a: u8, b: u8, c: u8, d: u8) -> (r: Ipv4Addr)
        ensures
            r.octets() == seq![a, b, c, d],
            r.bits == be_value(seq![a, b, c, d]),
    {
        let s: [u8; 4] = [a, b, c, d];
        assert(s@ =~= seq![a, b, c, d]);
        proof {
            lemma_be_value_bytes(seq![a, b, c, d]);
        }
        Ipv4Addr { bits: crate::bytes::be_u32(s.as_slice()) }
    }

    /// The address with the given four bytes.
    pub fn from_slice(s: &[u8]) -> (r: Ipv4Addr)
        requires
            s.len() == 4,
        ensures
            r.octets() == s@,
            r.bits == be_value(s@),
    {
        proof {
            lemma_be_value_bytes(s@);
        }
        Ipv4Addr { bits: crate::bytes::be_u32(s) }
    }

}

impl Ipv6Addr {
    /// The sixteen bytes of the address.
    pub open spec fn octets(self) -> Seq<u8> {
        be_bytes(self.bits as nat, 16)
    }

    /// The address with the given sixteen bytes.
    pub fn from_slice(s: &[u8]) -> (r: Ipv6Addr)
        requires
            s.len() == 16,
        ensures
            r.octets() == s@,
            r.bits == be_value(s@),
    {
        proof {
            lemma_be_value_bytes(s@);
        }
        Ipv6Addr { bits: be_number(s) }
    }

}

impl SocketAddrV4 {
    /// The address and port.
    pub fn new(ip: Ipv4Addr, port: u16) -> (r: SocketAddrV4)
        ensures
            r == (SocketAddrV4 { ip, port }),
    {
        SocketAddrV4 { ip, port }
    }

    /// The compact form: the address's bytes and the port's.
    pub open spec fn compact(self) -> Seq<u8> {
        self.ip.octets() + be_bytes(self.port as nat, 2)
    }

    /// Appends the compact form.
    pub fn push_compact(&self, buf: &mut Vec<u8>)
        ensures
            final(buf)@ == old(buf)@ + self.compact(),
            self.compact().len() == 6,
    {
        push_be(buf, self.ip.bits as u128, 4);
        push_be(buf, self.port as u128, 2);
        proof {
            lemma_be_bytes_len(self.ip.bits as nat, 4);
            lemma_be_bytes_len(self.port as nat, 2);
            assert(buf@ =~= old(buf)@ + self.compact());
        }
    }

    /// Reads a compact form.
    pub fn from_compact(s: &[u8]) -> (r: SocketAddrV4)
        requires
            s.len() == 6,
        ensures
            r.compact() == s@,
            r == compact_v4(s@),
    {
        let ip = Ipv4Addr::from_slice(vstd::slice::slice_subrange(s, 0, 4));
        let port: u16 = be_u16(s[4], s[5]);
        let r = SocketAddrV4 { ip, port };
        proof {
            let tail = s@.subrange(4, 6);
            assert(tail =~= seq![s@[4], s@[5]]);
            lemma_be_value_bytes(tail);
            assert(r.compact() =~= s@);
        }
        r
    }
}

/// The IPv4 address and port that six bytes stand for.
pub open spec fn compact_v4(s: Seq<u8>) -> SocketAddrV4 {
    SocketAddrV4 {
        ip: Ipv4Addr { bits: be_value(s.subrange(0, 4)) as u32 },
        port: be_value(s.subrange(4, 6)) as u16,
    }
}

/// The IPv6 address and port that eighteen bytes stand for.
pub open spec fn compact_v6(s: Seq<u8>) -> SocketAddrV6 {
    SocketAddrV6 {
        ip: Ipv6Addr { bits: be_value(s.subrange(0, 16)) as u128 },
        port: be_value(s.subrange(16, 18)) as u16,
    }
}

impl SocketAddrV6 {
    /// The compact form: the address's bytes and the port's.
    pub open spec fn compact(self) -> Seq<u8> {
        self.ip.octets() + be_bytes(self.port as nat, 2)
    }

    /// Appends the compact form.
    pub fn push_compact(&self, buf: &mut Vec<u8>)
        ensures
            final(buf)@ == old(buf)@ + self.compact(),
            self.compact().len() == 18,
    {
        push_be(buf, self.ip.bits, 16);
        push_be(buf, self.port as u128, 2);
        proof {
            lemma_be_bytes_len(self.ip.bits as nat, 16);
            lemma_be_bytes_len(self.port as nat, 2);
            assert(buf@ =~= old(buf)@ + self.compact());
        }
    }

    /// Reads a compact form.
    pub fn from_compact(s: &[u8]) -> (r: SocketAddrV6)
        requires
            s.len() == 18,
        ensures
            r.compact() == s@,
            r == compact_v6(s@),
    {
        let ip = Ipv6Addr::from_slice(vstd::slice::slice_subrange(s, 0, 16));
        let port: u16 = be_u16(s[16], s[17]);
        let r = SocketAddrV6 { ip, port };
        proof {
            let tail = s@.subrange(16, 18);
            assert(tail =~= seq![s@[16], s@[17]]);
            lemma_be_value_bytes(tail);
            assert(r.compact() =~= s@);
        }
        r
    }
}

/// Reading a compact form gives back the address it was made from.
pub proof fn law_compact_v4(a: SocketAddrV4)
    ensures
        compact_v4(a.compact()) == a,
        a.compact().len() == 6,
{
    lemma_byte_ranges();
    lemma_be_round_trip(a.ip.bits as nat, 4);
    lemma_be_round_trip(a.port as nat, 2);
    assert(a.compact().subrange(0, 4) =~= a.ip.octets());
    assert(a.compact().subrange(4, 6) =~= be_bytes(a.port as nat, 2));
}

/// Reading a compact form gives back the address it was made from.
pub proof fn law_compact_v6(a: SocketAddrV6)
    ensures
        compact_v6(a.compact()) == a,
        a.compact().len() == 18,
{
    lemma_byte_ranges();
    lemma_be_round_trip(a.ip.bits as nat, 16);
    lemma_be_round_trip(a.port as nat, 2);
    assert(a.compact().subrange(0, 16) =~= a.ip.octets());
    assert(a.compact().subrange(16, 18) =~= be_bytes(a.port as nat, 2));
}

impl SocketAddr {
    /// The address without the port.
    pub open spec fn spec_ip(self) -> IpAddr {
        match self {
            SocketAddr::V4(a) => IpAddr::V4(a.ip),
            SocketAddr::V6(a) => IpAddr::V6(a.ip),
        }
    }

    /// The address without the port.
    pub fn ip(&self) -> (r: IpAddr)
        ensures
            r == self.spec_ip(),
    {
        match self {
            SocketAddr::V4(a) => IpAddr::V4(a.ip),
            SocketAddr::V6(a) => IpAddr::V6(a.ip),
        }
    }

    /// The port.
    pub open spec fn spec_port(self) -> u16 {
        match self {
            SocketAddr::V4(a) => a.port,
            SocketAddr::V6(a) => a.port,
        }
    }

    /// The port.
    pub fn port(&self) -> (r: u16)
        ensures
            r == self.spec_port(),
    {
        match self {
            SocketAddr::V4(a) => a.port,
            SocketAddr::V6(a) => a.port,
        }
    }

    /// The same address with another port.
    pub open spec fn spec_with_port(self, port: u16) -> SocketAddr {
        match self {
            SocketAddr::V4(a) => SocketAddr::V4(SocketAddrV4 { ip: a.ip, port }),
            SocketAddr::V6(a) => SocketAddr::V6(SocketAddrV6 { ip: a.ip, port }),
        }
    }

    /// The same address with another port.
    pub fn with_port(&self, port: u16) -> (r: SocketAddr)
        ensures
            r == self.spec_with_port(port),
            r.spec_ip() == self.spec_ip(),
            r.spec_port() == port,
    {
        match self {
            SocketAddr::V4(a) => SocketAddr::V4(SocketAddrV4 { ip: a.ip, port }),
            SocketAddr::V6(a) => SocketAddr::V6(SocketAddrV6 { ip: a.ip, port }),
        }
    }
}

} // verus!
