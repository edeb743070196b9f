//! Node ids that are tied to the node's address.
//!
//! The first 21 bits of an id are those of the CRC-32C checksum of the node's
//! masked address and of a number up to seven, which the last byte gives.

use crate::bytes::{be_bytes, push_be};
use crate::net::IpAddr;
use crate::outside::{crc32c_checksum, crc32c_of, random_u8};
use crate::types::array20;
use vstd::prelude::*;

verus! {

const IPV4_MASK: u32 = 0x030f_3fff;

const IPV6_MASK: u64 = 0x0103_070f_1f3f_7fff;

/// Addresses for which no id is refused: loopback, private, link-local and
/// unspecified ones.
pub open spec fn local(ip: IpAddr) -> bool {
    match ip {
        IpAddr::V4(a) => {
            ||| a.bits / 0x100_0000 == 127
            ||| a.bits / 0x100_0000 == 10
            ||| a.bits / 0x10_0000 == 0xac1
            ||| a.bits / 0x1_0000 == 0xc0a8
            ||| a.bits / 0x1_0000 == 0xa9fe
            ||| a.bits == 0
        },
        IpAddr::V6(a) => {
            ||| a.bits == 1
            ||| a.bits == 0
            ||| a.bits / 0x200_0000_0000_0000_0000_0000_0000_0000 == 0x7e
        },
    }
}

/// The masked address with the number `r` in its top three bits: all of an
/// IPv4 address, or the upper half of an IPv6 address.
pub open spec fn masked(ip: IpAddr, r: u8) -> Seq<u8> {
    match ip {
        IpAddr::V4(a) => be_bytes(
            ((a.bits & 0x030f_3fffu32) | ((r as u32) << 29u32)) as nat,
            4,
        ),
        IpAddr::V6(a) => be_bytes(
            ((((a.bits / 0x1_0000_0000_0000_0000) as u64) & 0x0103_070f_1f3f_7fffu64) | ((r as u64)
                << 61u64)) as nat,
            8,
        ),
    }
}

/// The first 21 bits of an id.
pub open spec fn top21(id: Seq<u8>) -> int {
    (id[0] * 0x1_0000 + id[1] * 0x100 + id[2]) / 8
}

/// An id belongs to an address.
pub open spec fn belongs(id: Seq<u8>, ip: IpAddr) -> bool {
    local(ip) || top21(id) == crc32c_of(masked(ip, id[19] % 8)) as int / 0x800
}

/// The id with the first 21 bits of a checksum, then the random bits, then
/// `r`.
pub open spec fn assembled(crc: u32, r: u8, random: Seq<u8>) -> Seq<u8> {
    seq![
        (crc / 0x100_0000) as u8,
        (crc / 0x1_0000 % 0x100) as u8,
        (crc / 0x800 % 0x20 * 8 + random[0] % 8) as u8,
    ] + random.subrange(1, 17) + seq![r]
}

/// Tells whether an address is one for which no id is refused.
pub fn is_local(ip: IpAddr) -> (r: bool)
    ensures
        r == local(ip),
{
    match ip {
        IpAddr::V4(a) => {
            let b: u32 = a.bits;
            b / 0x100_0000 == 127 || b / 0x100_0000 == 10 || b / 0x10_0000 == 0xac1 || b / 0x1_0000
                == 0xc0a8 || b / 0x1_0000 == 0xa9fe || b == 0
        },
        IpAddr::V6(a) => a.bits == 1 || a.bits == 0 || a.bits
            / 0x200_0000_0000_0000_0000_0000_0000_0000 == 0x7e,
    }
}

/// The checksum of the masked address.
pub fn compute_crc(ip: IpAddr, r: u8) -> (crc: u32)
    ensures
        crc == crc32c_of(masked(ip, r)),
{
    let mut out: Vec<u8> = Vec::new();
    match ip {
        IpAddr::V4(a) => {
            let m: u32 = (a.bits & IPV4_MASK) | ((r as u32) << 29u32);
            push_be(&mut out, m as u128, 4);
        },
        IpAddr::V6(a) => {
            let high: u64 = (a.bits / 0x1_0000_0000_0000_0000) as u64;
            let m: u64 = (high & IPV6_MASK) | ((r as u64) << 61u64);
            push_be(&mut out, m as u128, 8);
        },
    }
    assert(out@ =~= masked(ip, r));
    crc32c_checksum(out.as_slice())
}

/// The id of a checksum, with given random bytes.
pub fn assemble_with(crc: u32, r: u8, random: &[u8]) -> (id: [u8; 20])
    requires
        random.len() == 17,
    ensures
        id@ == assembled(crc, r, random@),
{
    let mut v: Vec<u8> = vec![
        (crc / 0x100_0000) as u8,
        (crc / 0x1_0000 % 0x100) as u8,
        (crc / 0x800 % 0x20 * 8 + (random[0] % 8) as u32) as u8,
    ];
    v.extend_from_slice(vstd::slice::slice_subrange(random, 1, 17));
    v.push(r);
    assert(v@ =~= assembled(crc, r, random@));
    array20(v.as_slice())
}

/// The id of a checksum, with random bytes where it leaves them open.
pub fn assemble_id(crc: u32, r: u8) -> (id: [u8; 20])
    ensures
        exists|random: Seq<u8>| random.len() == 17 && id@ == #[trigger] assembled(crc, r, random),
{
    let random: Vec<u8> = random_bytes(17);
    assemble_with(crc, r, random.as_slice())
}

fn random_bytes(n: usize) -> (r: Vec<u8>)
    ensures
        r.len() == n,
{
    let mut v: Vec<u8> = Vec::new();
    while v.len() < n
        invariant
            v.len() <= n,
        decreases n - v.len(),
    {
        v.push(random_u8());
    }
    v
}

/// A random id that belongs to an address.
pub fn generate_node_id(ip: IpAddr) -> (id: [u8; 20])
    ensures
        belongs(id@, ip),
        !local(ip) ==> exists|r: u8, random: Seq<u8>|
            r < 8 && random.len() == 17 && id@ == #[trigger] assembled(
                crc32c_of(masked(ip, r)),
                r,
                random,
            ),
{
    if is_local(ip) {
        let v: Vec<u8> = random_bytes(20);
        return array20(v.as_slice());
    }
    let r: u8 = random_u8() % 8;
    let crc: u32 = compute_crc(ip, r);
    let id = assemble_id(crc, r);
    proof {
        let random = choose|random: Seq<u8>|
            random.len() == 17 && id@ == #[trigger] assembled(crc, r, random);
        law_assembled_belongs(ip, r, random);
    }
    id
}

/// Tells whether an id belongs to an address.
pub fn validate_node_id(node_id: &[u8; 20], ip: IpAddr) -> (r: bool)
    ensures
        r == belongs(node_id@, ip),
{
    if is_local(ip) {
        return true;
    }
    let crc: u32 = compute_crc(ip, node_id[19] % 8);
    (node_id[0] as u32 * 0x1_0000 + node_id[1] as u32 * 0x100 + node_id[2] as u32) / 8 == crc
        / 0x800
}

/// An id that was made for an address belongs to it, whatever the random bits.
pub proof fn law_assembled_belongs(ip: IpAddr, r: u8, random: Seq<u8>)
    requires
        r < 8,
        random.len() == 17,
    ensures
        belongs(assembled(crc32c_of(masked(ip, r)), r, random), ip),
        assembled(crc32c_of(masked(ip, r)), r, random)[19] == r,
        assembled(crc32c_of(masked(ip, r)), r, random).len() == 20,
{
    let crc = crc32c_of(masked(ip, r));
    let id = assembled(crc, r, random);
    assert(id.len() == 20);
    assert(id[19] == r);
    let x = random[0] % 8;
    assert(id[0] == crc / 0x100_0000 && id[1] == crc / 0x1_0000 % 0x100 && id[2] == crc / 0x800
        % 0x20 * 8 + x);
    assert(top21(id) == crc as int / 0x800) by {
        let c = crc as int;
        assert(c / 0x800 == (c / 0x100_0000) * 0x2000 + (c / 0x1_0000 % 0x100) * 0x20 + c / 0x800
            % 0x20);
    }
}

/// Changing any of the first 21 bits of an id that belongs to an address that
/// is not local makes it an id that does not.
pub proof fn law_changed_id_refused(id: Seq<u8>, other: Seq<u8>, ip: IpAddr)
    requires
        id.len() == 20,
        other.len() == 20,
        !local(ip),
        belongs(id, ip),
        other[19] == id[19],
        other[0] != id[0] || other[1] != id[1] || (other[2] & 0xf8) != (id[2] & 0xf8),
    ensures
        !belongs(other, ip),
{
    let a = other[2];
    let b = id[2];
    assert((a & 0xf8) != (b & 0xf8) ==> a / 8 != b / 8) by (bit_vector);
    assert(top21(id) == id[0] * 0x2000 + id[1] * 0x20 + id[2] / 8);
    assert(top21(other) == other[0] * 0x2000 + other[1] * 0x20 + other[2] / 8);
}

} // verus!
