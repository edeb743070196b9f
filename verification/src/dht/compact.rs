//! Compact forms of peers and nodes.

use crate::net::{compact_v4, compact_v6, law_compact_v4, law_compact_v6, SocketAddr, SocketAddrV4, SocketAddrV6};
use crate::types::InfoHash;
use vstd::prelude::*;

verus! {

/// The compact form of an address of either family.
pub open spec fn compact_peer(a: SocketAddr) -> Seq<u8> {
    match a {
        SocketAddr::V4(v) => v.compact(),
        SocketAddr::V6(v) => v.compact(),
    }
}

/// The address that a compact form stands for; its length tells the family.
pub open spec fn peer_of(s: Seq<u8>) -> Option<SocketAddr> {
    if s.len() == 6 {
        Some(SocketAddr::V4(compact_v4(s)))
    } else if s.len() == 18 {
        Some(SocketAddr::V6(compact_v6(s)))
    } else {
        None
    }
}

/// The compact form of an address.
pub fn build_compact_peer_addr(addr: SocketAddr) -> (r: Vec<u8>)
    ensures
        r@ == compact_peer(addr),
{
    let mut buf: Vec<u8> = Vec::new();
    match addr {
        SocketAddr::V4(v) => v.push_compact(&mut buf),
        SocketAddr::V6(v) => v.push_compact(&mut buf),
    }
    assert(buf@ =~= compact_peer(addr));
    buf
}

/// Reads the compact form of an address.
pub fn parse_compact_peer_addr(data: &[u8]) -> (r: Option<SocketAddr>)
    ensures
        r == peer_of(data@),
{
    if data.len() == 6 {
        Some(SocketAddr::V4(SocketAddrV4::from_compact(data)))
    } else if data.len() == 18 {
        Some(SocketAddr::V6(SocketAddrV6::from_compact(data)))
    } else {
        None
    }
}

/// Reading a compact form gives the address back.
pub proof fn law_compact_peer(a: SocketAddr)
    ensures
        peer_of(compact_peer(a)) == Some(a),
        compact_peer(a).len() <= 18,
{
    match a {
        SocketAddr::V4(v) => law_compact_v4(v),
        SocketAddr::V6(v) => law_compact_v6(v),
    }
}

/// A node: its id and its address.
pub open spec fn compact_node(id: Seq<u8>, a: SocketAddr) -> Seq<u8> {
    id + compact_peer(a)
}

/// Appends the compact form of a node.
pub fn push_compact_node(buf: &mut Vec<u8>, id: &InfoHash, addr: SocketAddr)
    ensures
        final(buf)@ == old(buf)@ + compact_node(id@, addr),
{
    let ghost before = buf@;
    buf.extend_from_slice(id.0.as_slice());
    match addr {
        SocketAddr::V4(v) => v.push_compact(buf),
        SocketAddr::V6(v) => v.push_compact(buf),
    }
    assert(buf@ =~= before + compact_node(id@, addr));
}

/// The nodes that groups of bytes stand for: twenty bytes of id and the compact
/// form of an address each.
pub open spec fn nodes_in(data: Seq<u8>, size: int, n: int) -> Seq<(Seq<u8>, SocketAddr)>
    decreases n,
{
    if n <= 0 {
        seq![]
    } else {
        let s = data.subrange(size * (n - 1), size * n);
        nodes_in(data, size, n - 1).push((s.take(20), peer_of(s.skip(20))->0))
    }
}

/// The models of nodes.
pub open spec fn node_models(v: Seq<(InfoHash, SocketAddr)>) -> Seq<(Seq<u8>, SocketAddr)> {
    Seq::new(v.len(), |i: int| (v[i].0@, v[i].1))
}

fn parse_nodes(data: &[u8], size: usize) -> (r: Vec<(InfoHash, SocketAddr)>)
    requires
        size == 26 || size == 38,
    ensures
        node_models(r@) == nodes_in(data@, size as int, data@.len() as int / size as int),
{
    let mut nodes: Vec<(InfoHash, SocketAddr)> = Vec::new();
    let mut pos: usize = 0;
    let ghost mut n: int = 0;
    assert(node_models(nodes@) =~= seq![]);
    while data.len() - pos >= size
        invariant
            size == 26 || size == 38,
            pos <= data.len(),
            pos == size * n,
            n >= 0,
            node_models(nodes@) == nodes_in(data@, size as int, n),
        decreases data.len() - pos,
    {
        let s = vstd::slice::slice_subrange(data, pos, pos + size);
        let id = InfoHash(crate::types::array20(vstd::slice::slice_subrange(s, 0, 20)));
        let rest = vstd::slice::slice_subrange(s, 20, size);
        proof {
            assert(s@.take(20) =~= s@.subrange(0, 20));
            assert(s@.skip(20) =~= rest@);
            assert(size * (n + 1) == size * n + size) by (nonlinear_arith);
            assert(s@ =~= data@.subrange(size * n, size * (n + 1)));
        }
        let ghost before = node_models(nodes@);
        match parse_compact_peer_addr(rest) {
            Some(a) => {
                nodes.push((id, a));
                assert(node_models(nodes@) =~= before.push((id@, a)));
            },
            None => {},
        }
        pos += size;
        proof {
            n = n + 1;
        }
    }
    nodes
}

/// Reads nodes with IPv4 addresses.
pub fn parse_compact_nodes(data: &[u8]) -> (r: Vec<(InfoHash, SocketAddr)>)
    ensures
        node_models(r@) == nodes_in(data@, 26, data@.len() as int / 26),
{
    parse_nodes(data, 26)
}

/// Reads nodes with IPv6 addresses.
pub fn parse_compact_nodes_v6(data: &[u8]) -> (r: Vec<(InfoHash, SocketAddr)>)
    ensures
        node_models(r@) == nodes_in(data@, 38, data@.len() as int / 38),
{
    parse_nodes(data, 38)
}

} // verus!
