//! Which nodes a routing table takes, and which ids belong to which addresses.

use crate::bytes::be_bytes;
use crate::dht::bep42::{belongs, local, masked};
use crate::dht::bits::{agree, bit};
use crate::dht::routing_table::bucket::{first_bad, lemma_first_bad, lemma_position, position_of_id};
use crate::dht::routing_table::node::{NodeStatus, RoutingTableNode};
use crate::dht::routing_table::tree::{
    arena_ok, depth_of, node_ok, tree_at, tree_insert, BucketTreeNode, BucketTreeNodeData,
    InsertResult, Tree,
};
use crate::dht::routing_table::RoutingTable;
use crate::laws::{lemma_says_piece, says_piece};
use crate::dht::node::plausible;
use crate::net::{IpAddr, Ipv4Addr, Ipv6Addr, SocketAddr};
use crate::outside::crc32c_of;
use crate::storage::cache::{distinct_slots, entries_for, put_in, slot_of, taken_out, touched};
use crate::types::InfoHash;
use vstd::prelude::*;

verus! {

/// The bucket for an id, with how many bits its ids share: at each fork the bit
/// of the id shows the way.
pub open spec fn bucket_for(t: Tree, depth: int, id: Seq<u8>) -> (Seq<RoutingTableNode>, int)
    decreases t,
{
    match t {
        Tree::Leaf { nodes, refreshed } => (nodes, depth),
        Tree::Split { left, right } => if says_piece(id, depth) {
            bucket_for(*right, depth + 1, id)
        } else {
            bucket_for(*left, depth + 1, id)
        },
    }
}

/// No more forks than an id has bits.
pub open spec fn fits(t: Tree, depth: int) -> bool
    decreases t,
{
    match t {
        Tree::Leaf { .. } => true,
        Tree::Split { left, right } => depth < 160 && fits(*left, depth + 1) && fits(
            *right,
            depth + 1,
        ),
    }
}

proof fn lemma_fits(data: Seq<BucketTreeNode>, i: int)
    requires
        arena_ok(data),
        0 <= i < data.len(),
    ensures
        fits(tree_at(data, i), depth_of(data[i])),
    decreases data.len() - i,
{
    assert(node_ok(data, i));
    if let BucketTreeNodeData::LeftRight(l, r) = data[i].data {
        lemma_fits(data, l as int);
        lemma_fits(data, r as int);
    }
}

proof fn lemma_offered(
    t: Tree,
    depth: int,
    self_id: Seq<u8>,
    new: RoutingTableNode,
    now: u64,
    full: bool,
)
    requires
        fits(t, depth),
    ensures
        ({
            let (b, d) = bucket_for(t, depth, new.id@);
            let r = tree_insert(t, depth, self_id, new, now, full).1;
            &&& position_of_id(b, new.id@) is Some ==> r is WasExisting
            &&& position_of_id(b, new.id@) is None && first_bad(b, now) is Some ==> r
                == InsertResult::ReplacedBad(b[first_bad(b, now)->0])
            &&& position_of_id(b, new.id@) is None && first_bad(b, now) is None && full
                ==> r is Ignored
            &&& position_of_id(b, new.id@) is None && first_bad(b, now) is None && !full && b.len()
                < 8 ==> r is Added
            &&& position_of_id(b, new.id@) is None && first_bad(b, now) is None && !full && b.len()
                >= 8 && !agree(self_id, new.id@, d) ==> r is Ignored
        }),
    decreases t,
{
    if let Tree::Split { left, right } = t {
        lemma_says_piece(new.id@, depth);
        assert(bit(new.id@, depth) == says_piece(new.id@, depth));
        if bit(new.id@, depth) {
            lemma_offered(*right, depth + 1, self_id, new, now, full);
        } else {
            lemma_offered(*left, depth + 1, self_id, new, now, full);
        }
    }
}

/// What becomes of a node that a table is offered. One that its bucket knows is
/// not taken again. Else it takes the place of a bad node of the bucket, if
/// there is one. Else a table that is full does not take it; and one that is
/// not takes it if the bucket has fewer than eight, but not if the bucket has
/// eight and the table's own id lies elsewhere.
pub proof fn law_node_offered(
    t: RoutingTable,
    id: InfoHash,
    addr: SocketAddr,
    now: u64,
    r: InsertResult,
    then: RoutingTable,
)
    requires
        t.wf(),
        t.after_offer(id, addr, now, r, then),
    ensures
        ({
            let (b, d) = bucket_for(t.buckets@, 0, id@);
            let known = exists|k: int| 0 <= k < b.len() && (#[trigger] b[k]).id@ == id@;
            let bad = exists|k: int|
                0 <= k < b.len() && (#[trigger] b[k]).status_at(now) == NodeStatus::Bad;
            let full = t.buckets.size >= t.buckets.max_size;
            &&& known ==> r is WasExisting && then.nodes() == t.nodes()
            &&& !known && bad ==> (r matches InsertResult::ReplacedBad(x) && b.contains(x)
                && x.status_at(now) == NodeStatus::Bad)
            &&& !known && !bad && full ==> r is Ignored && then.nodes() == t.nodes()
            &&& !known && !bad && !full && b.len() < 8 ==> r is Added
            &&& !known && !bad && !full && b.len() >= 8 && (exists|i: int|
                0 <= i < d && says_piece(t.id@, i) != #[trigger] says_piece(id@, i)) ==> r is Ignored
                && then.nodes() == t.nodes()
        }),
{
    let tree = t.buckets@;
    let new = RoutingTableNode::fresh(id, addr);
    let (b, d) = bucket_for(tree, 0, id@);
    lemma_fits(t.buckets.data@, 0);
    lemma_offered(tree, 0, t.id@, new, now, t.is_full());
    lemma_position(b, id@);
    lemma_first_bad(b, now);
    lemma_unchanged(tree, 0, t.id@, new, now, t.is_full());
    if exists|i: int| 0 <= i < d && says_piece(t.id@, i) != #[trigger] says_piece(id@, i) {
        let i = choose|i: int| 0 <= i < d && says_piece(t.id@, i) != #[trigger] says_piece(id@, i);
        lemma_says_piece(t.id@, i);
        lemma_says_piece(id@, i);
        assert(bit(t.id@, i) != bit(id@, i));
    }
    if let Some(k) = position_of_id(b, id@) {
        assert(b[k].id@ == id@);
    }
    if let Some(k) = first_bad(b, now) {
        assert(b[k].status_at(now) == NodeStatus::Bad);
    }
}

/// A node that is known, or that an otherwise full table or bucket refuses at
/// once, changes nothing.
proof fn lemma_unchanged(
    t: Tree,
    depth: int,
    self_id: Seq<u8>,
    new: RoutingTableNode,
    now: u64,
    full: bool,
)
    requires
        fits(t, depth),
    ensures
        ({
            let (b, d) = bucket_for(t, depth, new.id@);
            let (after, r) = tree_insert(t, depth, self_id, new, now, full);
            position_of_id(b, new.id@) is Some || (first_bad(b, now) is None && (full || (b.len()
                >= 8 && !agree(self_id, new.id@, d)))) ==> after == t
        }),
    decreases t,
{
    if let Tree::Split { left, right } = t {
        lemma_says_piece(new.id@, depth);
        assert(bit(new.id@, depth) == says_piece(new.id@, depth));
        if bit(new.id@, depth) {
            lemma_unchanged(*right, depth + 1, self_id, new, now, full);
        } else {
            lemma_unchanged(*left, depth + 1, self_id, new, now, full);
        }
    }
}

/// An address of four bytes for which no id is refused: all zeros, loopback,
/// link-local or private.
pub proof fn law_local_address(ip: Ipv4Addr, w: u8, x: u8, y: u8, z: u8)
    requires
        ip.bits == ((w * 256 + x) * 256 + y) * 256 + z,
    ensures
        local(IpAddr::V4(ip)) <==> ({
            ||| w == 0 && x == 0 && y == 0 && z == 0
            ||| w == 127
            ||| w == 10
            ||| w == 172 && 16 <= x <= 31
            ||| w == 192 && x == 168
            ||| w == 169 && x == 254
        }),
{
    let b = ip.bits as int;
    assert(b / 0x100_0000 == w);
    assert(b / 0x1_0000 == w * 256 + x);
    assert(b / 0x10_0000 == (w * 256 + x) / 16);
}

proof fn lemma_four_bytes(n: nat)
    ensures
        be_bytes(n, 4) == seq![
            (n / 0x100_0000 % 256) as u8,
            (n / 0x1_0000 % 256) as u8,
            (n / 0x100 % 256) as u8,
            (n % 256) as u8,
        ],
{
    reveal_with_fuel(be_bytes, 5);
    assert(n / 256 / 256 == n / 0x1_0000);
    assert(n / 0x1_0000 / 256 == n / 0x100_0000);
    assert(be_bytes(n, 4) =~= seq![
        (n / 0x100_0000 % 256) as u8,
        (n / 0x1_0000 % 256) as u8,
        (n / 0x100 % 256) as u8,
        (n % 256) as u8,
    ]);
}

proof fn lemma_bytes_of(b: int, w: u8, x: u8, y: u8, z: u8)
    requires
        b == ((w * 256 + x) * 256 + y) * 256 + z,
    ensures
        b / 0x100_0000 == w,
        b / 0x1_0000 % 16 == x % 16,
        b / 0x100 % 64 == y % 64,
        b % 256 == z,
{
}

#[verifier::spinoff_prover]
proof fn lemma_masked(ip: Ipv4Addr, w: u8, x: u8, y: u8, z: u8, r: u8)
    requires
        ip.bits == ((w * 256 + x) * 256 + y) * 256 + z,
        r < 8,
    ensures
        masked(IpAddr::V4(ip), r) == seq![
            (w % 4 + 32 * r) as u8,
            (x % 16) as u8,
            (y % 64) as u8,
            z,
        ],
{
    let b = ip.bits;
    let s = r as u32;
    let n = (b & 0x030f_3fffu32) | (s << 29u32);
    assert(n / 0x100_0000 == (b / 0x100_0000) % 4 + 32 * s && n / 0x1_0000 % 256 == b / 0x1_0000
        % 16 && n / 0x100 % 256 == b / 0x100 % 64 && n % 256 == b % 256) by (bit_vector)
        requires
            s < 8,
            n == (b & 0x030f_3fffu32) | (s << 29u32),
    ;
    lemma_bytes_of(b as int, w, x, y, z);
    lemma_four_bytes(n as nat);
    let m = be_bytes(n as nat, 4);
    assert(m[0] == w % 4 + 32 * r);
    assert(m[1] == x % 16);
    assert(m[2] == y % 64);
    assert(m[3] == z);
    assert(m =~= seq![(w % 4 + 32 * r) as u8, (x % 16) as u8, (y % 64) as u8, z]);
}

/// Twenty-one bits are the same if they are in each byte.
proof fn lemma_top_bits(sum: int, a: u8, b: u8, c: u8)
    requires
        0 <= sum < 0x1_0000_0000,
    ensures
        (a * 0x1_0000 + b * 0x100 + c) / 8 == sum / 0x800 <==> a == sum / 0x100_0000 && b == sum
            / 0x1_0000 % 256 && c as int / 8 == sum / 0x800 % 32,
{
    let p = sum / 0x100_0000;
    let q = sum / 0x1_0000 % 256;
    let r = sum / 0x800 % 32;
    assert(sum / 0x800 == p * 0x2000 + q * 0x20 + r);
    assert((a * 0x1_0000 + b * 0x100 + c) / 8 == a * 0x2000 + b * 0x20 + c as int / 8);
}

/// What is taken of an address of four bytes for its ids: two bits of the first
/// byte, four of the second, six of the third and all of the last, with the
/// number of the id in the three highest bits. An id belongs to the address if
/// its first twenty-one bits are those of the checksum of that.
pub proof fn law_id_of_address(ip: Ipv4Addr, w: u8, x: u8, y: u8, z: u8, id: Seq<u8>)
    requires
        ip.bits == ((w * 256 + x) * 256 + y) * 256 + z,
        id.len() == 20,
        !local(IpAddr::V4(ip)),
    ensures
        ({
            let r = id[19] as int % 8;
            let sum = crc32c_of(
                seq![(w % 4 + 32 * r) as u8, (x % 16) as u8, (y % 64) as u8, z],
            ) as int;
            belongs(id, IpAddr::V4(ip)) <==> id[0] == sum / 0x100_0000 && id[1] == sum / 0x1_0000
                % 256 && id[2] as int / 8 == sum / 0x800 % 32
        }),
{
    let r = id[19] % 8;
    lemma_masked(ip, w, x, y, z, r);
    lemma_top_bits(crc32c_of(masked(IpAddr::V4(ip), r)) as int, id[0], id[1], id[2]);
}

/// As many pieces are kept in memory as fit into what is given for them, but at
/// least sixty-four and at most two thousand and forty-eight.
pub proof fn law_kept_pieces(mebibytes: int, piece_length: int)
    requires
        0 <= mebibytes < 0x1000_0000,
        piece_length > 0,
    ensures
        64 <= entries_for(mebibytes, piece_length) <= 2048,
        entries_for(mebibytes, piece_length) > 64 ==> entries_for(mebibytes, piece_length)
            * piece_length <= mebibytes * 1024 * 1024,
        entries_for(mebibytes, piece_length) < 2048 ==> (entries_for(mebibytes, piece_length) + 1)
            * piece_length > mebibytes * 1024 * 1024,
{
    let total = mebibytes * 1048576;
    let e = total / piece_length;
    let n = entries_for(mebibytes, piece_length);
    vstd::arithmetic::div_mod::lemma_fundamental_div_mod(total, piece_length);
    assert(e * piece_length <= total < (e + 1) * piece_length) by (nonlinear_arith)
        requires
            piece_length > 0,
            total == piece_length * e + total % piece_length,
            0 <= total % piece_length < piece_length,
    ;
    if n > 64 {
        assert(n * piece_length <= e * piece_length) by (nonlinear_arith)
            requires
                n <= e,
                piece_length > 0,
        ;
    }
    if n < 2048 {
        assert((n + 1) * piece_length >= (e + 1) * piece_length) by (nonlinear_arith)
            requires
                n >= e,
                piece_length > 0,
        ;
    }
}

/// A piece that is kept is found again, in front of all others; the others stay
/// in their order, but for an older copy of it, or for the last one if there is
/// no room.
pub proof fn law_piece_kept(s: Seq<(u32, Seq<u8>)>, limit: nat, k: u32, v: Seq<u8>)
    requires
        s.len() <= limit,
        limit > 0,
    ensures
        put_in(s, limit, k, v).len() <= limit,
        put_in(s, limit, k, v)[0] == (k, v),
        slot_of(s, k) == s.len() && s.len() < limit ==> put_in(s, limit, k, v).skip(1) == s,
        slot_of(s, k) == s.len() && s.len() == limit ==> put_in(s, limit, k, v).skip(1)
            == s.drop_last(),
        slot_of(s, k) < s.len() ==> put_in(s, limit, k, v).skip(1) == s.remove(slot_of(s, k)),
{
    let p = put_in(s, limit, k, v);
    lemma_slot_bound(s, k);
    if slot_of(s, k) < s.len() {
        assert(p.skip(1) =~= s.remove(slot_of(s, k)));
    } else if s.len() == limit {
        assert(p.skip(1) =~= s.drop_last());
    } else {
        assert(p.skip(1) =~= s);
    }
}

proof fn lemma_slot_bound(s: Seq<(u32, Seq<u8>)>, k: u32)
    ensures
        0 <= slot_of(s, k) <= s.len(),
    decreases s.len(),
{
    if s.len() > 0 && s[0].0 != k {
        lemma_slot_bound(s.skip(1), k);
    }
}

/// The first bytes of an address of sixteen bytes say for which no id is
/// refused, besides the two that are all zeros but for the last bit: the
/// unique-local ones. Those, and the multicast and link-local ones, are not
/// seen from outside.
pub proof fn law_local_v6(ip: Ipv6Addr, w: u8, x: u8, rest: u128)
    requires
        ip.bits == (w * 256 + x) * 0x1_0000_0000_0000_0000_0000_0000_0000 + rest,
        rest < 0x1_0000_0000_0000_0000_0000_0000_0000,
    ensures
        local(IpAddr::V6(ip)) <==> ip.bits == 0 || ip.bits == 1 || w == 0xfc || w == 0xfd,
        plausible(IpAddr::V6(ip)) <==> !(ip.bits == 0 || ip.bits == 1 || w == 0xfc || w == 0xfd || w
            == 0xff || (w == 0xfe && x == 0x80)),
{
    let b = ip.bits as int;
    assert(b / 0x1_0000_0000_0000_0000_0000_0000_0000 == w * 256 + x);
    assert(b / 0x100_0000_0000_0000_0000_0000_0000_0000 == w);
    assert(b / 0x200_0000_0000_0000_0000_0000_0000_0000 == w as int / 2);
}

#[verifier::spinoff_prover]
proof fn lemma_eight_bytes(n: nat)
    ensures
        be_bytes(n, 8).len() == 8,
        be_bytes(n, 8)[0] == n / 0x100_0000_0000_0000 % 256,
        be_bytes(n, 8)[1] == n / 0x1_0000_0000_0000 % 256,
        be_bytes(n, 8)[2] == n / 0x100_0000_0000 % 256,
        be_bytes(n, 8)[3] == n / 0x1_0000_0000 % 256,
        be_bytes(n, 8)[4] == n / 0x100_0000 % 256,
        be_bytes(n, 8)[5] == n / 0x1_0000 % 256,
        be_bytes(n, 8)[6] == n / 0x100 % 256,
        be_bytes(n, 8)[7] == n % 256,
{
    let m = n / 0x1_0000_0000;
    reveal_with_fuel(be_bytes, 5);
    assert(n / 256 / 256 == n / 0x1_0000);
    assert(n / 0x1_0000 / 256 == n / 0x100_0000);
    assert(n / 0x100_0000 / 256 == m);
    lemma_four_bytes(m);
    assert(be_bytes(n, 8) =~= be_bytes(m, 4) + seq![
        (n / 0x100_0000 % 256) as u8,
        (n / 0x1_0000 % 256) as u8,
        (n / 0x100 % 256) as u8,
        (n % 256) as u8,
    ]);
    assert(m / 0x100_0000 == n / 0x100_0000_0000_0000);
    assert(m / 0x1_0000 == n / 0x1_0000_0000_0000);
    assert(m / 0x100 == n / 0x100_0000_0000);
}

/// What is taken of an address of sixteen bytes for its ids: one bit of the
/// first byte, two of the second, and so on to all of the eighth, with the
/// number of the id in the three highest bits.
#[verifier::spinoff_prover]
pub proof fn law_id_of_v6(ip: Ipv6Addr, r: u8)
    requires
        r < 8,
    ensures
        ({
            let m = masked(IpAddr::V6(ip), r);
            let b = ip.bits as int / 0x1_0000_0000_0000_0000;
            &&& m.len() == 8
            &&& m[0] == b / 0x100_0000_0000_0000 % 2 + 32 * r
            &&& m[1] == b / 0x1_0000_0000_0000 % 4
            &&& m[2] == b / 0x100_0000_0000 % 8
            &&& m[3] == b / 0x1_0000_0000 % 16
            &&& m[4] == b / 0x100_0000 % 32
            &&& m[5] == b / 0x1_0000 % 64
            &&& m[6] == b / 0x100 % 128
            &&& m[7] == b % 256
        }),
{
    let b = (ip.bits / 0x1_0000_0000_0000_0000) as u64;
    let s = r as u64;
    let n = (b & 0x0103_070f_1f3f_7fffu64) | (s << 61u64);
    assert(n / 0x100_0000_0000_0000 == (b / 0x100_0000_0000_0000) % 2 + 32 * s && n
        / 0x1_0000_0000_0000 % 256 == b / 0x1_0000_0000_0000 % 4 && n / 0x100_0000_0000 % 256 == b
        / 0x100_0000_0000 % 8 && n / 0x1_0000_0000 % 256 == b / 0x1_0000_0000 % 16) by (bit_vector)
        requires
            s < 8,
            n == (b & 0x0103_070f_1f3f_7fffu64) | (s << 61u64),
    ;
    assert(n / 0x100_0000 % 256 == b / 0x100_0000 % 32 && n / 0x1_0000 % 256 == b / 0x1_0000 % 64
        && n / 0x100 % 256 == b / 0x100 % 128 && n % 256 == b % 256) by (bit_vector)
        requires
            s < 8,
            n == (b & 0x0103_070f_1f3f_7fffu64) | (s << 61u64),
    ;
    lemma_eight_bytes(n as nat);
}

/// What is held for a piece.
pub open spec fn holds_piece(s: Seq<(u32, Seq<u8>)>, k: u32, v: Seq<u8>) -> bool {
    exists|i: int| 0 <= i < s.len() && #[trigger] s[i] == (k, v)
}

/// A piece that is read from memory comes to the front and nothing is lost; one
/// that is forgotten is gone, and no other.
pub proof fn law_piece_used(s: Seq<(u32, Seq<u8>)>, k: u32, j: u32, v: Seq<u8>)
    requires
        distinct_slots(s),
    ensures
        holds_piece(touched(s, k), j, v) <==> holds_piece(s, j, v),
        touched(s, k).len() == s.len(),
        holds_piece(s, k, v) ==> touched(s, k)[0] == (k, v),
        holds_piece(taken_out(s, k), j, v) <==> j != k && holds_piece(s, j, v),
{
    lemma_slot_found(s, k);
    let i = slot_of(s, k);
    let t = touched(s, k);
    let o = taken_out(s, k);
    if i < s.len() {
        if holds_piece(s, j, v) {
            let a = choose|a: int| 0 <= a < s.len() && #[trigger] s[a] == (j, v);
            if a < i {
                assert(t[a + 1] == (j, v) && o[a] == (j, v));
            } else if a > i {
                assert(t[a] == (j, v) && o[a - 1] == (j, v));
            } else {
                assert(t[0] == (j, v));
            }
        }
        if holds_piece(t, j, v) {
            let a = choose|a: int| 0 <= a < t.len() && #[trigger] t[a] == (j, v);
            assert(t[a] == if a == 0 {
                s[i]
            } else if a - 1 < i {
                s[a - 1]
            } else {
                s[a]
            });
        }
        if holds_piece(o, j, v) {
            let a = choose|a: int| 0 <= a < o.len() && #[trigger] o[a] == (j, v);
            assert(o[a] == if a < i {
                s[a]
            } else {
                s[a + 1]
            });
        }
    }
}

proof fn lemma_slot_found(s: Seq<(u32, Seq<u8>)>, k: u32)
    ensures
        0 <= slot_of(s, k) <= s.len(),
        slot_of(s, k) < s.len() ==> s[slot_of(s, k)].0 == k,
        forall|i: int| 0 <= i < slot_of(s, k) ==> (#[trigger] s[i]).0 != k,
    decreases s.len(),
{
    if s.len() > 0 && s[0].0 != k {
        lemma_slot_found(s.skip(1), k);
        assert forall|i: int| 0 <= i < slot_of(s, k) implies (#[trigger] s[i]).0 != k by {
            if i > 0 {
                assert(s.skip(1)[i - 1] == s[i]);
            }
        }
    }
}

} // verus!
