//! The buckets as a binary tree over the bits of ids.
//!
//! The tree is kept in a vector: a bucket that is full and in whose range the
//! table's own id lies is replaced by a node with two buckets, one for each
//! value of the next bit.

use crate::bitfield::bit_of;
use crate::bytes::lex_less;
use crate::dht::bits::{
    agree, bit, lemma_all_bits, lemma_first_difference, lemma_less_parts, lemma_parts_less,
};
use crate::dht::routing_table::bucket::{ascending_ids, copy_nodes, find_bad, find_node, first_bad,
    lemma_first_bad, lemma_placed, lemma_position, lemma_rank_of, lemma_removed, lemma_side,
    place_node, placed, position_of_id, side, take_side, BUCKET_MAX_SIZE};
use crate::dht::routing_table::laws::{lemma_find, lemma_insert_count, lemma_insert_nodes};
use crate::dht::routing_table::node::{NodeEvent, RoutingTableNode};
use crate::net::SocketAddr;
use crate::types::InfoHash;
use vstd::prelude::*;

verus! {

/// The nodes of one bucket and when it was last refreshed.
#[derive(Debug)]
pub struct LeafBucket {
    pub nodes: Vec<RoutingTableNode>,
    pub last_refreshed: u64,
}

/// A bucket, or the places of the two halves.
#[derive(Debug)]
pub enum BucketTreeNodeData {
    Leaf(LeafBucket),
    LeftRight(usize, usize),
}

/// A range of ids: those that agree with `start` in all but the last `bits`
/// bits.
#[derive(Debug)]
pub struct BucketTreeNode {
    pub bits: u8,
    pub start: InfoHash,
    pub end_inclusive: InfoHash,
    pub data: BucketTreeNodeData,
}

/// The tree, its root first.
#[derive(Debug)]
pub struct BucketTree {
    pub data: Vec<BucketTreeNode>,
    pub size: usize,
    pub max_size: usize,
}

/// What became of a node that was offered to the table.
#[derive(Debug)]
pub enum InsertResult {
    WasExisting,
    ReplacedBad(RoutingTableNode),
    Added,
    Ignored,
}

/// The tree as a value.
pub ghost enum Tree {
    Leaf { nodes: Seq<RoutingTableNode>, refreshed: u64 },
    Split { left: Box<Tree>, right: Box<Tree> },
}

/// All nodes, ascending by their ids.
pub open spec fn flat(t: Tree) -> Seq<RoutingTableNode>
    decreases t,
{
    match t {
        Tree::Leaf { nodes, .. } => nodes,
        Tree::Split { left, right } => flat(*left) + flat(*right),
    }
}

/// The tree whose root stands at a place.
pub open spec fn tree_at(data: Seq<BucketTreeNode>, i: int) -> Tree
    decreases data.len() - i,
{
    match data[i].data {
        BucketTreeNodeData::Leaf(b) => Tree::Leaf { nodes: b.nodes@, refreshed: b.last_refreshed },
        BucketTreeNodeData::LeftRight(l, r) => if i < l < data.len() && i < r < data.len() {
            Tree::Split {
                left: Box::new(tree_at(data, l as int)),
                right: Box::new(tree_at(data, r as int)),
            }
        } else {
            Tree::Leaf { nodes: seq![], refreshed: 0 }
        },
    }
}

/// How many leading bits the ids of a range share.
pub open spec fn depth_of(n: BucketTreeNode) -> int {
    160 - n.bits
}

/// The bounds of a range: the shared bits, then zeros, and the shared bits,
/// then ones.
pub open spec fn bounds_ok(n: BucketTreeNode) -> bool {
    &&& n.bits <= 160
    &&& agree(n.start@, n.end_inclusive@, depth_of(n))
    &&& forall|j: int| depth_of(n) <= j < 160 ==> !#[trigger] bit(n.start@, j)
    &&& forall|j: int| depth_of(n) <= j < 160 ==> #[trigger] bit(n.end_inclusive@, j)
}

/// A bucket holds at most eight nodes of its range, ascending by their ids.
pub open spec fn bucket_ok(nodes: Seq<RoutingTableNode>, start: Seq<u8>, depth: int) -> bool {
    &&& nodes.len() <= BUCKET_MAX_SIZE
    &&& ascending_ids(nodes)
    &&& forall|k: int| 0 <= k < nodes.len() ==> agree((#[trigger] nodes[k]).id@, start, depth)
}

/// A half of a range.
pub open spec fn half_ok(n: BucketTreeNode, half: BucketTreeNode, v: bool) -> bool {
    &&& half.bits + 1 == n.bits
    &&& agree(half.start@, n.start@, depth_of(n))
    &&& bit(half.start@, depth_of(n)) == v
}

pub open spec fn node_ok(data: Seq<BucketTreeNode>, i: int) -> bool {
    let n = data[i];
    &&& bounds_ok(n)
    &&& match n.data {
        BucketTreeNodeData::Leaf(b) => bucket_ok(b.nodes@, n.start@, depth_of(n)),
        BucketTreeNodeData::LeftRight(l, r) => {
            &&& i < l < data.len()
            &&& i < r < data.len()
            &&& half_ok(n, data[l as int], false)
            &&& half_ok(n, data[r as int], true)
        },
    }
}

/// Every range is in order, and the first one holds all ids.
pub open spec fn arena_ok(data: Seq<BucketTreeNode>) -> bool {
    &&& data.len() > 0
    &&& data[0].bits == 160
    &&& forall|i: int| 0 <= i < data.len() ==> #[trigger] node_ok(data, i)
}

/// A place lies in the tree whose root stands at another.
pub open spec fn under(data: Seq<BucketTreeNode>, i: int, j: int) -> bool
    decreases data.len() - i,
{
    i == j || match data[i].data {
        BucketTreeNodeData::Leaf(_) => false,
        BucketTreeNodeData::LeftRight(l, r) => i < l < data.len() && i < r < data.len() && (under(
            data,
            l as int,
            j,
        ) || under(data, r as int, j)),
    }
}

/// What offering a node does to a tree of ranges of the given depth.
///
/// A known id changes nothing. Else the first bad node of the bucket gives
/// way. Else a full table takes nothing, and a bucket with room takes the
/// node. A full bucket is split if the table's own id lies in its range.
pub open spec fn tree_insert(
    t: Tree,
    depth: int,
    self_id: Seq<u8>,
    new: RoutingTableNode,
    now: u64,
    full: bool,
) -> (Tree, InsertResult)
    decreases 160 - depth, (if t is Leaf {
        1int
    } else {
        0int
    }),
{
    match t {
        Tree::Split { left, right } => if depth >= 160 {
            (t, InsertResult::Ignored)
        } else if bit(new.id@, depth) {
            let r = tree_insert(*right, depth + 1, self_id, new, now, full);
            (Tree::Split { left, right: Box::new(r.0) }, r.1)
        } else {
            let r = tree_insert(*left, depth + 1, self_id, new, now, full);
            (Tree::Split { left: Box::new(r.0), right }, r.1)
        },
        Tree::Leaf { nodes, refreshed } => if position_of_id(nodes, new.id@) is Some {
            (t, InsertResult::WasExisting)
        } else if first_bad(nodes, now) is Some {
            let k = first_bad(nodes, now)->0;
            (
                Tree::Leaf { nodes: placed(nodes.remove(k), new), refreshed: now },
                InsertResult::ReplacedBad(nodes[k]),
            )
        } else if full {
            (t, InsertResult::Ignored)
        } else if nodes.len() < BUCKET_MAX_SIZE {
            (Tree::Leaf { nodes: placed(nodes, new), refreshed: now }, InsertResult::Added)
        } else if !agree(self_id, new.id@, depth) {
            (t, InsertResult::Ignored)
        } else {
            tree_insert(split_leaf(nodes, depth, now), depth, self_id, new, now, full)
        },
    }
}

/// A bucket in two halves.
pub open spec fn split_leaf(nodes: Seq<RoutingTableNode>, depth: int, now: u64) -> Tree {
    Tree::Split {
        left: Box::new(Tree::Leaf { nodes: side(nodes, depth, false), refreshed: now }),
        right: Box::new(Tree::Leaf { nodes: side(nodes, depth, true), refreshed: now }),
    }
}

/// An id lies between the bounds of a range exactly if it shares its bits.
pub proof fn lemma_in_range(n: BucketTreeNode, id: Seq<u8>)
    requires
        bounds_ok(n),
        id.len() == 20,
    ensures
        (!lex_less(id, n.start@) && !lex_less(n.end_inclusive@, id)) <==> agree(
            id,
            n.start@,
            depth_of(n),
        ),
{
    let d = depth_of(n);
    let s = n.start@;
    let e = n.end_inclusive@;
    if agree(id, s, d) {
        if lex_less(id, s) {
            let i = lemma_less_parts(id, s);
            assert(bit(id, i) != bit(s, i));
        }
        if lex_less(e, id) {
            let i = lemma_less_parts(e, id);
            if i < d {
                assert(bit(id, i) == bit(s, i));
                assert(bit(s, i) == bit(e, i));
            }
        }
    } else {
        let i = lemma_first_difference(id, s, d);
        assert(bit(s, i) == bit(e, i));
        if bit(id, i) {
            assert(agree(e, id, i)) by {
                assert forall|j: int| 0 <= j < i implies #[trigger] bit(e, j) == bit(id, j) by {
                    assert(bit(id, j) == bit(s, j));
                    assert(bit(s, j) == bit(e, j));
                }
            }
            lemma_parts_less(e, id, i);
        } else {
            lemma_parts_less(id, s, i);
        }
    }
}

/// A full bucket has a bit left by which to split it.
pub proof fn lemma_full_bucket(nodes: Seq<RoutingTableNode>, start: Seq<u8>, depth: int)
    requires
        bucket_ok(nodes, start, depth),
        nodes.len() >= 2,
        start.len() == 20,
    ensures
        depth < 160,
{
    if depth >= 160 {
        let a = nodes[0].id@;
        let b = nodes[1].id@;
        assert(agree(a, b, 160)) by {
            assert forall|i: int| 0 <= i < 160 implies #[trigger] bit(a, i) == bit(b, i) by {
                assert(bit(a, i) == bit(start, i));
                assert(bit(b, i) == bit(start, i));
            }
        }
        lemma_all_bits(a, b);
        crate::bytes::lemma_lex_irreflexive(a);
    }
}

/// What lies under a range shares its bits.
pub proof fn lemma_under(data: Seq<BucketTreeNode>, i: int, j: int)
    requires
        arena_ok(data),
        0 <= i < data.len(),
        under(data, i, j),
    ensures
        i <= j < data.len(),
        depth_of(data[i]) <= depth_of(data[j]),
        agree(data[j].start@, data[i].start@, depth_of(data[i])),
    decreases data.len() - i,
{
    assert(node_ok(data, i));
    if i != j {
        let l = data[i].data->LeftRight_0 as int;
        let r = data[i].data->LeftRight_1 as int;
        let c = if under(data, l, j) {
            l
        } else {
            r
        };
        lemma_under(data, c, j);
        let d = depth_of(data[i]);
        assert forall|k: int| 0 <= k < d implies #[trigger] bit(data[j].start@, k) == bit(
            data[i].start@,
            k,
        ) by {
            assert(bit(data[j].start@, k) == bit(data[c].start@, k));
            assert(bit(data[c].start@, k) == bit(data[i].start@, k));
        }
    }
}

/// Nothing lies under both halves of a range.
pub proof fn lemma_halves_apart(data: Seq<BucketTreeNode>, i: int, j: int)
    requires
        arena_ok(data),
        0 <= i < data.len(),
        data[i].data is LeftRight,
    ensures
        !(under(data, data[i].data->LeftRight_0 as int, j) && under(
            data,
            data[i].data->LeftRight_1 as int,
            j,
        )),
{
    assert(node_ok(data, i));
    let l = data[i].data->LeftRight_0 as int;
    let r = data[i].data->LeftRight_1 as int;
    let d = depth_of(data[i]);
    if under(data, l, j) && under(data, r, j) {
        lemma_under(data, l, j);
        lemma_under(data, r, j);
        assert(bit(data[j].start@, d) == bit(data[l].start@, d));
        assert(bit(data[j].start@, d) == bit(data[r].start@, d));
    }
}

/// A tree depends only on what lies under its root.
pub proof fn lemma_same_tree(a: Seq<BucketTreeNode>, b: Seq<BucketTreeNode>, i: int)
    requires
        arena_ok(a),
        arena_ok(b),
        a.len() <= b.len(),
        0 <= i < a.len(),
        forall|j: int| #[trigger] under(a, i, j) ==> b[j] == a[j],
    ensures
        tree_at(a, i) == tree_at(b, i),
        forall|j: int| #[trigger] under(a, i, j) <==> under(b, i, j),
    decreases a.len() - i,
{
    assert(node_ok(a, i));
    assert(under(a, i, i));
    match a[i].data {
        BucketTreeNodeData::Leaf(_) => {
            assert forall|j: int| #[trigger] under(a, i, j) <==> under(b, i, j) by {}
        },
        BucketTreeNodeData::LeftRight(l, r) => {
            assert forall|j: int| #[trigger] under(a, l as int, j) implies b[j] == a[j] by {
                assert(under(a, i, j));
            }
            assert forall|j: int| #[trigger] under(a, r as int, j) implies b[j] == a[j] by {
                assert(under(a, i, j));
            }
            lemma_same_tree(a, b, l as int);
            lemma_same_tree(a, b, r as int);
            assert forall|j: int| #[trigger] under(a, i, j) <==> under(b, i, j) by {
                assert(under(a, l as int, j) <==> under(b, l as int, j));
                assert(under(a, r as int, j) <==> under(b, r as int, j));
            }
        },
    }
}

/// Two nodes stand for the same range.
pub open spec fn same_range(a: BucketTreeNode, b: BucketTreeNode) -> bool {
    a.bits == b.bits && a.start == b.start && a.end_inclusive == b.end_inclusive
}

proof fn lemma_bucket_placed(
    nodes: Seq<RoutingTableNode>,
    new: RoutingTableNode,
    start: Seq<u8>,
    depth: int,
)
    requires
        bucket_ok(nodes, start, depth),
        nodes.len() < BUCKET_MAX_SIZE,
        agree(new.id@, start, depth),
        forall|k: int| 0 <= k < nodes.len() ==> (#[trigger] nodes[k]).id@ != new.id@,
    ensures
        bucket_ok(placed(nodes, new), start, depth),
{
    lemma_placed(nodes, new);
    lemma_rank_of(nodes, new.id@);
    let p = placed(nodes, new);
    let r = crate::dht::routing_table::bucket::id_rank(nodes, new.id@);
    assert forall|k: int| 0 <= k < p.len() implies agree((#[trigger] p[k]).id@, start, depth) by {
        if k < r {
            assert(p[k] == nodes[k]);
        } else if k > r {
            assert(p[k] == nodes[k - 1]);
        }
    }
}

proof fn lemma_bucket_removed(nodes: Seq<RoutingTableNode>, k: int, start: Seq<u8>, depth: int)
    requires
        bucket_ok(nodes, start, depth),
        0 <= k < nodes.len(),
    ensures
        bucket_ok(nodes.remove(k), start, depth),
        forall|j: int|
            0 <= j < nodes.len() - 1 ==> nodes.contains(#[trigger] nodes.remove(k)[j]),
{
    lemma_removed(nodes, k);
    let p = nodes.remove(k);
    assert forall|j: int| 0 <= j < p.len() implies agree((#[trigger] p[j]).id@, start, depth)
        && nodes.contains(p[j]) by {
        let m = if j < k {
            j
        } else {
            j + 1
        };
        assert(p[j] == nodes[m]);
    }
}

/// The nodes of one half share one bit more.
proof fn lemma_bucket_side(
    nodes: Seq<RoutingTableNode>,
    start: Seq<u8>,
    depth: int,
    half: Seq<u8>,
    v: bool,
)
    requires
        bucket_ok(nodes, start, depth),
        0 <= depth < 160,
        agree(half, start, depth),
        bit(half, depth) == v,
    ensures
        bucket_ok(side(nodes, depth, v), half, depth + 1),
{
    lemma_side(nodes, depth, v);
    let s = side(nodes, depth, v);
    assert forall|k: int| 0 <= k < s.len() implies agree(
        (#[trigger] s[k]).id@,
        half,
        depth + 1,
    ) by {
        let m = nodes.index_of(s[k]);
        assert(nodes[m] == s[k]);
        let id = s[k].id@;
        assert forall|j: int| 0 <= j < depth + 1 implies #[trigger] bit(id, j) == bit(half, j) by {
            if j < depth {
                assert(bit(nodes[m].id@, j) == bit(start, j));
                assert(bit(half, j) == bit(start, j));
            }
        }
    }
}

/// The two halves of a range: the lower one, then the upper one.
fn compute_split(start: InfoHash, end: InfoHash, bits: u8) -> (r: (
    (InfoHash, InfoHash),
    (InfoHash, InfoHash),
))
    requires
        0 < bits <= 160,
    ensures
        r.0.0 == start,
        r.1.1 == end,
        forall|j: int|
            0 <= j < 160 ==> #[trigger] bit(r.0.1@, j) == if j == 160 - bits {
                false
            } else {
                bit(end@, j)
            },
        forall|j: int|
            0 <= j < 160 ==> #[trigger] bit(r.1.0@, j) == if j == 160 - bits {
                true
            } else {
                bit(start@, j)
            },
{
    let changing: u8 = 160 - bits;
    ((start, end.with_bit(changing, false)), (start.with_bit(changing, true), end))
}

impl BucketTree {
    /// Replaces the contents of a bucket.
    fn set_leaf(&mut self, idx: usize, nodes: Vec<RoutingTableNode>, refreshed: u64)
        requires
            arena_ok(old(self).data@),
            idx < old(self).data@.len(),
            old(self).data@[idx as int].data is Leaf,
            bucket_ok(
                nodes@,
                old(self).data@[idx as int].start@,
                depth_of(old(self).data@[idx as int]),
            ),
        ensures
            arena_ok(final(self).data@),
            final(self).data@.len() == old(self).data@.len(),
            forall|j: int|
                0 <= j < old(self).data@.len() && j != idx ==> #[trigger] final(self).data@[j]
                    == old(self).data@[j],
            same_range(final(self).data@[idx as int], old(self).data@[idx as int]),
            tree_at(final(self).data@, idx as int) == (Tree::Leaf { nodes: nodes@, refreshed }),
            final(self).size == old(self).size,
            final(self).max_size == old(self).max_size,
    {
        let ghost before = self.data@;
        let bits: u8 = self.data[idx].bits;
        let start: InfoHash = self.data[idx].start;
        let end_inclusive: InfoHash = self.data[idx].end_inclusive;
        let leaf = LeafBucket { nodes, last_refreshed: refreshed };
        self.data.set(
            idx,
            BucketTreeNode { bits, start, end_inclusive, data: BucketTreeNodeData::Leaf(leaf) },
        );
        proof {
            let after = self.data@;
            assert(node_ok(before, idx as int));
            assert forall|i: int| 0 <= i < after.len() implies #[trigger] node_ok(after, i) by {
                assert(node_ok(before, i));
            }
        }
    }

    /// Splits a bucket by the next bit of the ids.
    fn split_at(&mut self, idx: usize, now: u64)
        requires
            arena_ok(old(self).data@),
            idx < old(self).data@.len(),
            old(self).data@[idx as int].data is Leaf,
            old(self).data@[idx as int].bits > 0,
        ensures
            arena_ok(final(self).data@),
            final(self).data@.len() == old(self).data@.len() + 2,
            forall|j: int|
                0 <= j < old(self).data@.len() && j != idx ==> #[trigger] final(self).data@[j]
                    == old(self).data@[j],
            same_range(final(self).data@[idx as int], old(self).data@[idx as int]),
            final(self).data@[idx as int].data == BucketTreeNodeData::LeftRight(
                old(self).data@.len() as usize,
                (old(self).data@.len() + 1) as usize,
            ),
            old(self).data@.len() + 1 <= usize::MAX,
            tree_at(final(self).data@, idx as int) == split_leaf(
                old(self).data@[idx as int].data->Leaf_0.nodes@,
                depth_of(old(self).data@[idx as int]),
                now,
            ),
            final(self).size == old(self).size,
            final(self).max_size == old(self).max_size,
    {
        let ghost before = self.data@;
        let ghost node = before[idx as int];
        let ghost d = depth_of(node);
        proof {
            assert(node_ok(before, idx as int));
        }
        let bits: u8 = self.data[idx].bits;
        let start: InfoHash = self.data[idx].start;
        let end_inclusive: InfoHash = self.data[idx].end_inclusive;
        let (left_nodes, right_nodes) = match &self.data[idx].data {
            BucketTreeNodeData::Leaf(leaf) => (
                take_side(&leaf.nodes, 160 - bits, false),
                take_side(&leaf.nodes, 160 - bits, true),
            ),
            BucketTreeNodeData::LeftRight(_, _) => (Vec::new(), Vec::new()),
        };
        let (low, high) = compute_split(start, end_inclusive, bits);
        let left = BucketTreeNode {
            bits: bits - 1,
            start: low.0,
            end_inclusive: low.1,
            data: BucketTreeNodeData::Leaf(
                LeafBucket { nodes: left_nodes, last_refreshed: now },
            ),
        };
        let right = BucketTreeNode {
            bits: bits - 1,
            start: high.0,
            end_inclusive: high.1,
            data: BucketTreeNodeData::Leaf(
                LeafBucket { nodes: right_nodes, last_refreshed: now },
            ),
        };
        let left_idx: usize = self.data.len();
        self.data.push(left);
        let right_idx: usize = self.data.len();
        self.data.push(right);
        self.data.set(
            idx,
            BucketTreeNode {
                bits,
                start,
                end_inclusive,
                data: BucketTreeNodeData::LeftRight(left_idx, right_idx),
            },
        );
        proof {
            let after = self.data@;
            let nodes = node.data->Leaf_0.nodes@;
            assert(bounds_ok(left)) by {
                assert forall|j: int| 0 <= j < d + 1 implies #[trigger] bit(left.start@, j) == bit(
                    left.end_inclusive@,
                    j,
                ) by {
                    assert(bit(node.start@, j) == bit(left.start@, j));
                    if j < d {
                        assert(bit(node.start@, j) == bit(node.end_inclusive@, j));
                    }
                }
            }
            assert(bounds_ok(right)) by {
                assert forall|j: int| 0 <= j < d + 1 implies #[trigger] bit(right.start@, j) == bit(
                    right.end_inclusive@,
                    j,
                ) by {
                    if j < d {
                        assert(bit(node.start@, j) == bit(node.end_inclusive@, j));
                    }
                }
            }
            assert(agree(right.start@, node.start@, d));
            lemma_bucket_side(nodes, node.start@, d, left.start@, false);
            lemma_bucket_side(nodes, node.start@, d, right.start@, true);
            assert forall|i: int| 0 <= i < after.len() implies #[trigger] node_ok(after, i) by {
                if i == left_idx {
                    assert(after[i] == left);
                } else if i == right_idx {
                    assert(after[i] == right);
                } else {
                    assert(node_ok(before, i));
                    if i == idx {
                        assert(after[left_idx as int] == left);
                        assert(after[right_idx as int] == right);
                    }
                }
            }
            assert(tree_at(after, left_idx as int) == (Tree::Leaf {
                nodes: side(nodes, d, false),
                refreshed: now,
            }));
            assert(tree_at(after, right_idx as int) == (Tree::Leaf {
                nodes: side(nodes, d, true),
                refreshed: now,
            }));
        }
    }

    /// Offers a node to the part of the tree at `idx`, in whose range its id
    /// lies.
    fn insert_at(&mut self, idx: usize, self_id: &InfoHash, new: RoutingTableNode, now: u64) -> (r:
        InsertResult)
        requires
            arena_ok(old(self).data@),
            idx < old(self).data@.len(),
            agree(
                new.id@,
                old(self).data@[idx as int].start@,
                depth_of(old(self).data@[idx as int]),
            ),
        ensures
            arena_ok(final(self).data@),
            final(self).data@.len() >= old(self).data@.len(),
            forall|j: int|
                0 <= j < old(self).data@.len() && !under(old(self).data@, idx as int, j)
                    ==> #[trigger] final(self).data@[j] == old(self).data@[j],
            same_range(final(self).data@[idx as int], old(self).data@[idx as int]),
            (tree_at(final(self).data@, idx as int), r) == tree_insert(
                tree_at(old(self).data@, idx as int),
                depth_of(old(self).data@[idx as int]),
                self_id@,
                new,
                now,
                old(self).size >= old(self).max_size,
            ),
            final(self).size == old(self).size + if r is Added {
                1int
            } else {
                0int
            },
            final(self).max_size == old(self).max_size,
        decreases old(self).data@[idx as int].bits,
    {
        let ghost before = self.data@;
        let ghost node = before[idx as int];
        let ghost d = depth_of(node);
        proof {
            assert(node_ok(before, idx as int));
            assert(under(before, idx as int, idx as int));
        }
        let bits: u8 = self.data[idx].bits;
        let nodes: Vec<RoutingTableNode> = match &self.data[idx].data {
            BucketTreeNodeData::LeftRight(l, r) => {
                let (left, right) = (*l, *r);
                let upper: bool = new.id.get_bit(160 - bits);
                let half: usize = if upper {
                    right
                } else {
                    left
                };
                proof {
                    lemma_agree_next(new.id@, node.start@, before[half as int].start@, d);
                }
                let result = self.insert_at(half, self_id, new, now);
                proof {
                    let after = self.data@;
                    let other = if upper {
                        left as int
                    } else {
                        right as int
                    };
                    if under(before, half as int, idx as int) {
                        lemma_under(before, half as int, idx as int);
                    }
                    assert forall|j: int| #[trigger] under(before, other, j) implies after[j]
                        == before[j] by {
                        lemma_under(before, other, j);
                        lemma_halves_apart(before, idx as int, j);
                    }
                    lemma_same_tree(before, after, other);
                    assert(after[idx as int] == before[idx as int]);
                }
                return result;
            },
            BucketTreeNodeData::Leaf(leaf) => copy_nodes(&leaf.nodes),
        };
        proof {
            lemma_position(nodes@, new.id@);
            lemma_first_bad(nodes@, now);
        }
        if find_node(&nodes, &new.id).is_some() {
            return InsertResult::WasExisting;
        }
        if let Some(k) = find_bad(&nodes, now) {
            let mut kept = nodes;
            proof {
                lemma_bucket_removed(kept@, k as int, node.start@, d);
            }
            let bad = kept.remove(k);
            proof {
                assert forall|j: int| 0 <= j < kept@.len() implies (#[trigger] kept@[j]).id@
                    != new.id@ by {
                    assert(nodes@.contains(nodes@.remove(k as int)[j]));
                }
                lemma_bucket_placed(kept@, new, node.start@, d);
            }
            place_node(&mut kept, new);
            self.set_leaf(idx, kept, now);
            return InsertResult::ReplacedBad(bad);
        }
        if self.size >= self.max_size {
            return InsertResult::Ignored;
        }
        if nodes.len() < BUCKET_MAX_SIZE {
            let mut kept = nodes;
            proof {
                lemma_bucket_placed(kept@, new, node.start@, d);
            }
            place_node(&mut kept, new);
            self.set_leaf(idx, kept, now);
            self.size = self.size + 1;
            return InsertResult::Added;
        }
        proof {
            lemma_in_range(node, self_id@);
            lemma_full_bucket(nodes@, node.start@, d);
            lemma_agree_through(self_id@, new.id@, node.start@, d);
        }
        if self_id.less(&self.data[idx].start) || self.data[idx].end_inclusive.less(self_id) {
            return InsertResult::Ignored;
        }
        let left: usize = self.data.len();
        self.split_at(idx, now);
        let ghost halved = self.data@;
        let upper: bool = new.id.get_bit(160 - bits);
        let half: usize = if upper {
            left + 1
        } else {
            left
        };
        proof {
            assert(node_ok(halved, idx as int));
            lemma_agree_next(new.id@, node.start@, halved[half as int].start@, d);
            reveal_with_fuel(tree_insert, 3);
        }
        let result = self.insert_at(half, self_id, new, now);
        proof {
            let after = self.data@;
            let other = if upper {
                left as int
            } else {
                left + 1
            };
            assert forall|j: int| 0 <= j < before.len() implies !#[trigger] under(
                halved,
                half as int,
                j,
            ) by {
                if under(halved, half as int, j) {
                    lemma_under(halved, half as int, j);
                }
            }
            assert(!under(halved, half as int, idx as int));
            assert(after[idx as int] == halved[idx as int]);
            assert forall|j: int| #[trigger] under(halved, other, j) implies after[j]
                == halved[j] by {
                lemma_under(halved, other, j);
                lemma_halves_apart(halved, idx as int, j);
            }
            lemma_same_tree(halved, after, other);
            assert forall|j: int| 0 <= j < before.len() && !under(before, idx as int, j) implies
                #[trigger] after[j] == before[j] by {
                assert(j != idx);
                assert(!under(halved, half as int, j));
                assert(after[j] == halved[j]);
            }
        }
        result
    }

    /// Records an event of the node with an id, in whose range it lies.
    fn update_at(&mut self, idx: usize, id: &InfoHash, event: NodeEvent, now: u64) -> (r: bool)
        requires
            arena_ok(old(self).data@),
            idx < old(self).data@.len(),
            agree(id@, old(self).data@[idx as int].start@, depth_of(old(self).data@[idx as int])),
        ensures
            arena_ok(final(self).data@),
            final(self).data@.len() == old(self).data@.len(),
            forall|j: int|
                0 <= j < old(self).data@.len() && !under(old(self).data@, idx as int, j)
                    ==> #[trigger] final(self).data@[j] == old(self).data@[j],
            same_range(final(self).data@[idx as int], old(self).data@[idx as int]),
            tree_at(final(self).data@, idx as int) == tree_update(
                tree_at(old(self).data@, idx as int),
                depth_of(old(self).data@[idx as int]),
                id@,
                event,
                now,
            ),
            r == (tree_find(
                tree_at(old(self).data@, idx as int),
                depth_of(old(self).data@[idx as int]),
                id@,
            ) is Some),
            final(self).size == old(self).size,
            final(self).max_size == old(self).max_size,
        decreases old(self).data@[idx as int].bits,
    {
        let ghost before = self.data@;
        let ghost node = before[idx as int];
        let ghost d = depth_of(node);
        proof {
            assert(node_ok(before, idx as int));
            assert(under(before, idx as int, idx as int));
        }
        let bits: u8 = self.data[idx].bits;
        let (mut nodes, refreshed): (Vec<RoutingTableNode>, u64) = match &self.data[idx].data {
            BucketTreeNodeData::LeftRight(l, r) => {
                let (left, right) = (*l, *r);
                let upper: bool = id.get_bit(160 - bits);
                let half: usize = if upper {
                    right
                } else {
                    left
                };
                proof {
                    lemma_agree_next(id@, node.start@, before[half as int].start@, d);
                }
                let result = self.update_at(half, id, event, now);
                proof {
                    let after = self.data@;
                    let other = if upper {
                        left as int
                    } else {
                        right as int
                    };
                    if under(before, half as int, idx as int) {
                        lemma_under(before, half as int, idx as int);
                    }
                    assert forall|j: int| #[trigger] under(before, other, j) implies after[j]
                        == before[j] by {
                        lemma_under(before, other, j);
                        lemma_halves_apart(before, idx as int, j);
                    }
                    lemma_same_tree(before, after, other);
                    assert(after[idx as int] == before[idx as int]);
                }
                return result;
            },
            BucketTreeNodeData::Leaf(leaf) => (copy_nodes(&leaf.nodes), leaf.last_refreshed),
        };
        match find_node(&nodes, id) {
            Some(k) => {
                let ghost held = nodes@;
                let changed = nodes[k].changed(event, now);
                nodes.set(k, changed);
                let time: u64 = if event == NodeEvent::Response {
                    now
                } else {
                    refreshed
                };
                proof {
                    lemma_bucket_updated(held, k as int, changed, node.start@, d);
                }
                self.set_leaf(idx, nodes, time);
                true
            },
            None => false,
        }
    }

    /// The nodes of a part of the tree, ascending by their ids.
    fn nodes_at(&self, idx: usize) -> (r: Vec<RoutingTableNode>)
        requires
            arena_ok(self.data@),
            idx < self.data@.len(),
        ensures
            r@ == flat(tree_at(self.data@, idx as int)),
        decreases self.data@.len() - idx,
    {
        proof {
            assert(node_ok(self.data@, idx as int));
        }
        match &self.data[idx].data {
            BucketTreeNodeData::Leaf(leaf) => copy_nodes(&leaf.nodes),
            BucketTreeNodeData::LeftRight(l, r) => {
                let mut all = self.nodes_at(*l);
                let mut upper = self.nodes_at(*r);
                all.append(&mut upper);
                all
            },
        }
    }

    /// The places of the buckets of a part of the tree, ascending by their
    /// ranges.
    fn leaves_at(&self, idx: usize) -> (r: Vec<usize>)
        requires
            arena_ok(self.data@),
            idx < self.data@.len(),
        ensures
            r@ == leaf_places(self.data@, idx),
        decreases self.data@.len() - idx,
    {
        proof {
            assert(node_ok(self.data@, idx as int));
        }
        match &self.data[idx].data {
            BucketTreeNodeData::Leaf(_) => vec![idx],
            BucketTreeNodeData::LeftRight(l, r) => {
                let mut all = self.leaves_at(*l);
                let mut upper = self.leaves_at(*r);
                all.append(&mut upper);
                all
            },
        }
    }
}

/// The places of the buckets of a part of the tree, ascending by their ranges.
pub open spec fn leaf_places(data: Seq<BucketTreeNode>, i: usize) -> Seq<usize>
    decreases data.len() - i,
{
    match data[i as int].data {
        BucketTreeNodeData::Leaf(_) => seq![i],
        BucketTreeNodeData::LeftRight(l, r) => if i < l < data.len() && i < r < data.len() {
            leaf_places(data, l) + leaf_places(data, r)
        } else {
            seq![]
        },
    }
}

/// The node with an id.
pub open spec fn tree_find(t: Tree, depth: int, id: Seq<u8>) -> Option<RoutingTableNode>
    decreases t,
{
    match t {
        Tree::Split { left, right } => if bit(id, depth) {
            tree_find(*right, depth + 1, id)
        } else {
            tree_find(*left, depth + 1, id)
        },
        Tree::Leaf { nodes, .. } => match position_of_id(nodes, id) {
            Some(k) => Some(nodes[k]),
            None => None,
        },
    }
}

/// The tree after an event of the node with an id: the node changes, and an
/// answer refreshes its bucket.
pub open spec fn tree_update(t: Tree, depth: int, id: Seq<u8>, event: NodeEvent, now: u64) -> Tree
    decreases t,
{
    match t {
        Tree::Split { left, right } => if bit(id, depth) {
            Tree::Split {
                left,
                right: Box::new(tree_update(*right, depth + 1, id, event, now)),
            }
        } else {
            Tree::Split {
                left: Box::new(tree_update(*left, depth + 1, id, event, now)),
                right,
            }
        },
        Tree::Leaf { nodes, refreshed } => match position_of_id(nodes, id) {
            Some(k) => Tree::Leaf {
                nodes: nodes.update(k, nodes[k].after(event, now)),
                refreshed: if event == NodeEvent::Response {
                    now
                } else {
                    refreshed
                },
            },
            None => t,
        },
    }
}

proof fn lemma_bucket_updated(
    nodes: Seq<RoutingTableNode>,
    k: int,
    new: RoutingTableNode,
    start: Seq<u8>,
    depth: int,
)
    requires
        bucket_ok(nodes, start, depth),
        0 <= k < nodes.len(),
        new.id == nodes[k].id,
    ensures
        bucket_ok(nodes.update(k, new), start, depth),
{
    let p = nodes.update(k, new);
    assert forall|i: int| 0 <= i < p.len() implies (#[trigger] p[i]).id == nodes[i].id by {}
    assert forall|i: int, j: int| 0 <= i < j < p.len() implies lex_less(
        (#[trigger] p[i]).id@,
        (#[trigger] p[j]).id@,
    ) by {
        assert(lex_less(nodes[i].id@, nodes[j].id@));
    }
    assert forall|i: int| 0 <= i < p.len() implies agree((#[trigger] p[i]).id@, start, depth) by {
        assert(agree(nodes[i].id@, start, depth));
    }
}

/// An id that shares the bits of a range and the next bit of a half shares the
/// bits of the half.
proof fn lemma_agree_next(id: Seq<u8>, start: Seq<u8>, half: Seq<u8>, d: int)
    requires
        agree(id, start, d),
        agree(half, start, d),
        bit(half, d) == bit(id, d),
    ensures
        agree(id, half, d + 1),
{
    assert forall|j: int| 0 <= j < d + 1 implies #[trigger] bit(id, j) == bit(half, j) by {
        if j < d {
            assert(bit(id, j) == bit(start, j));
            assert(bit(half, j) == bit(start, j));
        }
    }
}

proof fn lemma_agree_through(a: Seq<u8>, b: Seq<u8>, start: Seq<u8>, d: int)
    requires
        agree(b, start, d),
    ensures
        agree(a, start, d) <==> agree(a, b, d),
{
    if agree(a, start, d) {
        assert forall|j: int| 0 <= j < d implies #[trigger] bit(a, j) == bit(b, j) by {
            assert(bit(a, j) == bit(start, j));
            assert(bit(b, j) == bit(start, j));
        }
    }
    if agree(a, b, d) {
        assert forall|j: int| 0 <= j < d implies #[trigger] bit(a, j) == bit(start, j) by {
            assert(bit(b, j) == bit(start, j));
            assert(bit(a, j) == bit(b, j));
        }
    }
}

impl View for BucketTree {
    type V = Tree;

    open spec fn view(&self) -> Tree {
        tree_at(self.data@, 0)
    }
}

impl BucketTree {
    /// The ranges are in order, and the size is the number of nodes.
    pub open spec fn wf(&self) -> bool {
        &&& arena_ok(self.data@)
        &&& self.size == flat(self@).len()
        &&& self.size <= self.max_size
    }

    /// A tree without nodes.
    pub fn new(max_size: usize, now: u64) -> (r: BucketTree)
        ensures
            r.wf(),
            r@ == (Tree::Leaf { nodes: seq![], refreshed: now }),
            r.max_size == max_size,
    {
        let nodes: Vec<RoutingTableNode> = Vec::new();
        let root = BucketTreeNode {
            bits: 160,
            start: InfoHash([0u8;20]),
            end_inclusive: InfoHash([255u8;20]),
            data: BucketTreeNodeData::Leaf(LeafBucket { nodes, last_refreshed: now }),
        };
        proof {
            assert(bounds_ok(root)) by {
                assert forall|j: int| 0 <= j < 160 implies !#[trigger] bit(root.start@, j) by {
                    assert(root.start@[j / 8] == 0u8);
                    lemma_byte_bounds((j % 8) as u8);
                }
                assert forall|j: int| 0 <= j < 160 implies #[trigger] bit(
                    root.end_inclusive@,
                    j,
                ) by {
                    assert(root.end_inclusive@[j / 8] == 255u8);
                    lemma_byte_bounds((j % 8) as u8);
                }
                assert(agree(root.start@, root.end_inclusive@, 0));
            }
            assert(nodes@ =~= seq![]);
        }
        let data: Vec<BucketTreeNode> = vec![root];
        proof {
            assert(node_ok(data@, 0));
            assert(arena_ok(data@));
        }
        BucketTree { data, size: 0, max_size }
    }

    /// Offers a node.
    pub fn add_node(
        &mut self,
        self_id: &InfoHash,
        id: InfoHash,
        addr: SocketAddr,
        now: u64,
    ) -> (r: InsertResult)
        requires
            old(self).wf(),
        ensures
            final(self).wf(),
            (final(self)@, r) == tree_insert(
                old(self)@,
                0,
                self_id@,
                RoutingTableNode::fresh(id, addr),
                now,
                old(self).size >= old(self).max_size,
            ),
            final(self).max_size == old(self).max_size,
    {
        proof {
            lemma_insert_count(
                self@,
                0,
                self_id@,
                RoutingTableNode::fresh(id, addr),
                now,
                self.size >= self.max_size,
            );
            lemma_insert_nodes(
                self@,
                0,
                self_id@,
                RoutingTableNode::fresh(id, addr),
                now,
                self.size >= self.max_size,
            );
        }
        self.insert_at(0, self_id, RoutingTableNode::new(id, addr), now)
    }

    /// Records an event of the node with an id, and tells whether there is
    /// one.
    pub fn update(&mut self, id: &InfoHash, event: NodeEvent, now: u64) -> (r: bool)
        requires
            old(self).wf(),
        ensures
            final(self).wf(),
            final(self)@ == tree_update(old(self)@, 0, id@, event, now),
            r == (position_of_id(flat(old(self)@), id@) is Some),
            flat(final(self)@) == match position_of_id(flat(old(self)@), id@) {
                Some(k) => flat(old(self)@).update(k, flat(old(self)@)[k].after(event, now)),
                None => flat(old(self)@),
            },
            final(self).size == old(self).size,
            final(self).max_size == old(self).max_size,
    {
        proof {
            assert(agree(id@, self.data@[0].start@, 0));
            lemma_find(self.data@, 0, id@, event, now);
        }
        self.update_at(0, id, event, now)
    }

    /// All nodes, ascending by their ids.
    pub fn iter_nodes(&self) -> (r: Vec<RoutingTableNode>)
        requires
            self.wf(),
        ensures
            r@ == flat(self@),
    {
        self.nodes_at(0)
    }

    /// The places of all buckets, ascending by their ranges.
    pub fn iter_leaves(&self) -> (r: Vec<usize>)
        requires
            self.wf(),
        ensures
            r@ == leaf_places(self.data@, 0),
    {
        self.leaves_at(0)
    }

    /// The tree with given parts, unless they do not make one.
    pub fn restore(data: Vec<BucketTreeNode>, size: usize, max_size: usize) -> (r: Option<
        BucketTree,
    >)
        ensures
            match r {
                Some(t) => t.wf() && t.data == data && t.size == size && t.max_size == max_size,
                None => !(BucketTree { data, size, max_size }).wf(),
            },
    {
        if data.len() == 0 || data[0].bits != 160 || size > max_size {
            return None;
        }
        let mut i: usize = 0;
        while i < data.len()
            invariant
                i <= data.len(),
                forall|k: int| 0 <= k < i ==> #[trigger] node_ok(data@, k),
            decreases data.len() - i,
        {
            if !check_node(&data, i) {
                return None;
            }
            i += 1;
        }
        let tree = BucketTree { data, size, max_size };
        let held: Vec<RoutingTableNode> = tree.nodes_at(0);
        if held.len() != size {
            return None;
        }
        Some(tree)
    }
}

proof fn lemma_byte_bounds(k: u8)
    requires
        k < 8,
    ensures
        !bit_of(0u8, k as int),
        bit_of(255u8, k as int),
{
    let s = (7 - k) as u8;
    assert((0u8 >> s) & 1u8 == 0u8 && (255u8 >> s) & 1u8 == 1u8) by (bit_vector)
        requires
            s < 8,
    ;
}

/// Tests whether two ids agree in their first bits.
fn agrees(a: &InfoHash, b: &InfoHash, n: u8) -> (r: bool)
    requires
        n <= 160,
    ensures
        r == agree(a@, b@, n as int),
{
    let mut i: u8 = 0;
    while i < n
        invariant
            i <= n <= 160,
            agree(a@, b@, i as int),
        decreases n - i,
    {
        if a.get_bit(i) != b.get_bit(i) {
            return false;
        }
        i += 1;
    }
    true
}

/// Tests the bounds of a range.
fn check_bounds(n: &BucketTreeNode) -> (r: bool)
    ensures
        r == bounds_ok(*n),
{
    if n.bits > 160 {
        return false;
    }
    let depth: u8 = 160 - n.bits;
    if !agrees(&n.start, &n.end_inclusive, depth) {
        return false;
    }
    let mut i: u8 = depth;
    while i < 160
        invariant
            depth <= i <= 160,
            depth == depth_of(*n),
            forall|j: int| depth <= j < i ==> !#[trigger] bit(n.start@, j),
            forall|j: int| depth <= j < i ==> #[trigger] bit(n.end_inclusive@, j),
        decreases 160 - i,
    {
        if n.start.get_bit(i) || !n.end_inclusive.get_bit(i) {
            return false;
        }
        i += 1;
    }
    true
}

/// Tests the nodes of a bucket.
fn check_bucket(nodes: &Vec<RoutingTableNode>, start: &InfoHash, depth: u8) -> (r: bool)
    requires
        depth <= 160,
    ensures
        r == bucket_ok(nodes@, start@, depth as int),
{
    if nodes.len() > BUCKET_MAX_SIZE {
        return false;
    }
    let mut j: usize = 0;
    while j < nodes.len()
        invariant
            j <= nodes.len(),
            depth <= 160,
            forall|a: int, b: int|
                0 <= a < b < j ==> lex_less((#[trigger] nodes@[a]).id@, (#[trigger] nodes@[b]).id@),
            forall|k: int| 0 <= k < j ==> agree((#[trigger] nodes@[k]).id@, start@, depth as int),
        decreases nodes.len() - j,
    {
        if !agrees(&nodes[j].id, start, depth) {
            return false;
        }
        let mut i: usize = 0;
        while i < j
            invariant
                i <= j < nodes.len(),
                forall|a: int| 0 <= a < i ==> lex_less((#[trigger] nodes@[a]).id@, nodes@[j as int].id@),
            decreases j - i,
        {
            if !nodes[i].id.less(&nodes[j].id) {
                return false;
            }
            i += 1;
        }
        j += 1;
    }
    true
}

/// Tests one range of a tree.
fn check_node(data: &Vec<BucketTreeNode>, i: usize) -> (r: bool)
    requires
        i < data.len(),
    ensures
        r == node_ok(data@, i as int),
{
    let n = &data[i];
    if !check_bounds(n) {
        return false;
    }
    let depth: u8 = 160 - n.bits;
    match &n.data {
        BucketTreeNodeData::Leaf(leaf) => check_bucket(&leaf.nodes, &n.start, depth),
        BucketTreeNodeData::LeftRight(l, r) => {
            let (left, right) = (*l, *r);
            if !(i < left && left < data.len() && i < right && right < data.len()) {
                return false;
            }
            check_half(n, &data[left], false) && check_half(n, &data[right], true)
        },
    }
}

/// Tests whether a range is the half of another.
fn check_half(n: &BucketTreeNode, half: &BucketTreeNode, v: bool) -> (r: bool)
    requires
        n.bits <= 160,
    ensures
        r == half_ok(*n, *half, v),
{
    if n.bits == 0 || half.bits != n.bits - 1 {
        return false;
    }
    let depth: u8 = 160 - n.bits;
    agrees(&half.start, &n.start, depth) && half.start.get_bit(depth) == v
}

} // verus!
