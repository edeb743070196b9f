//! The routing table of a node.

use crate::bytes::{lemma_lex_irreflexive, lemma_lex_total, lemma_lex_transitive, lex_less};
use crate::dht::bits::{agree, bit};
use crate::dht::routing_table::bucket::{ascending_ids, position_of_id};
use crate::dht::routing_table::laws::{lemma_flat_ascending, lemma_insert_nodes, nodes_after};
use crate::dht::routing_table::node::{NodeEvent, NodeStatus, RoutingTableNode};
use crate::dht::routing_table::tree::{flat, leaf_places, tree_insert, tree_update, BucketTree,
    BucketTreeNode, BucketTreeNodeData, InsertResult, LeafBucket, Tree};
use crate::net::SocketAddr;
use crate::outside::random_u8;
use crate::types::{array20, xor_bytes, InfoHash};
use vstd::prelude::*;
use vstd::seq_lib::{to_multiset_build, to_multiset_insert, to_multiset_remove};

verus! {

/// How many nodes a table holds.
pub const DEFAULT_MAX_SIZE: usize = 512;

/// The known nodes, in buckets around the table's own id.
#[derive(Debug)]
pub struct RoutingTable {
    pub id: InfoHash,
    pub size: usize,
    pub buckets: BucketTree,
}

/// A bucket with its range.
pub struct BucketTreeIteratorItem<'a> {
    pub bits: u8,
    pub start: &'a InfoHash,
    pub end_inclusive: &'a InfoHash,
    pub leaf: &'a LeafBucket,
}

/// Good nodes come first, then questionable, unknown and bad ones.
pub open spec fn status_rank(s: NodeStatus) -> int {
    match s {
        NodeStatus::Good => 0,
        NodeStatus::Questionable => 1,
        NodeStatus::Unknown => 2,
        NodeStatus::Bad => 3,
    }
}

/// One node comes before another: its status is better, or it is the same and
/// the id is closer to the target.
pub open spec fn comes_before(
    a: RoutingTableNode,
    b: RoutingTableNode,
    target: Seq<u8>,
    now: u64,
) -> bool {
    let ra = status_rank(a.status_at(now));
    let rb = status_rank(b.status_at(now));
    ra < rb || ra == rb && lex_less(xor_bytes(target, a.id@), xor_bytes(target, b.id@))
}

/// The same nodes, none before one that comes before it.
pub open spec fn in_order_of_closeness(
    nodes: Seq<RoutingTableNode>,
    sorted: Seq<RoutingTableNode>,
    target: Seq<u8>,
    now: u64,
) -> bool {
    &&& sorted.to_multiset() == nodes.to_multiset()
    &&& forall|i: int, j: int|
        0 <= i < j < sorted.len() ==> !comes_before(
            #[trigger] sorted[j],
            #[trigger] sorted[i],
            target,
            now,
        )
}

/// The addresses of the good and questionable nodes, in order.
pub open spec fn usable_addresses(nodes: Seq<RoutingTableNode>, now: u64) -> Seq<SocketAddr>
    decreases nodes.len(),
{
    if nodes.len() == 0 {
        seq![]
    } else {
        let rest = usable_addresses(nodes.drop_last(), now);
        let status = nodes.last().status_at(now);
        if status == NodeStatus::Good || status == NodeStatus::Questionable {
            rest.push(nodes.last().addr)
        } else {
            rest
        }
    }
}

/// The first `k` of a sequence, or all of it.
pub open spec fn at_most<T>(s: Seq<T>, k: int) -> Seq<T> {
    if k < s.len() {
        s.take(k)
    } else {
        s
    }
}

fn rank_of(s: NodeStatus) -> (r: u8)
    ensures
        r == status_rank(s),
{
    match s {
        NodeStatus::Good => 0,
        NodeStatus::Questionable => 1,
        NodeStatus::Unknown => 2,
        NodeStatus::Bad => 3,
    }
}

fn is_before(a: &RoutingTableNode, b: &RoutingTableNode, target: &InfoHash, now: u64) -> (r: bool)
    ensures
        r == comes_before(*a, *b, target@, now),
{
    let ra: u8 = rank_of(a.status(now));
    let rb: u8 = rank_of(b.status(now));
    ra < rb || ra == rb && target.distance(&a.id).less(&target.distance(&b.id))
}

/// What is not before the middle is not before what the middle is not before.
proof fn lemma_order(
    a: RoutingTableNode,
    b: RoutingTableNode,
    c: RoutingTableNode,
    target: Seq<u8>,
    now: u64,
)
    ensures
        !comes_before(a, a, target, now),
        comes_before(a, b, target, now) ==> !comes_before(b, a, target, now),
        comes_before(a, b, target, now) && !comes_before(c, b, target, now) ==> !comes_before(
            c,
            a,
            target,
            now,
        ),
        !comes_before(b, a, target, now) && !comes_before(c, b, target, now) ==> !comes_before(
            c,
            a,
            target,
            now,
        ),
{
    let x = xor_bytes(target, a.id@);
    let y = xor_bytes(target, b.id@);
    let z = xor_bytes(target, c.id@);
    lemma_lex_irreflexive(x);
    lemma_lex_irreflexive(y);
    lemma_lex_total(x, y);
    lemma_lex_total(y, z);
    lemma_lex_total(x, z);
    if lex_less(x, y) && lex_less(y, x) {
        lemma_lex_transitive(x, y, x);
    }
    if lex_less(x, y) && lex_less(y, z) {
        lemma_lex_transitive(x, y, z);
    }
    if lex_less(x, z) && lex_less(z, x) {
        lemma_lex_transitive(x, z, x);
    }
    if lex_less(z, x) && lex_less(x, y) {
        lemma_lex_transitive(z, x, y);
    }
    if lex_less(y, z) && lex_less(z, x) {
        lemma_lex_transitive(y, z, x);
    }
}

/// Two different ids are at different distances from a target.
proof fn lemma_distances_differ(target: Seq<u8>, a: Seq<u8>, b: Seq<u8>)
    requires
        target.len() == 20,
        a.len() == 20,
        b.len() == 20,
        a != b,
    ensures
        xor_bytes(target, a) != xor_bytes(target, b),
{
    let i = choose|i: int| 0 <= i < 20 && a[i] != b[i];
    assert(0 <= i < 20 && a[i] != b[i]) by {
        if forall|i: int| 0 <= i < 20 ==> a[i] == b[i] {
            assert(a =~= b);
        }
    }
    let t = target[i];
    let x = a[i];
    let y = b[i];
    assert(x != y ==> (t ^ x) != (t ^ y)) by (bit_vector);
    assert(xor_bytes(target, a)[i] == t ^ x);
    assert(xor_bytes(target, b)[i] == t ^ y);
}

impl RoutingTable {
    /// All nodes, ascending by their ids.
    pub open spec fn nodes(&self) -> Seq<RoutingTableNode> {
        flat(self.buckets@)
    }

    pub open spec fn wf(&self) -> bool {
        self.buckets.wf()
    }

    /// The table holds as many nodes as it may.
    pub open spec fn is_full(&self) -> bool {
        self.buckets.size >= self.buckets.max_size
    }

    /// There is one bucket, without nodes.
    pub open spec fn is_fresh(&self, id: InfoHash, now: u64) -> bool {
        &&& self.id == id
        &&& self.size == 0
        &&& self.buckets.max_size == DEFAULT_MAX_SIZE
        &&& self.buckets@ == (Tree::Leaf { nodes: seq![], refreshed: now })
        &&& self.nodes() == Seq::<RoutingTableNode>::empty()
    }

    /// A table without nodes.
    pub fn new(id: InfoHash, now: u64) -> (r: RoutingTable)
        ensures
            r.wf(),
            r.is_fresh(id, now),
    {
        RoutingTable { id, buckets: BucketTree::new(DEFAULT_MAX_SIZE, now), size: 0 }
    }

    /// The table with given buckets; its size is the number of their nodes.
    pub fn restore(id: InfoHash, buckets: BucketTree) -> (r: RoutingTable)
        requires
            buckets.wf(),
        ensures
            r.wf(),
            r.id == id,
            r.buckets == buckets,
            r.size == r.nodes().len(),
    {
        let size: usize = buckets.iter_nodes().len();
        RoutingTable { id, size, buckets }
    }

    /// The table's own id.
    pub fn id(&self) -> (r: InfoHash)
        ensures
            r == self.id,
    {
        self.id
    }

    /// How many nodes were taken in so far.
    pub fn len(&self) -> (r: usize)
        ensures
            r == self.size,
    {
        self.size
    }

    /// All nodes, ascending by their ids.
    pub fn iter_nodes(&self) -> (r: Vec<RoutingTableNode>)
        requires
            self.wf(),
        ensures
            r@ == self.nodes(),
    {
        self.buckets.iter_nodes()
    }

    /// All buckets, ascending by their ranges.
    pub fn iter_buckets(&self) -> (r: Vec<BucketTreeIteratorItem<'_>>)
        requires
            self.wf(),
        ensures
            r@.len() == leaf_places(self.buckets.data@, 0).len(),
            forall|i: int|
                0 <= i < r@.len() ==> (#[trigger] r@[i]).of_place(
                    self.buckets.data@[leaf_places(self.buckets.data@, 0)[i] as int],
                ),
    {
        let places: Vec<usize> = self.buckets.iter_leaves();
        let data: &Vec<BucketTreeNode> = &self.buckets.data;
        proof {
            lemma_places_are_leaves(data@, 0);
        }
        let mut out: Vec<BucketTreeIteratorItem<'_>> = Vec::new();
        let mut i: usize = 0;
        while i < places.len()
            invariant
                i <= places.len(),
                places@ == leaf_places(data@, 0),
                out@.len() == i,
                forall|k: int|
                    0 <= k < places@.len() ==> (#[trigger] places@[k]) < data@.len()
                        && data@[places@[k] as int].data is Leaf,
                forall|k: int|
                    0 <= k < i ==> (#[trigger] out@[k]).of_place(data@[places@[k] as int]),
            decreases places.len() - i,
        {
            let node = &data[places[i]];
            if let BucketTreeNodeData::Leaf(leaf) = &node.data {
                out.push(
                    BucketTreeIteratorItem {
                        bits: node.bits,
                        start: &node.start,
                        end_inclusive: &node.end_inclusive,
                        leaf,
                    },
                );
            }
            i += 1;
        }
        out
    }

    /// All nodes: the better ones first, and among equals the closer ones.
    pub fn sorted_by_distance_from(&self, target: InfoHash, now: u64) -> (r: Vec<RoutingTableNode>)
        requires
            self.wf(),
        ensures
            in_order_of_closeness(self.nodes(), r@, target@, now),
    {
        let nodes: Vec<RoutingTableNode> = self.buckets.iter_nodes();
        let mut sorted: Vec<RoutingTableNode> = Vec::new();
        let mut n: usize = 0;
        assert(nodes@.take(0) =~= seq![]);
        assert(sorted@ =~= seq![]);
        while n < nodes.len()
            invariant
                n <= nodes.len(),
                in_order_of_closeness(nodes@.take(n as int), sorted@, target@, now),
            decreases nodes.len() - n,
        {
            let node: RoutingTableNode = nodes[n];
            let mut p: usize = sorted.len();
            while p > 0 && is_before(&node, &sorted[p - 1], &target, now)
                invariant
                    p <= sorted.len(),
                    forall|i: int|
                        p <= i < sorted@.len() ==> comes_before(
                            node,
                            #[trigger] sorted@[i],
                            target@,
                            now,
                        ),
                decreases p,
            {
                p -= 1;
            }
            let ghost before = sorted@;
            sorted.insert(p, node);
            proof {
                assert(nodes@.take(n + 1) =~= nodes@.take(n as int).push(node));
                to_multiset_build(nodes@.take(n as int), node);
                to_multiset_insert(before, p as int, node);
                lemma_inserted_in_order(before, p as int, node, target@, now);
            }
            n += 1;
        }
        assert(nodes@.take(n as int) =~= nodes@);
        sorted
    }

    /// The addresses of up to `k` good or questionable nodes, the closest to
    /// the target first.
    pub fn closest_nodes(&self, target: InfoHash, k: usize, now: u64) -> (r: Vec<SocketAddr>)
        requires
            self.wf(),
        ensures
            exists|sorted: Seq<RoutingTableNode>|
                #![trigger usable_addresses(sorted, now)]
                in_order_of_closeness(self.nodes(), sorted, target@, now) && r@ == at_most(
                    usable_addresses(sorted, now),
                    k as int,
                ),
    {
        let sorted: Vec<RoutingTableNode> = self.sorted_by_distance_from(target, now);
        let mut out: Vec<SocketAddr> = Vec::new();
        let mut i: usize = 0;
        assert(sorted@.take(0) =~= seq![]);
        assert(out@ =~= seq![]);
        while i < sorted.len()
            invariant
                i <= sorted.len(),
                out@ == at_most(usable_addresses(sorted@.take(i as int), now), k as int),
            decreases sorted.len() - i,
        {
            let status: NodeStatus = sorted[i].status(now);
            let ghost before = usable_addresses(sorted@.take(i as int), now);
            assert(sorted@.take(i + 1).drop_last() =~= sorted@.take(i as int));
            if (status == NodeStatus::Good || status == NodeStatus::Questionable) && out.len() < k {
                out.push(sorted[i].addr);
            }
            i += 1;
            assert(out@ =~= at_most(usable_addresses(sorted@.take(i as int), now), k as int));
        }
        assert(sorted@.take(i as int) =~= sorted@);
        out
    }

    /// The table after a node was offered, with what became of the node.
    pub open spec fn after_offer(
        self,
        id: InfoHash,
        addr: SocketAddr,
        now: u64,
        r: InsertResult,
        then: RoutingTable,
    ) -> bool {
        let new = RoutingTableNode::fresh(id, addr);
        &&& then.wf()
        &&& (then.buckets@, r) == tree_insert(
            self.buckets@,
            0,
            self.id@,
            new,
            now,
            self.is_full(),
        )
        &&& then.nodes().to_multiset() == nodes_after(self.nodes().to_multiset(), new, r)
        &&& then.id == self.id
        &&& then.buckets.max_size == self.buckets.max_size
        &&& then.size == if (r is Added || r is ReplacedBad) && self.size < usize::MAX {
            self.size + 1
        } else {
            self.size as int
        }
    }

    /// Offers a node that was heard of.
    pub fn add_node(&mut self, id: InfoHash, addr: SocketAddr, now: u64) -> (r: InsertResult)
        requires
            old(self).wf(),
        ensures
            old(self).after_offer(id, addr, now, r, *final(self)),
    {
        proof {
            lemma_insert_nodes(
                self.buckets@,
                0,
                self.id@,
                RoutingTableNode::fresh(id, addr),
                now,
                self.is_full(),
            );
        }
        let own: InfoHash = self.id;
        let result = self.buckets.add_node(&own, id, addr, now);
        let taken: bool = match &result {
            InsertResult::ReplacedBad(_) => true,
            InsertResult::Added => true,
            InsertResult::WasExisting => false,
            InsertResult::Ignored => false,
        };
        if taken && self.size < usize::MAX {
            self.size = self.size + 1;
        }
        result
    }

    /// The table after an event of the node with an id.
    pub open spec fn after_event(
        self,
        id: Seq<u8>,
        event: NodeEvent,
        now: u64,
        then: RoutingTable,
    ) -> bool {
        &&& then.wf()
        &&& then.id == self.id
        &&& then.size == self.size
        &&& then.buckets.max_size == self.buckets.max_size
        &&& then.buckets@ == tree_update(self.buckets@, 0, id, event, now)
        &&& then.nodes() == match position_of_id(self.nodes(), id) {
            Some(k) => self.nodes().update(k, self.nodes()[k].after(event, now)),
            None => self.nodes(),
        }
    }

    /// Records that a request was sent to a node.
    pub fn mark_outgoing_request(&mut self, id: &InfoHash, now: u64) -> (r: bool)
        requires
            old(self).wf(),
        ensures
            old(self).after_event(id@, NodeEvent::Request, now, *final(self)),
            r == (position_of_id(old(self).nodes(), id@) is Some),
    {
        self.buckets.update(id, NodeEvent::Request, now)
    }

    /// Records that a node answered.
    pub fn mark_response(&mut self, id: &InfoHash, now: u64) -> (r: bool)
        requires
            old(self).wf(),
        ensures
            old(self).after_event(id@, NodeEvent::Response, now, *final(self)),
            r == (position_of_id(old(self).nodes(), id@) is Some),
    {
        self.buckets.update(id, NodeEvent::Response, now)
    }

    /// Records that a node did not answer.
    pub fn mark_error(&mut self, id: &InfoHash) -> (r: bool)
        requires
            old(self).wf(),
        ensures
            old(self).after_event(id@, NodeEvent::Failure, 0, *final(self)),
            r == (position_of_id(old(self).nodes(), id@) is Some),
    {
        self.buckets.update(id, NodeEvent::Failure, 0)
    }

    /// Records that a node sent a query.
    pub fn mark_last_query(&mut self, id: &InfoHash, now: u64) -> (r: bool)
        requires
            old(self).wf(),
        ensures
            old(self).after_event(id@, NodeEvent::Query, now, *final(self)),
            r == (position_of_id(old(self).nodes(), id@) is Some),
    {
        self.buckets.update(id, NodeEvent::Query, now)
    }
}

/// A node put behind all that it does not come before keeps the order.
proof fn lemma_inserted_in_order(
    s: Seq<RoutingTableNode>,
    p: int,
    node: RoutingTableNode,
    target: Seq<u8>,
    now: u64,
)
    requires
        0 <= p <= s.len(),
        forall|i: int, j: int|
            0 <= i < j < s.len() ==> !comes_before(
                #[trigger] s[j],
                #[trigger] s[i],
                target,
                now,
            ),
        forall|i: int| p <= i < s.len() ==> comes_before(node, #[trigger] s[i], target, now),
        p > 0 ==> !comes_before(node, s[p - 1], target, now),
    ensures
        forall|i: int, j: int|
            0 <= i < j < s.len() + 1 ==> !comes_before(
                #[trigger] s.insert(p, node)[j],
                #[trigger] s.insert(p, node)[i],
                target,
                now,
            ),
{
    let t = s.insert(p, node);
    assert forall|i: int, j: int| 0 <= i < j < t.len() implies !comes_before(
        #[trigger] t[j],
        #[trigger] t[i],
        target,
        now,
    ) by {
        if j < p {
            assert(t[i] == s[i] && t[j] == s[j]);
        } else if j == p {
            assert(t[i] == s[i]);
            if i < p - 1 {
                assert(!comes_before(s[p - 1], s[i], target, now));
                lemma_order(s[i], s[p - 1], node, target, now);
            }
        } else if i == p {
            assert(t[j] == s[j - 1]);
            lemma_order(node, s[j - 1], node, target, now);
        } else {
            let i2 = if i < p {
                i
            } else {
                i - 1
            };
            assert(t[i] == s[i2] && t[j] == s[j - 1]);
        }
    }
}

/// The places of buckets hold buckets.
pub proof fn lemma_places_are_leaves(data: Seq<BucketTreeNode>, i: usize)
    requires
        crate::dht::routing_table::tree::arena_ok(data),
        i < data.len(),
    ensures
        forall|k: int|
            0 <= k < leaf_places(data, i).len() ==> (#[trigger] leaf_places(data, i)[k])
                < data.len() && data[leaf_places(data, i)[k] as int].data is Leaf,
    decreases data.len() - i,
{
    assert(crate::dht::routing_table::tree::node_ok(data, i as int));
    match data[i as int].data {
        BucketTreeNodeData::Leaf(_) => {},
        BucketTreeNodeData::LeftRight(l, r) => {
            lemma_places_are_leaves(data, l);
            lemma_places_are_leaves(data, r);
            let a = leaf_places(data, l);
            let b = leaf_places(data, r);
            assert forall|k: int| 0 <= k < (a + b).len() implies (#[trigger] (a + b)[k])
                < data.len() && data[(a + b)[k] as int].data is Leaf by {
                if k < a.len() {
                    assert((a + b)[k] == a[k]);
                } else {
                    assert((a + b)[k] == b[k - a.len()]);
                }
            }
        },
    }
}

impl BucketTreeIteratorItem<'_> {
    /// The bucket and range that stand at a place of the tree.
    pub open spec fn of_place(&self, n: BucketTreeNode) -> bool {
        &&& self.bits == n.bits
        &&& *self.start == n.start
        &&& *self.end_inclusive == n.end_inclusive
        &&& n.data == BucketTreeNodeData::Leaf(*self.leaf)
    }

    /// A random id of the range.
    pub fn random_id(&self) -> (r: InfoHash)
        requires
            self.bits <= 160,
        ensures
            agree(r@, self.start@, 160 - self.bits),
    {
        generate_random_id(self.start, self.bits)
    }
}

/// A random id that shares all but the last `bits` bits with `start`.
pub fn generate_random_id(start: &InfoHash, bits: u8) -> (r: InfoHash)
    requires
        bits <= 160,
    ensures
        agree(r@, start@, 160 - bits),
{
    let mut v: Vec<u8> = Vec::new();
    while v.len() < 20
        invariant
            v.len() <= 20,
        decreases 20 - v.len(),
    {
        v.push(random_u8());
    }
    with_prefix(InfoHash(array20(v.as_slice())), start, bits)
}

/// An id with the leading bits of another, all but the last `bits`.
pub fn with_prefix(id: InfoHash, start: &InfoHash, bits: u8) -> (r: InfoHash)
    requires
        bits <= 160,
    ensures
        forall|j: int|
            0 <= j < 160 ==> #[trigger] bit(r@, j) == if j < 160 - bits {
                bit(start@, j)
            } else {
                bit(id@, j)
            },
{
    let shared: u8 = 160 - bits;
    let mut out: InfoHash = id;
    let mut i: u8 = 0;
    while i < shared
        invariant
            i <= shared <= 160,
            forall|j: int|
                0 <= j < 160 ==> #[trigger] bit(out@, j) == if j < i {
                    bit(start@, j)
                } else {
                    bit(id@, j)
                },
        decreases shared - i,
    {
        out = out.with_bit(i, start.get_bit(i));
        i += 1;
    }
    out
}

/// Ids ascend strictly over the whole table, so that no id occurs twice, and
/// there are never more nodes than the table may hold.
pub proof fn law_ids_unique(t: RoutingTable)
    requires
        t.wf(),
    ensures
        ascending_ids(t.nodes()),
        t.nodes().len() <= t.buckets.max_size,
{
    lemma_flat_ascending(t.buckets.data@, 0);
}

/// No bucket holds more than eight nodes, and each node lies in the range of
/// its bucket.
pub proof fn law_buckets(t: RoutingTable, i: int)
    requires
        t.wf(),
        0 <= i < t.buckets.data@.len(),
        t.buckets.data@[i].data is Leaf,
    ensures
        t.buckets.data@[i].data->Leaf_0.nodes@.len() <= 8,
        forall|k: int|
            0 <= k < t.buckets.data@[i].data->Leaf_0.nodes@.len() ==> agree(
                (#[trigger] t.buckets.data@[i].data->Leaf_0.nodes@[k]).id@,
                t.buckets.data@[i].start@,
                160 - t.buckets.data@[i].bits,
            ),
{
    assert(crate::dht::routing_table::tree::node_ok(t.buckets.data@, i));
}

/// A node of the table is known: offering its id again changes nothing.
pub proof fn law_known_node(t: RoutingTable, id: InfoHash, addr: SocketAddr, now: u64)
    requires
        t.wf(),
        position_of_id(t.nodes(), id@) is Some,
    ensures
        tree_insert(
            t.buckets@,
            0,
            t.id@,
            RoutingTableNode::fresh(id, addr),
            now,
            t.is_full(),
        ) == (t.buckets@, InsertResult::WasExisting),
{
    assert(agree(id@, t.buckets.data@[0].start@, 0));
    lemma_known(t.buckets.data@, 0, t.id@, RoutingTableNode::fresh(id, addr), now, t.is_full());
}

proof fn lemma_known(
    data: Seq<BucketTreeNode>,
    i: int,
    self_id: Seq<u8>,
    new: RoutingTableNode,
    now: u64,
    full: bool,
)
    requires
        crate::dht::routing_table::tree::arena_ok(data),
        0 <= i < data.len(),
        agree(new.id@, data[i].start@, crate::dht::routing_table::tree::depth_of(data[i])),
        position_of_id(flat(crate::dht::routing_table::tree::tree_at(data, i)), new.id@) is Some,
    ensures
        tree_insert(
            crate::dht::routing_table::tree::tree_at(data, i),
            crate::dht::routing_table::tree::depth_of(data[i]),
            self_id,
            new,
            now,
            full,
        ) == (crate::dht::routing_table::tree::tree_at(data, i), InsertResult::WasExisting),
    decreases data.len() - i,
{
    crate::dht::routing_table::laws::lemma_find(data, i, new.id@, NodeEvent::Query, now);
    assert(crate::dht::routing_table::tree::node_ok(data, i));
    if let BucketTreeNodeData::LeftRight(l, r) = data[i].data {
        let d = crate::dht::routing_table::tree::depth_of(data[i]);
        let c = if bit(new.id@, d) {
            r as int
        } else {
            l as int
        };
        assert forall|j: int| 0 <= j < d + 1 implies #[trigger] bit(new.id@, j) == bit(
            data[c].start@,
            j,
        ) by {
            if j < d {
                assert(bit(new.id@, j) == bit(data[i].start@, j));
                assert(bit(data[c].start@, j) == bit(data[i].start@, j));
            }
        }
        crate::dht::routing_table::laws::lemma_find(data, c, new.id@, NodeEvent::Query, now);
        lemma_known(data, c, self_id, new, now, full);
    }
}

/// The order of closeness leaves no choice: no two nodes of a table are equally
/// close.
pub proof fn law_closeness_unique(
    t: RoutingTable,
    a: Seq<RoutingTableNode>,
    b: Seq<RoutingTableNode>,
    target: InfoHash,
    now: u64,
)
    requires
        t.wf(),
        in_order_of_closeness(t.nodes(), a, target@, now),
        in_order_of_closeness(t.nodes(), b, target@, now),
    ensures
        a == b,
{
    broadcast use vstd::seq_lib::group_to_multiset_ensures;

    law_ids_unique(t);
    let nodes = t.nodes();
    assert forall|x: RoutingTableNode, y: RoutingTableNode|
        #[trigger] a.contains(x) && #[trigger] a.contains(y) && x.id@ == y.id@ implies x == y by {
        assert(nodes.to_multiset().count(x) > 0 && nodes.to_multiset().count(y) > 0);
        let i = nodes.index_of(x);
        let j = nodes.index_of(y);
        if i < j {
            assert(lex_less(nodes[i].id@, nodes[j].id@));
        } else if j < i {
            assert(lex_less(nodes[j].id@, nodes[i].id@));
        }
        lemma_lex_irreflexive(x.id@);
    }
    lemma_order_unique(a, b, target@, now);
}

proof fn lemma_order_unique(
    a: Seq<RoutingTableNode>,
    b: Seq<RoutingTableNode>,
    target: Seq<u8>,
    now: u64,
)
    requires
        target.len() == 20,
        in_order_of_closeness(a, b, target, now),
        in_order_of_closeness(a, a, target, now),
        forall|x: RoutingTableNode, y: RoutingTableNode|
            #[trigger] a.contains(x) && #[trigger] a.contains(y) && x.id@ == y.id@ ==> x == y,
    ensures
        a == b,
    decreases a.len(),
{
    broadcast use vstd::seq_lib::group_to_multiset_ensures;

    assert(a.len() == a.to_multiset().len() && b.len() == b.to_multiset().len());
    if a.len() > 0 {
        let m = a.len() - 1;
        let x = a[m];
        let y = b[m];
        assert(a.to_multiset().count(x) > 0);
        assert(b.contains(x));
        assert(b.to_multiset().count(y) > 0);
        assert(a.contains(y));
        let i = a.index_of(y);
        let j = b.index_of(x);
        if x != y {
            assert(!comes_before(a[m], a[i], target, now));
            assert(!comes_before(b[m], b[j], target, now));
            let dx = xor_bytes(target, x.id@);
            let dy = xor_bytes(target, y.id@);
            lemma_lex_total(dx, dy);
            lemma_distances_differ(target, x.id@, y.id@);
        }
        let a2 = a.drop_last();
        let b2 = b.drop_last();
        assert(a2 =~= a.remove(m) && b2 =~= b.remove(m));
        to_multiset_remove(a, m);
        to_multiset_remove(b, m);
        assert forall|p: RoutingTableNode, q: RoutingTableNode|
            #[trigger] a2.contains(p) && #[trigger] a2.contains(q) && p.id@ == q.id@ implies p
            == q by {
            assert(a[a2.index_of(p)] == p && a[a2.index_of(q)] == q);
            assert(a.contains(p) && a.contains(q));
        }
        lemma_order_unique(a2, b2, target, now);
        assert(a =~= a2.push(x) && b =~= b2.push(y));
    } else {
        assert(a =~= b);
    }
}

} // verus!
