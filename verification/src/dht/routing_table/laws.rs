//! What holds of the nodes of a tree as a whole.

use crate::bytes::lex_less;
use crate::dht::bits::{agree, bit, lemma_parts_less, parts_at};
use crate::dht::routing_table::bucket::{
    ascending_ids, first_bad, id_rank, lemma_first_bad, lemma_position, lemma_rank_of,
    position_of_id, side, BUCKET_MAX_SIZE,
};
use crate::dht::routing_table::node::{NodeEvent, RoutingTableNode};
use crate::dht::routing_table::tree::{
    arena_ok, depth_of, flat, node_ok, split_leaf, tree_at, tree_find, tree_insert, tree_update,
    BucketTreeNode, BucketTreeNodeData, InsertResult, Tree,
};
use vstd::multiset::Multiset;
use vstd::prelude::*;
use vstd::seq_lib::{lemma_multiset_commutative, to_multiset_build, to_multiset_insert,
    to_multiset_len, to_multiset_remove};

verus! {

/// The ids of a part of the tree ascend and lie in its range.
pub proof fn lemma_flat_ascending(data: Seq<BucketTreeNode>, i: int)
    requires
        arena_ok(data),
        0 <= i < data.len(),
    ensures
        ascending_ids(flat(tree_at(data, i))),
        forall|k: int|
            0 <= k < flat(tree_at(data, i)).len() ==> agree(
                (#[trigger] flat(tree_at(data, i))[k]).id@,
                data[i].start@,
                depth_of(data[i]),
            ),
    decreases data.len() - i,
{
    assert(node_ok(data, i));
    match data[i].data {
        BucketTreeNodeData::Leaf(_) => {},
        BucketTreeNodeData::LeftRight(l, r) => {
            let d = depth_of(data[i]);
            let start = data[i].start@;
            lemma_flat_ascending(data, l as int);
            lemma_flat_ascending(data, r as int);
            let a = flat(tree_at(data, l as int));
            let b = flat(tree_at(data, r as int));
            let f = flat(tree_at(data, i));
            assert(f == a + b);
            assert forall|k: int| 0 <= k < f.len() implies agree(
                (#[trigger] f[k]).id@,
                start,
                d,
            ) && bit(f[k].id@, d) == (k >= a.len()) by {
                let c = if k < a.len() {
                    assert(f[k] == a[k]);
                    data[l as int].start@
                } else {
                    assert(f[k] == b[k - a.len()]);
                    data[r as int].start@
                };
                assert(agree(f[k].id@, c, d + 1));
                assert forall|j: int| 0 <= j < d implies #[trigger] bit(f[k].id@, j) == bit(
                    start,
                    j,
                ) by {
                    assert(bit(f[k].id@, j) == bit(c, j));
                    assert(bit(c, j) == bit(start, j));
                }
                assert(bit(f[k].id@, d) == bit(c, d));
            }
            assert forall|m: int, n: int| 0 <= m < n < f.len() implies lex_less(
                (#[trigger] f[m]).id@,
                (#[trigger] f[n]).id@,
            ) by {
                if n < a.len() {
                    assert(f[m] == a[m] && f[n] == a[n]);
                } else if m >= a.len() {
                    assert(f[m] == b[m - a.len()] && f[n] == b[n - a.len()]);
                } else {
                    let x = f[m].id@;
                    let y = f[n].id@;
                    assert(agree(x, start, d) && agree(y, start, d));
                    assert forall|j: int| 0 <= j < d implies #[trigger] bit(x, j) == bit(y, j) by {
                        assert(bit(x, j) == bit(start, j));
                        assert(bit(y, j) == bit(start, j));
                    }
                    assert(parts_at(x, y, d));
                    lemma_parts_less(x, y, d);
                }
            }
        },
    }
}

/// The position of an id in two sequences one after the other.
proof fn lemma_position_concat(
    a: Seq<RoutingTableNode>,
    b: Seq<RoutingTableNode>,
    id: Seq<u8>,
)
    ensures
        position_of_id(a + b, id) == match position_of_id(a, id) {
            Some(k) => Some(k),
            None => match position_of_id(b, id) {
                Some(k) => Some(a.len() + k),
                None => None::<int>,
            },
        },
    decreases b.len(),
{
    if b.len() == 0 {
        assert(a + b =~= a);
    } else {
        lemma_position_concat(a, b.drop_last(), id);
        assert((a + b).drop_last() =~= a + b.drop_last());
    }
}

/// The node with an id is found where its bits lead, and an event changes it
/// alone.
pub proof fn lemma_find(
    data: Seq<BucketTreeNode>,
    i: int,
    id: Seq<u8>,
    event: NodeEvent,
    now: u64,
)
    requires
        arena_ok(data),
        0 <= i < data.len(),
        agree(id, data[i].start@, depth_of(data[i])),
    ensures
        ({
            let t = tree_at(data, i);
            let d = depth_of(data[i]);
            match position_of_id(flat(t), id) {
                Some(k) => {
                    &&& 0 <= k < flat(t).len()
                    &&& tree_find(t, d, id) == Some(flat(t)[k])
                    &&& flat(tree_update(t, d, id, event, now)) == flat(t).update(
                        k,
                        flat(t)[k].after(event, now),
                    )
                },
                None => {
                    &&& tree_find(t, d, id) is None
                    &&& flat(tree_update(t, d, id, event, now)) == flat(t)
                },
            }
        }),
    decreases data.len() - i,
{
    assert(node_ok(data, i));
    let d = depth_of(data[i]);
    match data[i].data {
        BucketTreeNodeData::Leaf(b) => {
            lemma_position(b.nodes@, id);
        },
        BucketTreeNodeData::LeftRight(l, r) => {
            let a = flat(tree_at(data, l as int));
            let b = flat(tree_at(data, r as int));
            lemma_position_concat(a, b, id);
            lemma_position(a, id);
            lemma_position(b, id);
            lemma_flat_ascending(data, l as int);
            lemma_flat_ascending(data, r as int);
            let c = if bit(id, d) {
                r as int
            } else {
                l as int
            };
            assert(agree(id, data[c].start@, d + 1)) by {
                assert forall|j: int| 0 <= j < d + 1 implies #[trigger] bit(id, j) == bit(
                    data[c].start@,
                    j,
                ) by {
                    if j < d {
                        assert(bit(id, j) == bit(data[i].start@, j));
                        assert(bit(data[c].start@, j) == bit(data[i].start@, j));
                    }
                }
            }
            lemma_find(data, c, id, event, now);
            let t = tree_at(data, i);
            let f = flat(tree_update(t, d, id, event, now));
            if bit(id, d) {
                if let Some(k) = position_of_id(a, id) {
                    assert(agree(a[k].id@, data[l as int].start@, d + 1));
                    assert(bit(a[k].id@, d) == bit(data[l as int].start@, d));
                }
                if let Some(k) = position_of_id(b, id) {
                    assert(f =~= flat(t).update(a.len() + k, b[k].after(event, now)));
                } else {
                    assert(f =~= flat(t));
                }
            } else {
                if let Some(k) = position_of_id(b, id) {
                    assert(agree(b[k].id@, data[r as int].start@, d + 1));
                    assert(bit(b[k].id@, d) == bit(data[r as int].start@, d));
                }
                if let Some(k) = position_of_id(a, id) {
                    assert(f =~= flat(t).update(k, a[k].after(event, now)));
                } else {
                    assert(f =~= flat(t));
                }
            }
        },
    }
}

/// The two sides of a bucket hold its nodes.
proof fn lemma_sides(nodes: Seq<RoutingTableNode>, at: int)
    ensures
        (side(nodes, at, false) + side(nodes, at, true)).to_multiset() == nodes.to_multiset(),
    decreases nodes.len(),
{
    lemma_multiset_commutative(side(nodes, at, false), side(nodes, at, true));
    if nodes.len() > 0 {
        let init = nodes.drop_last();
        lemma_sides(init, at);
        lemma_multiset_commutative(side(init, at, false), side(init, at, true));
        assert(nodes =~= init.push(nodes.last()));
        to_multiset_build(init, nodes.last());
        let v = bit(nodes.last().id@, at);
        to_multiset_build(side(init, at, v), nodes.last());
        assert((side(nodes, at, false) + side(nodes, at, true)).to_multiset()
            =~= nodes.to_multiset());
    } else {
        assert(side(nodes, at, false) + side(nodes, at, true) =~= nodes);
    }
}

/// The nodes after a node was offered.
pub open spec fn nodes_after(
    before: Multiset<RoutingTableNode>,
    new: RoutingTableNode,
    result: InsertResult,
) -> Multiset<RoutingTableNode> {
    match result {
        InsertResult::Added => before.insert(new),
        InsertResult::ReplacedBad(old_node) => before.remove(old_node).insert(new),
        InsertResult::WasExisting => before,
        InsertResult::Ignored => before,
    }
}

/// Offering a node adds it, puts it in the place of a bad one, or leaves the
/// nodes as they are.
pub proof fn lemma_insert_nodes(
    t: Tree,
    depth: int,
    self_id: Seq<u8>,
    new: RoutingTableNode,
    now: u64,
    full: bool,
)
    ensures
        ({
            let r = tree_insert(t, depth, self_id, new, now, full);
            &&& flat(r.0).to_multiset() == nodes_after(flat(t).to_multiset(), new, r.1)
            &&& r.1 is ReplacedBad ==> flat(t).contains(r.1->ReplacedBad_0)
            &&& r.1 is Added ==> !full
        }),
    decreases 160 - depth, (if t is Leaf {
        1int
    } else {
        0int
    }),
{
    broadcast use vstd::seq_lib::group_to_multiset_ensures;

    let r = tree_insert(t, depth, self_id, new, now, full);
    match t {
        Tree::Split { left, right } => {
            if depth < 160 {
                lemma_multiset_commutative(flat(*left), flat(*right));
                if bit(new.id@, depth) {
                    let c = tree_insert(*right, depth + 1, self_id, new, now, full);
                    lemma_insert_nodes(*right, depth + 1, self_id, new, now, full);
                    lemma_multiset_commutative(flat(*left), flat(c.0));
                    if let InsertResult::ReplacedBad(b) = c.1 {
                        let k = flat(*right).index_of(b);
                        assert(flat(t)[flat(*left).len() + k] == b);
                        assert(flat(*right).to_multiset().count(b) > 0);
                    }
                } else {
                    let c = tree_insert(*left, depth + 1, self_id, new, now, full);
                    lemma_insert_nodes(*left, depth + 1, self_id, new, now, full);
                    lemma_multiset_commutative(flat(c.0), flat(*right));
                    if let InsertResult::ReplacedBad(b) = c.1 {
                        let k = flat(*left).index_of(b);
                        assert(flat(t)[k] == b);
                        assert(flat(*left).to_multiset().count(b) > 0);
                    }
                }
                assert(flat(r.0).to_multiset() =~= nodes_after(flat(t).to_multiset(), new, r.1));
            }
        },
        Tree::Leaf { nodes, refreshed } => {
            lemma_first_bad(nodes, now);
            lemma_rank_of(nodes, new.id@);
            if position_of_id(nodes, new.id@) is Some {
            } else if first_bad(nodes, now) is Some {
                let k = first_bad(nodes, now)->0;
                lemma_rank_of(nodes.remove(k), new.id@);
                to_multiset_remove(nodes, k);
                to_multiset_insert(nodes.remove(k), id_rank(nodes.remove(k), new.id@), new);
            } else if full {
            } else if nodes.len() < BUCKET_MAX_SIZE {
                to_multiset_insert(nodes, id_rank(nodes, new.id@), new);
            } else if agree(self_id, new.id@, depth) {
                let halves = split_leaf(nodes, depth, now);
                lemma_sides(nodes, depth);
                reveal_with_fuel(flat, 2);
                assert(flat(halves) == side(nodes, depth, false) + side(nodes, depth, true));
                lemma_insert_nodes(halves, depth, self_id, new, now, full);
                if let InsertResult::ReplacedBad(b) = r.1 {
                    assert(flat(halves).to_multiset().count(b) > 0);
                    assert(nodes.to_multiset().count(b) > 0);
                }
            }
        },
    }
}

/// How many nodes there are after a node was offered.
pub proof fn lemma_insert_count(
    t: Tree,
    depth: int,
    self_id: Seq<u8>,
    new: RoutingTableNode,
    now: u64,
    full: bool,
)
    ensures
        ({
            let r = tree_insert(t, depth, self_id, new, now, full);
            flat(r.0).len() == flat(t).len() + if r.1 is Added {
                1int
            } else {
                0int
            }
        }),
{
    broadcast use vstd::seq_lib::group_to_multiset_ensures;

    let r = tree_insert(t, depth, self_id, new, now, full);
    lemma_insert_nodes(t, depth, self_id, new, now, full);
    to_multiset_len(flat(r.0));
    to_multiset_len(flat(t));
    if let InsertResult::ReplacedBad(b) = r.1 {
        assert(flat(t).to_multiset().count(b) > 0);
    }
}

} // verus!
