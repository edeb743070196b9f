//! The nodes of one bucket, ascending by their ids.

use crate::bytes::{lemma_lex_total, lemma_lex_transitive, lex_less};
use crate::dht::bits::bit;
use crate::dht::routing_table::node::{NodeStatus, RoutingTableNode};
use crate::types::InfoHash;
use vstd::prelude::*;

verus! {

/// How many nodes a bucket holds.
pub const BUCKET_MAX_SIZE: usize = 8;

/// Ids ascend strictly, so none occurs twice.
pub open spec fn ascending_ids(nodes: Seq<RoutingTableNode>) -> bool {
    forall|i: int, j: int|
        0 <= i < j < nodes.len() ==> lex_less((#[trigger] nodes[i]).id@, (#[trigger] nodes[j]).id@)
}

/// The position of an id, if a node has it.
pub open spec fn position_of_id(nodes: Seq<RoutingTableNode>, id: Seq<u8>) -> Option<int>
    decreases nodes.len(),
{
    if nodes.len() == 0 {
        None
    } else {
        match position_of_id(nodes.drop_last(), id) {
            Some(k) => Some(k),
            None => if nodes.last().id@ == id {
                Some(nodes.len() - 1)
            } else {
                None
            },
        }
    }
}

/// The position of the first bad node, if there is one.
pub open spec fn first_bad(nodes: Seq<RoutingTableNode>, now: u64) -> Option<int>
    decreases nodes.len(),
{
    if nodes.len() == 0 {
        None
    } else {
        match first_bad(nodes.drop_last(), now) {
            Some(k) => Some(k),
            None => if nodes.last().status_at(now) == NodeStatus::Bad {
                Some(nodes.len() - 1)
            } else {
                None
            },
        }
    }
}

/// How many nodes have a smaller id, counted from the first.
pub open spec fn id_rank(nodes: Seq<RoutingTableNode>, id: Seq<u8>) -> int
    decreases nodes.len(),
{
    if nodes.len() == 0 || !lex_less(nodes[0].id@, id) {
        0
    } else {
        1 + id_rank(nodes.skip(1), id)
    }
}

/// The nodes with one more, at the place of its id.
pub open spec fn placed(nodes: Seq<RoutingTableNode>, new: RoutingTableNode) -> Seq<
    RoutingTableNode,
> {
    nodes.insert(id_rank(nodes, new.id@), new)
}

/// The nodes whose id has the given bit at a position, in order.
pub open spec fn side(nodes: Seq<RoutingTableNode>, at: int, v: bool) -> Seq<RoutingTableNode>
    decreases nodes.len(),
{
    if nodes.len() == 0 {
        nodes
    } else if bit(nodes.last().id@, at) == v {
        side(nodes.drop_last(), at, v).push(nodes.last())
    } else {
        side(nodes.drop_last(), at, v)
    }
}

pub proof fn lemma_position(nodes: Seq<RoutingTableNode>, id: Seq<u8>)
    ensures
        match position_of_id(nodes, id) {
            Some(k) => 0 <= k < nodes.len() && nodes[k].id@ == id,
            None => forall|k: int| 0 <= k < nodes.len() ==> (#[trigger] nodes[k]).id@ != id,
        },
    decreases nodes.len(),
{
    if nodes.len() > 0 {
        lemma_position(nodes.drop_last(), id);
        if position_of_id(nodes, id) is None {
            assert forall|k: int| 0 <= k < nodes.len() implies (#[trigger] nodes[k]).id@ != id by {
                if k < nodes.len() - 1 {
                    assert(nodes.drop_last()[k] == nodes[k]);
                }
            }
        }
    }
}

pub proof fn lemma_first_bad(nodes: Seq<RoutingTableNode>, now: u64)
    ensures
        match first_bad(nodes, now) {
            Some(k) => 0 <= k < nodes.len() && nodes[k].status_at(now) == NodeStatus::Bad,
            None => forall|k: int|
                0 <= k < nodes.len() ==> (#[trigger] nodes[k]).status_at(now) != NodeStatus::Bad,
        },
    decreases nodes.len(),
{
    if nodes.len() > 0 {
        lemma_first_bad(nodes.drop_last(), now);
        if first_bad(nodes, now) is None {
            assert forall|k: int| 0 <= k < nodes.len() implies (#[trigger] nodes[k]).status_at(now)
                != NodeStatus::Bad by {
                if k < nodes.len() - 1 {
                    assert(nodes.drop_last()[k] == nodes[k]);
                }
            }
        }
    }
}

pub proof fn lemma_rank_of(nodes: Seq<RoutingTableNode>, id: Seq<u8>)
    ensures
        0 <= id_rank(nodes, id) <= nodes.len(),
        forall|i: int| 0 <= i < id_rank(nodes, id) ==> lex_less((#[trigger] nodes[i]).id@, id),
        id_rank(nodes, id) < nodes.len() ==> !lex_less(nodes[id_rank(nodes, id)].id@, id),
    decreases nodes.len(),
{
    if nodes.len() > 0 && lex_less(nodes[0].id@, id) {
        lemma_rank_of(nodes.skip(1), id);
        assert forall|i: int| 0 <= i < id_rank(nodes, id) implies lex_less(
            (#[trigger] nodes[i]).id@,
            id,
        ) by {
            if i > 0 {
                assert(nodes.skip(1)[i - 1] == nodes[i]);
            }
        }
    }
}

/// A node with a new id keeps the ids ascending.
pub proof fn lemma_placed(nodes: Seq<RoutingTableNode>, new: RoutingTableNode)
    requires
        ascending_ids(nodes),
        forall|k: int| 0 <= k < nodes.len() ==> (#[trigger] nodes[k]).id@ != new.id@,
    ensures
        ascending_ids(placed(nodes, new)),
        placed(nodes, new).len() == nodes.len() + 1,
{
    let r = id_rank(nodes, new.id@);
    let p = placed(nodes, new);
    lemma_rank_of(nodes, new.id@);
    assert forall|i: int, j: int| 0 <= i < j < p.len() implies lex_less(
        (#[trigger] p[i]).id@,
        (#[trigger] p[j]).id@,
    ) by {
        if r < nodes.len() {
            lemma_lex_total(nodes[r].id@, new.id@);
        }
        if j == r {
            assert(p[i] == nodes[i]);
        } else if i == r {
            assert(p[j] == nodes[j - 1]);
            if j - 1 > r {
                lemma_lex_transitive(new.id@, nodes[r].id@, nodes[j - 1].id@);
            }
        } else {
            let i2 = if i < r {
                i
            } else {
                i - 1
            };
            let j2 = if j < r {
                j
            } else {
                j - 1
            };
            assert(p[i] == nodes[i2] && p[j] == nodes[j2]);
        }
    }
}

/// Leaving a node out keeps the ids ascending.
pub proof fn lemma_removed(nodes: Seq<RoutingTableNode>, k: int)
    requires
        ascending_ids(nodes),
        0 <= k < nodes.len(),
    ensures
        ascending_ids(nodes.remove(k)),
{
    let p = nodes.remove(k);
    assert forall|i: int, j: int| 0 <= i < j < p.len() implies lex_less(
        (#[trigger] p[i]).id@,
        (#[trigger] p[j]).id@,
    ) by {
        let i2 = if i < k {
            i
        } else {
            i + 1
        };
        let j2 = if j < k {
            j
        } else {
            j + 1
        };
        assert(p[i] == nodes[i2] && p[j] == nodes[j2]);
    }
}

/// The nodes on one side are some of the nodes, in the same order.
pub proof fn lemma_side(nodes: Seq<RoutingTableNode>, at: int, v: bool)
    requires
        ascending_ids(nodes),
    ensures
        ascending_ids(side(nodes, at, v)),
        side(nodes, at, v).len() <= nodes.len(),
        forall|k: int|
            0 <= k < side(nodes, at, v).len() ==> bit((#[trigger] side(nodes, at, v)[k]).id@, at)
                == v && nodes.contains(side(nodes, at, v)[k]),
    decreases nodes.len(),
{
    if nodes.len() > 0 {
        let init = nodes.drop_last();
        assert(ascending_ids(init)) by {
            assert forall|i: int, j: int| 0 <= i < j < init.len() implies lex_less(
                (#[trigger] init[i]).id@,
                (#[trigger] init[j]).id@,
            ) by {
                assert(init[i] == nodes[i] && init[j] == nodes[j]);
            }
        }
        lemma_side(init, at, v);
        let before = side(init, at, v);
        let s = side(nodes, at, v);
        assert forall|k: int| 0 <= k < s.len() implies bit((#[trigger] s[k]).id@, at) == v
            && nodes.contains(s[k]) by {
            if k < before.len() {
                assert(s[k] == before[k]);
                let m = init.index_of(before[k]);
                assert(nodes[m] == init[m]);
            } else {
                assert(nodes[nodes.len() - 1] == s[k]);
            }
        }
        assert forall|i: int, j: int| 0 <= i < j < s.len() implies lex_less(
            (#[trigger] s[i]).id@,
            (#[trigger] s[j]).id@,
        ) by {
            assert(s[i] == before[i]);
            if j < before.len() {
                assert(s[j] == before[j]);
            } else {
                assert(init.contains(before[i]));
                let m = init.index_of(before[i]);
                assert(nodes[m] == before[i]);
                assert(lex_less(nodes[m].id@, nodes[nodes.len() - 1].id@));
            }
        }
    }
}

/// Finds the node with an id.
pub fn find_node(nodes: &Vec<RoutingTableNode>, id: &InfoHash) -> (r: Option<usize>)
    ensures
        match r {
            Some(k) => position_of_id(nodes@, id@) == Some(k as int) && k < nodes@.len(),
            None => position_of_id(nodes@, id@) is None,
        },
{
    let mut found: Option<usize> = None;
    let mut i: usize = 0;
    assert(nodes@.take(0) =~= seq![]);
    while i < nodes.len()
        invariant
            i <= nodes.len(),
            match found {
                Some(k) => position_of_id(nodes@.take(i as int), id@) == Some(k as int) && k < i,
                None => position_of_id(nodes@.take(i as int), id@) is None,
            },
        decreases nodes.len() - i,
    {
        assert(nodes@.take(i + 1).drop_last() =~= nodes@.take(i as int));
        if found.is_none() && nodes[i].id.same(id) {
            found = Some(i);
        }
        i += 1;
    }
    assert(nodes@.take(i as int) =~= nodes@);
    found
}

/// Finds the first bad node.
pub fn find_bad(nodes: &Vec<RoutingTableNode>, now: u64) -> (r: Option<usize>)
    ensures
        match r {
            Some(k) => first_bad(nodes@, now) == Some(k as int) && k < nodes@.len(),
            None => first_bad(nodes@, now) is None,
        },
{
    let mut found: Option<usize> = None;
    let mut i: usize = 0;
    assert(nodes@.take(0) =~= seq![]);
    while i < nodes.len()
        invariant
            i <= nodes.len(),
            match found {
                Some(k) => first_bad(nodes@.take(i as int), now) == Some(k as int) && k < i,
                None => first_bad(nodes@.take(i as int), now) is None,
            },
        decreases nodes.len() - i,
    {
        assert(nodes@.take(i + 1).drop_last() =~= nodes@.take(i as int));
        if found.is_none() && nodes[i].status(now) == NodeStatus::Bad {
            found = Some(i);
        }
        i += 1;
    }
    assert(nodes@.take(i as int) =~= nodes@);
    found
}

/// Puts a node at the place of its id.
pub fn place_node(nodes: &mut Vec<RoutingTableNode>, new: RoutingTableNode)
    ensures
        final(nodes)@ == placed(old(nodes)@, new),
{
    let mut i: usize = 0;
    assert(nodes@.skip(0) =~= nodes@);
    while i < nodes.len() && nodes[i].id.less(&new.id)
        invariant
            i <= nodes.len(),
            nodes@ == old(nodes)@,
            id_rank(nodes@, new.id@) == i + id_rank(nodes@.skip(i as int), new.id@),
        decreases nodes.len() - i,
    {
        assert(nodes@.skip(i as int).skip(1) =~= nodes@.skip(i + 1));
        i += 1;
    }
    nodes.insert(i, new);
}

/// The nodes whose id has the given bit at a position.
pub fn take_side(nodes: &Vec<RoutingTableNode>, at: u8, v: bool) -> (r: Vec<RoutingTableNode>)
    requires
        at < 160,
    ensures
        r@ == side(nodes@, at as int, v),
{
    let mut out: Vec<RoutingTableNode> = Vec::new();
    let mut i: usize = 0;
    assert(nodes@.take(0) =~= seq![]);
    while i < nodes.len()
        invariant
            i <= nodes.len(),
            at < 160,
            out@ == side(nodes@.take(i as int), at as int, v),
        decreases nodes.len() - i,
    {
        assert(nodes@.take(i + 1).drop_last() =~= nodes@.take(i as int));
        if nodes[i].id.get_bit(at) == v {
            out.push(nodes[i]);
        }
        i += 1;
    }
    assert(nodes@.take(i as int) =~= nodes@);
    out
}

/// Copies nodes.
pub fn copy_nodes(nodes: &Vec<RoutingTableNode>) -> (r: Vec<RoutingTableNode>)
    ensures
        r@ == nodes@,
{
    let mut out: Vec<RoutingTableNode> = Vec::new();
    let mut i: usize = 0;
    while i < nodes.len()
        invariant
            i <= nodes.len(),
            out@ == nodes@.take(i as int),
        decreases nodes.len() - i,
    {
        out.push(nodes[i]);
        i += 1;
        assert(out@ =~= nodes@.take(i as int));
    }
    assert(out@ =~= nodes@);
    out
}

} // verus!
