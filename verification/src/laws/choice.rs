//! Which pieces are asked for.

use crate::laws::{lemma_says_piece, says_piece};
use crate::piece::manager::{PieceManager, MAX_CANDIDATES};
use crate::sort::{in_stable_order, is_stable_order, lemma_order_reaches};
use crate::types::FilePriority;
use vstd::prelude::*;

verus! {

/// A piece is worth asking a peer for: it is missing, nobody collects it, some
/// file that is wanted has bytes in it, and the peer has it.
pub open spec fn worth_asking(pm: PieceManager, bits: Seq<u8>, q: u32) -> bool {
    &&& q < pm.num_pieces
    &&& !pm.have@[q as int]
    &&& !pm.in_progress@.contains(q)
    &&& pm.piece_priorities@[q as int] != FilePriority::Skip
    &&& says_piece(bits, q as int)
}

/// A priority is higher than another: high, then normal, then low.
pub open spec fn higher(a: FilePriority, b: FilePriority) -> bool {
    match (a, b) {
        (FilePriority::High, FilePriority::Normal) => true,
        (FilePriority::High, FilePriority::Low) => true,
        (FilePriority::Normal, FilePriority::Low) => true,
        _ => false,
    }
}

/// A piece is rarer than another, or as rare with a lower number.
pub open spec fn rarer(pm: PieceManager, a: u32, b: u32) -> bool {
    let x = pm.piece_availability@[a as int];
    let y = pm.piece_availability@[b as int];
    x < y || (x == y && a < b)
}

proof fn lemma_wanted_list(pm: PieceManager, bits: Seq<u8>, n: int)
    requires
        pm.wf(),
        0 <= n <= pm.num_pieces,
    ensures
        forall|i: int, j: int|
            0 <= i < j < pm.wanted_below(bits, n).len() ==> (#[trigger] pm.wanted_below(bits, n)[i])
                < (#[trigger] pm.wanted_below(bits, n)[j]),
        forall|i: int|
            0 <= i < pm.wanted_below(bits, n).len() ==> (#[trigger] pm.wanted_below(bits, n)[i])
                < n && worth_asking(pm, bits, pm.wanted_below(bits, n)[i]),
        forall|q: u32|
            #![trigger worth_asking(pm, bits, q)]
            q < n && worth_asking(pm, bits, q) ==> pm.wanted_below(bits, n).contains(q),
    decreases n,
{
    if n > 0 {
        lemma_wanted_list(pm, bits, n - 1);
        lemma_says_piece(bits, n - 1);
        let before = pm.wanted_below(bits, n - 1);
        let all = pm.wanted_below(bits, n);
        assert forall|q: u32|
            #![trigger worth_asking(pm, bits, q)]
            q < n && worth_asking(pm, bits, q) implies all.contains(q) by {
            if q < n - 1 {
                assert(before.contains(q));
                let k = before.index_of(q);
                assert(all[k] == q);
            } else {
                assert(all[before.len() as int] == q);
            }
        }
        assert forall|i: int| 0 <= i < all.len() implies (#[trigger] all[i]) < n && worth_asking(
            pm,
            bits,
            all[i],
        ) by {
            if i < before.len() {
                assert(all[i] == before[i]);
            }
        }
        assert forall|i: int, j: int| 0 <= i < j < all.len() implies (#[trigger] all[i]) < (
        #[trigger] all[j]) by {
            assert(all[i] == before[i]);
            if j < before.len() {
                assert(all[j] == before[j]);
            }
        }
    }
}

/// A piece stands before another in the order of urgency.
spec fn sorted_before(pm: PieceManager, a: u32, b: u32) -> bool {
    let x = pm.urgency(a);
    let y = pm.urgency(b);
    x.0 < y.0 || (x.0 == y.0 && (x.1 < y.1 || (x.1 == y.1 && a < b)))
}

proof fn lemma_order_step(pm: PieceManager, list: Seq<u32>, order: Seq<usize>, i: int, j: int)
    requires
        is_stable_order(pm.urgencies(list), order),
        forall|a: int, b: int| 0 <= a < b < list.len() ==> (#[trigger] list[a]) < (#[trigger] list[b]),
        0 <= i < j < order.len(),
    ensures
        sorted_before(pm, list[order[i] as int], list[order[j] as int]),
{
    let keys = pm.urgencies(list);
    assert(in_stable_order(keys, order[i], order[j]));
    assert(order[i] < keys.len() && order[j] < keys.len());
    let a = order[i] as int;
    let b = order[j] as int;
    assert(keys[a] == pm.urgency(list[a]) && keys[b] == pm.urgency(list[b]));
    if a < b {
        assert(list[a] < list[b]);
    }
}

proof fn lemma_picked_shape(pm: PieceManager, list: Seq<u32>, order: Seq<usize>, n: int)
    requires
        is_stable_order(pm.urgencies(list), order),
        forall|a: int, b: int| 0 <= a < b < list.len() ==> (#[trigger] list[a]) < (#[trigger] list[b]),
        0 <= n <= list.len(),
    ensures
        pm.picked(list, order, n).len() <= 10,
        forall|i: int|
            0 <= i < pm.picked(list, order, n).len() ==> exists|k: int|
                0 <= k < n && list[(#[trigger] order[k]) as int] == (#[trigger] pm.picked(
                    list,
                    order,
                    n,
                )[i]) && pm.near_best(list[order[0] as int], list[order[k] as int]),
        forall|i: int, j: int|
            0 <= i < j < pm.picked(list, order, n).len() ==> sorted_before(
                pm,
                #[trigger] pm.picked(list, order, n)[i],
                #[trigger] pm.picked(list, order, n)[j],
            ),
        forall|k: int|
            0 <= k < n && pm.near_best(list[order[0] as int], list[(#[trigger] order[k]) as int])
                ==> pm.picked(list, order, n).contains(list[order[k] as int]) || (pm.picked(
                list,
                order,
                n,
            ).len() == 10 && sorted_before(
                pm,
                pm.picked(list, order, n)[9],
                list[order[k] as int],
            )),
    decreases n,
{
    if n > 0 {
        lemma_picked_shape(pm, list, order, n - 1);
        let before = pm.picked(list, order, n - 1);
        let all = pm.picked(list, order, n);
        let new = list[order[n - 1] as int];
        assert forall|i: int| 0 <= i < before.len() implies sorted_before(
            pm,
            #[trigger] before[i],
            new,
        ) by {
            let k = choose|k: int|
                0 <= k < n - 1 && list[(#[trigger] order[k]) as int] == before[i] && pm.near_best(
                    list[order[0] as int],
                    list[order[k] as int],
                );
            lemma_order_step(pm, list, order, k, n - 1);
        }
        assert forall|i: int| 0 <= i < all.len() implies exists|k: int|
            0 <= k < n && list[(#[trigger] order[k]) as int] == (#[trigger] all[i])
                && pm.near_best(list[order[0] as int], list[order[k] as int]) by {
            if i < before.len() {
                assert(all[i] == before[i]);
                let k = choose|k: int|
                    0 <= k < n - 1 && list[(#[trigger] order[k]) as int] == before[i]
                        && pm.near_best(list[order[0] as int], list[order[k] as int]);
                assert(list[order[k] as int] == all[i]);
            } else {
                assert(list[order[n - 1] as int] == all[i]);
            }
        }
        assert forall|i: int, j: int| 0 <= i < j < all.len() implies sorted_before(
            pm,
            #[trigger] all[i],
            #[trigger] all[j],
        ) by {
            assert(all[i] == before[i]);
            if j < before.len() {
                assert(all[j] == before[j]);
            }
        }
        assert forall|k: int|
            0 <= k < n && pm.near_best(
                list[order[0] as int],
                list[(#[trigger] order[k]) as int],
            ) implies all.contains(list[order[k] as int]) || (all.len() == 10 && sorted_before(
            pm,
            all[9],
            list[order[k] as int],
        )) by {
            if k < n - 1 {
                if before.contains(list[order[k] as int]) {
                    let i = before.index_of(list[order[k] as int]);
                    assert(all[i] == before[i]);
                }
            } else if before.len() < MAX_CANDIDATES {
                assert(all[before.len() as int] == new);
            }
        }
    }
}

/// What is asked of a peer: of the pieces worth asking for, only such of the
/// highest priority among them; of these the rarest first, and none that was
/// seen at more than two peers more than the rarest; at most ten, and all of
/// them if they are fewer.
pub proof fn law_most_urgent_then_rarest(pm: PieceManager, bits: Seq<u8>, r: Seq<u32>)
    requires
        pm.wf(),
        pm.offers(bits, r),
    ensures
        r.len() <= 10,
        forall|i: int| 0 <= i < r.len() ==> worth_asking(pm, bits, #[trigger] r[i]),
        forall|i: int, q: u32|
            0 <= i < r.len() && #[trigger] worth_asking(pm, bits, q) ==> !higher(
                pm.piece_priorities@[q as int],
                pm.piece_priorities@[(#[trigger] r[i]) as int],
            ),
        forall|i: int, j: int| 0 <= i < j < r.len() ==> rarer(pm, #[trigger] r[i], #[trigger] r[j]),
        forall|i: int|
            0 <= i < r.len() ==> pm.piece_availability@[(#[trigger] r[i]) as int]
                <= pm.piece_availability@[r[0] as int] + 2,
        forall|q: u32| #[trigger]
            worth_asking(pm, bits, q) ==> r.len() > 0 && (pm.piece_priorities@[q as int]
                == pm.piece_priorities@[r[0] as int] ==> pm.piece_availability@[r[0] as int]
                <= pm.piece_availability@[q as int]),
        forall|q: u32| #[trigger]
            worth_asking(pm, bits, q) && pm.piece_priorities@[q as int]
                == pm.piece_priorities@[r[0] as int] && pm.piece_availability@[q as int]
                <= pm.piece_availability@[r[0] as int] + 2 ==> r.contains(q) || (r.len() == 10
                && rarer(pm, r[9], q)),
{
    let list = pm.wanted_below(bits, pm.num_pieces as int);
    let n = list.len() as int;
    let order = choose|order: Seq<usize>|
        is_stable_order(pm.urgencies(list), order) && r == #[trigger] pm.picked(list, order, n);
    let keys = pm.urgencies(list);
    lemma_wanted_list(pm, bits, pm.num_pieces as int);
    lemma_picked_shape(pm, list, order, n);
    if n > 0 {
        let best = list[order[0] as int];
        assert(order[0] < keys.len());
        assert(worth_asking(pm, bits, best));
        assert(pm.near_best(best, list[order[0] as int]));
        assert(pm.picked(list, order, 1).len() == 1) by {
            reveal_with_fuel(PieceManager::picked, 2);
        }
        lemma_picked_first(pm, list, order, n);
        assert(r[0] == best);
        assert forall|q: u32| #[trigger] worth_asking(pm, bits, q) implies exists|k: int|
            0 <= k < n && list[(#[trigger] order[k]) as int] == q by {
            assert(list.contains(q));
            let p = list.index_of(q);
            let k = lemma_order_reaches(keys, order, p);
            assert(list[order[k] as int] == q);
        }
        assert forall|q: u32| #[trigger] worth_asking(pm, bits, q) && q != best implies sorted_before(
            pm,
            best,
            q,
        ) by {
            let k = choose|k: int| 0 <= k < n && list[(#[trigger] order[k]) as int] == q;
            if k > 0 {
                lemma_order_step(pm, list, order, 0, k);
            }
        }
        assert forall|i: int| 0 <= i < r.len() implies pm.near_best(best, #[trigger] r[i])
            && worth_asking(pm, bits, r[i]) by {
            let k = choose|k: int|
                0 <= k < n && list[(#[trigger] order[k]) as int] == r[i] && pm.near_best(
                    best,
                    list[order[k] as int],
                );
            assert(order[k] < keys.len());
        }
        assert forall|q: u32| #[trigger]
            worth_asking(pm, bits, q) && pm.piece_priorities@[q as int]
                == pm.piece_priorities@[r[0] as int] && pm.piece_availability@[q as int]
                <= pm.piece_availability@[r[0] as int] + 2 implies r.contains(q) || (r.len() == 10
            && rarer(pm, r[9], q)) by {
            let k = choose|k: int| 0 <= k < n && list[(#[trigger] order[k]) as int] == q;
            assert(pm.near_best(best, list[order[k] as int]));
            if !r.contains(q) {
                assert(pm.near_best(best, r[9]));
            }
        }
        assert forall|i: int, j: int| 0 <= i < j < r.len() implies rarer(
            pm,
            #[trigger] r[i],
            #[trigger] r[j],
        ) by {
            assert(sorted_before(pm, r[i], r[j]));
            assert(pm.near_best(best, r[i]) && pm.near_best(best, r[j]));
        }
    } else {
        assert(r.len() == 0);
        assert forall|q: u32| #[trigger] worth_asking(pm, bits, q) implies false by {
            assert(list.contains(q));
        }
    }
}

proof fn lemma_picked_first(pm: PieceManager, list: Seq<u32>, order: Seq<usize>, n: int)
    requires
        0 < n,
    ensures
        pm.picked(list, order, n).len() > 0,
        pm.picked(list, order, n)[0] == list[order[0] as int],
    decreases n,
{
    if n == 1 {
        reveal_with_fuel(PieceManager::picked, 2);
    } else {
        lemma_picked_first(pm, list, order, n - 1);
    }
}

} // verus!
