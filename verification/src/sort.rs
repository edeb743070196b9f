//! Stable sorting.

use vstd::prelude::*;

verus! {

/// A type whose values can be sorted: a total preorder.
pub trait SortKey: Sized {
    /// `self` may stand before `other`.
    spec fn le(&self, other: &Self) -> bool;

    /// Any two values can stand in one order or the other.
    proof fn lemma_total(a: &Self, b: &Self)
        ensures
            a.le(b) || b.le(a),
    ;

    /// The order is transitive.
    proof fn lemma_transitive(a: &Self, b: &Self, c: &Self)
        requires
            a.le(b),
            b.le(c),
        ensures
            a.le(c),
    ;

    /// Tests whether `self` may stand before `other`.
    fn is_le(&self, other: &Self) -> (r: bool)
        ensures
            r == self.le(other),
    ;
}

/// `order` lists the positions of all keys so that the keys ascend, and equal
/// keys keep their order.
pub open spec fn is_stable_order<K: SortKey>(keys: Seq<K>, order: Seq<usize>) -> bool {
    &&& order.len() == keys.len()
    &&& forall|i: int| 0 <= i < order.len() ==> #[trigger] order[i] < keys.len()
    &&& forall|i: int, j: int|
        0 <= i < j < order.len() ==> in_stable_order(keys, #[trigger] order[i], #[trigger] order[j])
}

/// The key at `a` belongs before the one at `b`.
pub open spec fn in_stable_order<K: SortKey>(keys: Seq<K>, a: usize, b: usize) -> bool {
    &&& a != b
    &&& keys[a as int].le(&keys[b as int])
    &&& keys[b as int].le(&keys[a as int]) ==> a < b
}

/// Finds the stable ascending order of keys.
pub fn stable_order<K: SortKey>(keys: &Vec<K>) -> (order: Vec<usize>)
    ensures
        is_stable_order(keys@, order@),
{
    let mut order: Vec<usize> = Vec::new();
    let mut n: usize = 0;
    while n < keys.len()
        invariant
            n <= keys.len(),
            order.len() == n,
            forall|i: int| 0 <= i < n ==> #[trigger] order@[i] < n,
            forall|i: int, j: int|
                0 <= i < j < n ==> in_stable_order(
                    keys@,
                    #[trigger] order@[i],
                    #[trigger] order@[j],
                ),
        decreases keys.len() - n,
    {
        let mut p: usize = n;
        while p > 0 && !keys[order[p - 1]].is_le(&keys[n])
            invariant
                p <= n < keys.len(),
                order.len() == n,
                forall|i: int| 0 <= i < n ==> #[trigger] order@[i] < n,
                forall|i: int|
                    p <= i < n ==> !keys@[#[trigger] order@[i] as int].le(&keys@[n as int]),
            decreases p,
        {
            p -= 1;
        }
        let ghost before = order@;
        order.insert(p, n);
        proof {
            assert forall|i: int, j: int| 0 <= i < j < n + 1 implies in_stable_order(
                keys@,
                #[trigger] order@[i],
                #[trigger] order@[j],
            ) by {
                if j < p {
                    assert(order@[i] == before[i] && order@[j] == before[j]);
                } else if j == p {
                    assert(order@[i] == before[i]);
                    if i < p - 1 {
                        assert(in_stable_order(keys@, before[i], before[p - 1]));
                        K::lemma_transitive(
                            &keys@[before[i] as int],
                            &keys@[before[p - 1] as int],
                            &keys@[n as int],
                        );
                    }
                } else if i == p {
                    assert(order@[j] == before[j - 1]);
                    K::lemma_total(&keys@[n as int], &keys@[before[j - 1] as int]);
                } else if i < p {
                    assert(order@[i] == before[i] && order@[j] == before[j - 1]);
                } else {
                    assert(order@[i] == before[i - 1] && order@[j] == before[j - 1]);
                }
            }
            assert forall|i: int| 0 <= i < n + 1 implies #[trigger] order@[i] < n + 1 by {
                if i < p {
                    assert(order@[i] == before[i]);
                } else if i > p {
                    assert(order@[i] == before[i - 1]);
                }
            }
        }
        n += 1;
    }
    order
}

/// Where a stable order lists a position.
pub proof fn lemma_order_reaches<K: SortKey>(keys: Seq<K>, order: Seq<usize>, k: int) -> (i: int)
    requires
        is_stable_order(keys, order),
        0 <= k < keys.len(),
    ensures
        0 <= i < order.len(),
        order[i] == k,
{
    let positions = Seq::new(order.len(), |i: int| order[i] as int);
    let range = vstd::set_lib::set_int_range(0, keys.len() as int);
    vstd::set_lib::lemma_int_range(0, keys.len() as int);
    assert(positions.no_duplicates()) by {
        assert forall|i: int, j: int|
            0 <= i < positions.len() && 0 <= j < positions.len() && i != j implies positions[i]
            != positions[j] by {
            if i < j {
                assert(in_stable_order(keys, order[i], order[j]));
            } else {
                assert(in_stable_order(keys, order[j], order[i]));
            }
        }
    }
    positions.unique_seq_to_set();
    assert(positions.to_set().subset_of(range)) by {
        assert forall|x: int| positions.to_set().contains(x) implies range.contains(x) by {
            let i = choose|i: int| 0 <= i < positions.len() && positions[i] == x;
            assert(order[i] < keys.len());
        }
    }
    vstd::set_lib::lemma_subset_equality(positions.to_set(), range);
    assert(positions.to_set().contains(k));
    choose|i: int| 0 <= i < positions.len() && positions[i] == k
}

/// A stable order lists every position.
pub proof fn lemma_order_complete<K: SortKey>(keys: Seq<K>, order: Seq<usize>, k: usize)
    requires
        is_stable_order(keys, order),
        k < keys.len(),
    ensures
        order.contains(k),
{
    let i = lemma_order_reaches(keys, order, k as int);
    assert(order[i] == k);
}

/// Ascending 32-bit numbers.
impl SortKey for u32 {
    open spec fn le(&self, other: &u32) -> bool {
        *self <= *other
    }

    proof fn lemma_total(a: &u32, b: &u32) {
    }

    proof fn lemma_transitive(a: &u32, b: &u32, c: &u32) {
    }

    fn is_le(&self, other: &u32) -> (r: bool) {
        *self <= *other
    }
}

/// Pairs in ascending order of the first number, then of the second.
impl SortKey for (u8, u32) {
    open spec fn le(&self, other: &(u8, u32)) -> bool {
        self.0 < other.0 || (self.0 == other.0 && self.1 <= other.1)
    }

    proof fn lemma_total(a: &(u8, u32), b: &(u8, u32)) {
    }

    proof fn lemma_transitive(a: &(u8, u32), b: &(u8, u32), c: &(u8, u32)) {
    }

    fn is_le(&self, other: &(u8, u32)) -> (r: bool) {
        self.0 < other.0 || (self.0 == other.0 && self.1 <= other.1)
    }
}

/// A number by which larger comes first.
pub struct Descending(pub u64);

impl SortKey for Descending {
    open spec fn le(&self, other: &Descending) -> bool {
        self.0 >= other.0
    }

    proof fn lemma_total(a: &Descending, b: &Descending) {
    }

    proof fn lemma_transitive(a: &Descending, b: &Descending, c: &Descending) {
    }

    fn is_le(&self, other: &Descending) -> (r: bool) {
        self.0 >= other.0
    }
}

} // verus!
