//! The state of the pieces.

use crate::laws::choice::higher;
use crate::laws::{lemma_says_piece, says_piece};
use crate::metainfo::FileInfo;
use crate::piece::manager::{count_set, first_piece, last_piece, priority_under, PieceManager};
use crate::rounding::{single_of, single_unit};
use crate::types::FilePriority;
use vstd::prelude::*;

verus! {

/// A piece holds bytes of a file.
pub open spec fn holds_bytes_of(piece_length: int, piece: int, f: FileInfo) -> bool {
    &&& f.length > 0
    &&& f.offset < (piece + 1) * piece_length
    &&& piece * piece_length < f.offset + f.length
}

proof fn lemma_holds_bytes(piece_length: int, piece: int, f: FileInfo)
    requires
        piece_length > 0,
        0 <= piece,
        f.length > 0,
        f.offset + f.length <= 0x1_0000_0000 * piece_length,
    ensures
        holds_bytes_of(piece_length, piece, f) == (first_piece(f, piece_length) <= piece
            <= last_piece(f, piece_length)),
{
    let l = piece_length;
    let o = f.offset as int;
    let e = f.offset + f.length - 1;
    let a = o / l;
    let b = e / l;
    vstd::arithmetic::div_mod::lemma_fundamental_div_mod(o, l);
    vstd::arithmetic::div_mod::lemma_fundamental_div_mod(e, l);
    assert(0 <= a < 0x1_0000_0000) by (nonlinear_arith)
        requires
            l > 0,
            o == l * a + o % l,
            0 <= o % l < l,
            0 <= o < 0x1_0000_0000 * l,
    ;
    assert(0 <= b < 0x1_0000_0000) by (nonlinear_arith)
        requires
            l > 0,
            e == l * b + e % l,
            0 <= e % l < l,
            0 <= e < 0x1_0000_0000 * l,
    ;
    assert(o < (piece + 1) * l <==> a <= piece) by (nonlinear_arith)
        requires
            l > 0,
            o == l * a + o % l,
            0 <= o % l < l,
    ;
    assert(piece * l <= e <==> piece <= b) by (nonlinear_arith)
        requires
            l > 0,
            e == l * b + e % l,
            0 <= e % l < l,
    ;
}

/// A piece has a priority at least as high as each file that it holds bytes of;
/// and it has its priority, unless it is skipped, from a file that it holds
/// bytes of or that is empty.
pub proof fn law_piece_priority(
    files: Seq<FileInfo>,
    priorities: Seq<FilePriority>,
    n: int,
    piece_length: int,
    piece: int,
)
    requires
        0 <= n <= files.len(),
        n <= priorities.len(),
        piece_length > 0,
        0 <= piece,
        forall|i: int|
            0 <= i < n ==> (#[trigger] files[i]).offset + files[i].length <= 0x1_0000_0000
                * piece_length,
    ensures
        forall|i: int|
            0 <= i < n && holds_bytes_of(piece_length, piece, #[trigger] files[i]) && priorities[i]
                != FilePriority::Skip ==> {
                &&& priority_under(files, priorities, n, piece_length, piece) != FilePriority::Skip
                &&& !higher(
                    priorities[i],
                    priority_under(files, priorities, n, piece_length, piece),
                )
            },
        priority_under(files, priorities, n, piece_length, piece) != FilePriority::Skip ==> exists|
            i: int,
        |
            0 <= i < n && priorities[i] == priority_under(files, priorities, n, piece_length, piece)
                && ((#[trigger] files[i]).length == 0 || holds_bytes_of(
                piece_length,
                piece,
                files[i],
            )),
    decreases n,
{
    if n > 0 {
        law_piece_priority(files, priorities, n - 1, piece_length, piece);
        let before = priority_under(files, priorities, n - 1, piece_length, piece);
        let now = priority_under(files, priorities, n, piece_length, piece);
        let f = files[n - 1];
        if f.length > 0 {
            lemma_holds_bytes(piece_length, piece, f);
        }
        if now != FilePriority::Skip {
            if now == before {
                let i = choose|i: int|
                    0 <= i < n - 1 && priorities[i] == before && ((#[trigger] files[i]).length == 0
                        || holds_bytes_of(piece_length, piece, files[i]));
                assert(files[i].length == 0 || holds_bytes_of(piece_length, piece, files[i]));
            } else {
                assert(files[n - 1].length == 0 || holds_bytes_of(
                    piece_length,
                    piece,
                    files[n - 1],
                ));
            }
        }
    }
}

/// With fewer than 2^24 pieces the last stage of a download begins when more
/// than nine tenths of them are at hand.
pub proof fn law_last_stage(pm: PieceManager)
    requires
        0 < pm.num_pieces < 0x100_0000,
    ensures
        pm.last_stage() <==> 10 * count_set(pm.have@, pm.num_pieces as int) > 9 * pm.num_pieces,
{
    let whole = pm.num_pieces as int;
    let part = count_set(pm.have@, whole);
    lemma_small_count(pm.have@, whole);
    assert(single_unit(part, 1) == 1);
    assert(single_unit(whole, 1) == 1);
    assert(single_of(part) == part);
    assert(single_of(whole) == whole);
}

proof fn lemma_small_count(flags: Seq<bool>, n: int)
    requires
        0 <= n,
    ensures
        0 <= count_set(flags, n) <= n,
    decreases n,
{
    if n > 0 {
        lemma_small_count(flags, n - 1);
    }
}

/// In its last stage a download asks for every piece that is missing and not
/// skipped, in order, and for no other.
pub proof fn law_last_pieces(pm: PieceManager, n: int)
    requires
        pm.wf(),
        0 <= n <= pm.num_pieces,
    ensures
        forall|i: int, j: int|
            0 <= i < j < pm.unfinished_below(n).len() ==> (#[trigger] pm.unfinished_below(n)[i]) < (
            #[trigger] pm.unfinished_below(n)[j]),
        forall|i: int|
            0 <= i < pm.unfinished_below(n).len() ==> {
                &&& (#[trigger] pm.unfinished_below(n)[i]) < n
                &&& !pm.have@[pm.unfinished_below(n)[i] as int]
                &&& pm.piece_priorities@[pm.unfinished_below(n)[i] as int] != FilePriority::Skip
            },
        forall|q: u32|
            #![trigger pm.have@[q as int]]
            q < n && !pm.have@[q as int] && pm.piece_priorities@[q as int] != FilePriority::Skip
                ==> pm.unfinished_below(n).contains(q),
    decreases n,
{
    if n > 0 {
        law_last_pieces(pm, n - 1);
        let before = pm.unfinished_below(n - 1);
        let all = pm.unfinished_below(n);
        assert forall|q: u32|
            #![trigger pm.have@[q as int]]
            q < n && !pm.have@[q as int] && pm.piece_priorities@[q as int]
                != FilePriority::Skip implies all.contains(q) by {
            if q < n - 1 {
                assert(before.contains(q));
                let k = before.index_of(q);
                assert(all[k] == q);
            } else {
                assert(all[before.len() as int] == q);
            }
        }
    }
}

/// The piece in progress that a peer helps with is one that it has and that
/// lacks blocks; and no other such piece has more.
pub proof fn law_fullest_helped(
    pm: PieceManager,
    bits: Seq<u8>,
    list: Seq<(u32, u32, u32)>,
    k: int,
    j: int,
)
    requires
        pm.is_fullest(bits, list, k, list.len() as int),
        0 <= j < list.len(),
    ensures
        pm.in_progress@.contains(list[k].0),
        says_piece(bits, list[k].0 as int),
        list[k].1 < list[k].2,
        pm.in_progress@.contains(list[j].0) && says_piece(bits, list[j].0 as int) && list[j].1
            < list[j].2 ==> list[j].1 <= list[k].1 && (list[j].1 == list[k].1 ==> k <= j),
{
    lemma_says_piece(bits, list[k].0 as int);
    lemma_says_piece(bits, list[j].0 as int);
}

} // verus!
