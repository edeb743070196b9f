//! What holds of every torrent file that is accepted.

use crate::bencode::Bencode;
use crate::metainfo::{
    file_at, files_in, has_double_dot, joined_path, size_of_piece, texts_in, unsafe_component,
    FileModel,
};
use vstd::prelude::*;

verus! {

/// The files lie one after the other from the start of the torrent, as far as
/// 64 bits can tell positions.
pub open spec fn end_to_end(files: Seq<FileModel>, total: int) -> bool {
    &&& files.len() == 0 ==> total == 0
    &&& files.len() > 0 ==> files[0].offset == 0 && total == (files.last().offset
        + files.last().length) % 0x1_0000_0000_0000_0000
    &&& forall|i: int|
        0 < i < files.len() ==> (#[trigger] files[i]).offset == (files[i - 1].offset + files[
            i - 1].length) % 0x1_0000_0000_0000_0000
}

/// The files of a torrent with several files lie end to end, and the total
/// size is where the last one ends.
pub proof fn law_files_end_to_end(l: Seq<Bencode>, base: Seq<char>)
    ensures
        files_in(l, base) matches Ok((files, total)) ==> files.len() == l.len() && end_to_end(
            files,
            total,
        ),
    decreases l.len(),
{
    if l.len() > 0 {
        law_files_end_to_end(l.drop_last(), base);
        if let Ok((before, offset)) = files_in(l.drop_last(), base) {
            if let Ok(f) = file_at(l.last(), base, offset) {
                let files = before.push(f);
                let total = (offset + f.length) % 0x1_0000_0000_0000_0000;
                assert(files.last() == f);
                assert forall|i: int| 0 < i < files.len() implies (#[trigger] files[i]).offset == (
                files[i - 1].offset + files[i - 1].length) % 0x1_0000_0000_0000_0000 by {
                    if i < before.len() {
                        assert(files[i] == before[i]);
                        assert(files[i - 1] == before[i - 1]);
                    } else {
                        assert(files[i - 1] == before.last());
                    }
                }
            }
        }
    }
}

/// A text that stays within the directory it is appended to: no double dots,
/// no backslash and no zero character.
pub open spec fn stays_inside(s: Seq<char>) -> bool {
    !has_double_dot(s) && !s.contains('\\') && !s.contains('\0')
}

proof fn lemma_path_inside(base: Seq<char>, parts: Seq<Seq<char>>)
    ensures
        joined_path(base, parts) matches Some(p) ==> base.is_prefix_of(p) && stays_inside(
            p.skip(base.len() as int),
        ),
    decreases parts.len(),
{
    if parts.len() == 0 {
        assert(base.take(base.len() as int) =~= base);
        assert(base.skip(base.len() as int) =~= seq![]);
    } else {
        lemma_path_inside(base, parts.drop_last());
        if let Some(p) = joined_path(base, parts.drop_last()) {
            let part = parts.last();
            if !unsafe_component(part) {
                let full = p.push('/') + part;
                let head = p.skip(base.len() as int);
                let tail = full.skip(base.len() as int);
                assert(p.take(base.len() as int) =~= base);
                assert(full.take(base.len() as int) =~= base);
                assert(tail =~= head.push('/') + part);
                if has_double_dot(tail) {
                    let i = choose|i: int|
                        0 <= i < tail.len() - 1 && #[trigger] tail[i] == '.' && tail[i + 1] == '.';
                    if i + 1 < head.len() {
                        assert(head[i] == '.' && head[i + 1] == '.');
                    } else if i > head.len() {
                        let j = i - head.len() - 1;
                        assert(part[j] == '.' && part[j + 1] == '.');
                    }
                    assert(false);
                }
                assert forall|c: char| c == '\\' || c == '\0' implies !tail.contains(c) by {
                    if tail.contains(c) {
                        let i = tail.index_of(c);
                        if i < head.len() {
                            assert(head[i] == c);
                            assert(head.contains(c));
                        } else if i > head.len() {
                            assert(part[i - head.len() - 1] == c);
                            assert(part.contains(c));
                        }
                    }
                }
            }
        }
    }
}

/// The path of every file of a torrent with several files lies below the
/// torrent's name, and nothing in it leads out of there.
pub proof fn law_paths_inside(l: Seq<Bencode>, base: Seq<char>, k: int)
    ensures
        files_in(l, base) matches Ok((files, _)) ==> (0 <= k < files.len()
            ==> base.is_prefix_of(files[k].path) && stays_inside(
            files[k].path.skip(base.len() as int),
        )),
    decreases l.len(),
{
    if l.len() > 0 {
        law_paths_inside(l.drop_last(), base, k);
        if let Ok((before, offset)) = files_in(l.drop_last(), base) {
            if let Ok(f) = file_at(l.last(), base, offset) {
                if 0 <= k < before.len() {
                    assert(before.push(f)[k] == before[k]);
                } else if let Bencode::Dict(e) = l.last() {
                    if let Some(Bencode::List(parts)) = crate::bencode::lookup(e, "path"@) {
                        lemma_path_inside(base, texts_in(parts));
                    }
                }
            }
        }
    }
}

/// How many bytes the first `n` of `count` pieces hold.
pub open spec fn pieces_hold(total: int, piece_length: int, count: int, n: int) -> int
    decreases n,
{
    if n <= 0 {
        0
    } else {
        pieces_hold(total, piece_length, count, n - 1) + size_of_piece(
            total,
            piece_length,
            count,
            n - 1,
        )
    }
}

proof fn lemma_pieces_hold(total: int, piece_length: int, count: int, n: int)
    requires
        piece_length > 0,
        0 <= n < count,
    ensures
        pieces_hold(total, piece_length, count, n) == n * piece_length,
    decreases n,
{
    if n > 0 {
        lemma_pieces_hold(total, piece_length, count, n - 1);
        assert(n * piece_length == (n - 1) * piece_length + piece_length) by (nonlinear_arith);
    } else {
        assert(0 * piece_length == 0) by (nonlinear_arith);
    }
}

/// The pieces of a torrent hold exactly its bytes, if there are as many pieces
/// as its size calls for.
pub proof fn law_pieces_hold_all(total: int, piece_length: int, count: int)
    requires
        total > 0,
        piece_length > 0,
        count == (total + piece_length - 1) / piece_length,
    ensures
        count > 0,
        pieces_hold(total, piece_length, count, count) == total,
{
    let q = total / piece_length;
    let r = total % piece_length;
    vstd::arithmetic::div_mod::lemma_fundamental_div_mod(total, piece_length);
    vstd::arithmetic::div_mod::lemma_mod_bound(total, piece_length);
    assert(q >= 0) by (nonlinear_arith)
        requires
            total > 0,
            piece_length > 0,
            q == total / piece_length,
    ;
    if r == 0 {
        assert(count == q) by (nonlinear_arith)
            requires
                total == piece_length * q + r,
                r == 0,
                piece_length > 0,
                count == (total + piece_length - 1) / piece_length,
        ;
        assert(q > 0) by (nonlinear_arith)
            requires
                total == piece_length * q,
                total > 0,
                piece_length > 0,
        ;
    } else {
        assert(count == q + 1) by (nonlinear_arith)
            requires
                total == piece_length * q + r,
                0 < r < piece_length,
                count == (total + piece_length - 1) / piece_length,
        ;
    }
    lemma_pieces_hold(total, piece_length, count, count - 1);
    assert((q - 1) * piece_length + piece_length == piece_length * q) by (nonlinear_arith);
    assert(q * piece_length == piece_length * q) by (nonlinear_arith);
}

} // verus!
