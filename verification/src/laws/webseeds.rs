//! What is fetched from web servers.

use crate::laws::torrents::law_seed_address;
use crate::metainfo::{seed_url, FileInfo};
use crate::piece::manager::PieceManager;
use crate::webseed::{chunks_of, next_wanted, ChunkModel};
use vstd::prelude::*;

verus! {

/// The files stand one behind the other from the start.
pub open spec fn in_a_row(files: Seq<FileInfo>) -> bool {
    &&& files.len() > 0 ==> files[0].offset == 0
    &&& forall|i: int|
        0 < i < files.len() ==> (#[trigger] files[i]).offset == files[i - 1].offset + files[i
            - 1].length
}

/// Where the first `n` files end.
pub open spec fn end_of(files: Seq<FileInfo>, n: int) -> int {
    if n <= 0 {
        0
    } else {
        files[n - 1].offset + files[n - 1].length
    }
}

/// A part of a file holds `len` bytes of the torrent from `at` on, and is
/// fetched from below a base.
pub open spec fn fetches(
    c: ChunkModel,
    f: FileInfo,
    base: Seq<char>,
    at: int,
) -> bool {
    &&& c.url == base + f.path@ || c.url == base + seq!['/'] + f.path@
    &&& c.len > 0
    &&& 0 <= c.file_offset
    &&& c.file_offset + c.len <= f.length
    &&& f.offset + c.file_offset == at
}

/// Parts of files hold `size` bytes from `at` on, one after the other.
pub open spec fn fetch_all(
    chunks: Seq<ChunkModel>,
    files: Seq<FileInfo>,
    base: Seq<char>,
    at: int,
    size: int,
) -> bool
    decreases chunks.len(),
{
    if chunks.len() == 0 {
        size == 0
    } else {
        let c = chunks.last();
        &&& exists|i: int|
            0 <= i < files.len() && fetches(c, #[trigger] files[i], base, at + size - c.len)
        &&& fetch_all(chunks.drop_last(), files, base, at, size - c.len)
    }
}

proof fn lemma_fetch(files: Seq<FileInfo>, base: Seq<char>, n: int, offset: int, size: int)
    requires
        in_a_row(files),
        0 <= n <= files.len(),
        0 <= offset,
        0 <= size,
    ensures
        ({
            let (chunks, done, over) = chunks_of(files, base, n, offset, size);
            &&& fetch_all(chunks, files, base, offset, done)
            &&& over ==> done == size
            &&& done == if end_of(files, n) <= offset {
                0
            } else if end_of(files, n) - offset < size {
                end_of(files, n) - offset
            } else {
                size
            }
        }),
    decreases n,
{
    if n > 0 {
        lemma_fetch(files, base, n - 1, offset, size);
        let (before, done, over) = chunks_of(files, base, n - 1, offset, size);
        let (chunks, now, _) = chunks_of(files, base, n, offset, size);
        let f = files[n - 1];
        assert(f.offset == end_of(files, n - 1)) by {
            if n > 1 {
                assert(files[n - 1].offset == files[n - 2].offset + files[n - 2].length);
            }
        }
        law_seed_address(base, f.path@);
        if chunks.len() != before.len() {
            let c = chunks.last();
            assert(chunks.drop_last() =~= before);
            assert(fetches(c, files[n - 1], base, offset + now - c.len));
        }
    }
}

/// A run of bytes within the files of a torrent is fetched whole and in order,
/// from the files that hold it.
pub proof fn law_run_fetched(files: Seq<FileInfo>, base: Seq<char>, offset: int, size: int)
    requires
        in_a_row(files),
        0 <= offset,
        0 <= size,
        offset + size <= end_of(files, files.len() as int),
    ensures
        fetch_all(
            chunks_of(files, base, files.len() as int, offset, size).0,
            files,
            base,
            offset,
            size,
        ),
{
    lemma_fetch(files, base, files.len() as int, offset, size);
}

/// A piece that is neither at hand nor in progress.
pub open spec fn open_piece(pm: PieceManager, q: int) -> bool {
    !pm.have@[q] && !pm.in_progress@.contains(q as u32)
}

/// The next piece to fetch is the first that is neither at hand nor in
/// progress, going round from where the search starts; and there is none only
/// if there is no such piece.
pub proof fn law_next_fetched(pm: PieceManager, start: int, from: int)
    requires
        pm.num_pieces > 0,
        0 <= start,
        0 <= from <= pm.num_pieces,
    ensures
        match next_wanted(pm, start, from, pm.num_pieces as int) {
            Some(i) => exists|d: int|
                from <= d < pm.num_pieces && #[trigger] round(pm, start, d) == i && open_piece(
                    pm,
                    i as int,
                ) && forall|k: int|
                    from <= k < d ==> !open_piece(pm, #[trigger] round(pm, start, k)),
            None => forall|k: int|
                from <= k < pm.num_pieces ==> !open_piece(pm, #[trigger] round(pm, start, k)),
        },
    decreases pm.num_pieces - from,
{
    if from < pm.num_pieces {
        let q = round(pm, start, from);
        assert(0 <= q < pm.num_pieces);
        if open_piece(pm, q) {
            assert(next_wanted(pm, start, from, pm.num_pieces as int) == Some(q as u32));
            assert(round(pm, start, from) == q as u32);
        } else {
            law_next_fetched(pm, start, from + 1);
            if let Some(i) = next_wanted(pm, start, from + 1, pm.num_pieces as int) {
                let d = choose|d: int|
                    from + 1 <= d < pm.num_pieces && #[trigger] round(pm, start, d) == i
                        && open_piece(pm, i as int) && forall|k: int|
                        from + 1 <= k < d ==> !open_piece(pm, #[trigger] round(pm, start, k));
                assert(round(pm, start, d) == i);
            }
        }
    }
}

/// The piece that is `k` behind another, going round.
pub open spec fn round(pm: PieceManager, start: int, k: int) -> int {
    (start + k) % (pm.num_pieces as int)
}

} // verus!
