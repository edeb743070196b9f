//! Fetching pieces from web servers.
//!
//! A torrent may name web addresses that serve its files. A piece is fetched
//! by one range request for each file that holds a part of it. Private
//! torrents do not use web addresses.

use crate::metainfo::{seed_url, FileInfo, MetaInfo};
use crate::outside::sha1_of;
use crate::piece::manager::PieceManager;
use crate::storage::layout::files_end;
use crate::text::{decimal, decimal_string, joined};
use vstd::prelude::*;
use vstd::string::*;

verus! {

/// A torrent whose pieces are fetched from web servers.
pub struct WebseedSource {
    pub meta: MetaInfo,
}

/// A part of a file that holds a part of a piece, at a web server.
#[derive(Debug)]
pub struct FileChunk {
    pub url: String,
    pub file_offset: u64,
    pub len: u64,
}

/// The model of a part of a file at a web server.
pub struct ChunkModel {
    pub url: Seq<char>,
    pub file_offset: int,
    pub len: int,
}

impl View for FileChunk {
    type V = ChunkModel;

    open spec fn view(&self) -> ChunkModel {
        ChunkModel { url: self.url@, file_offset: self.file_offset as int, len: self.len as int }
    }
}

/// The models of parts.
pub open spec fn chunk_models(v: Seq<FileChunk>) -> Seq<ChunkModel> {
    Seq::new(v.len(), |i: int| v[i]@)
}

/// The parts of the first `n` files that hold a run of `size` bytes from
/// `offset` on, as served below `base`; with how many of the bytes they hold,
/// and whether no later file can hold any.
pub open spec fn chunks_of(files: Seq<FileInfo>, base: Seq<char>, n: int, offset: int, size: int) -> (
    Seq<ChunkModel>,
    int,
    bool,
)
    decreases n,
{
    if n <= 0 {
        (seq![], 0, false)
    } else {
        let (before, done, over) = chunks_of(files, base, n - 1, offset, size);
        let f = files[n - 1];
        let at = offset + done;
        let left = size - done;
        let skip = if at > f.offset {
            at - f.offset
        } else {
            0
        };
        let take = if f.length - skip < left {
            f.length - skip
        } else {
            left
        };
        if over || left == 0 {
            (before, done, true)
        } else if at >= f.offset + f.length {
            (before, done, false)
        } else if at + left <= f.offset {
            (before, done, true)
        } else {
            (
                before.push(
                    ChunkModel { url: seed_url(base, f.path@), file_offset: skip, len: take },
                ),
                done + take,
                false,
            )
        }
    }
}

proof fn lemma_chunks_bound(files: Seq<FileInfo>, base: Seq<char>, n: int, offset: int, size: int)
    requires
        0 <= n <= files.len(),
        0 <= size,
        0 <= offset,
    ensures
        0 <= chunks_of(files, base, n, offset, size).1 <= size,
    decreases n,
{
    if n > 0 {
        lemma_chunks_bound(files, base, n - 1, offset, size);
    }
}

/// The first piece at or after `start`, going round, that is neither at hand
/// nor in progress, looking at `n` pieces.
pub open spec fn next_wanted(pm: PieceManager, start: int, from: int, n: int) -> Option<u32>
    decreases n - from,
{
    if from >= n {
        None
    } else {
        let idx = ((start + from) % (pm.num_pieces as int)) as u32;
        if !pm.have@[idx as int] && !pm.in_progress@.contains(idx) {
            Some(idx)
        } else {
            next_wanted(pm, start, from + 1, n)
        }
    }
}

impl WebseedSource {
    /// Whether pieces are fetched from web servers at all.
    pub fn may_run(&self) -> (r: bool)
        ensures
            r == (!self.meta.is_private && self.meta.url_list@.len() > 0),
    {
        !self.meta.is_private && self.meta.url_list.len() > 0
    }

    /// The next piece to fetch, going round from `start`.
    pub fn next_piece(pm: &PieceManager, start: u32) -> (r: Option<u32>)
        requires
            pm.wf(),
        ensures
            r == next_wanted(*pm, start as int, 0, pm.num_pieces as int),
            r matches Some(i) ==> i < pm.num_pieces && !pm.have@[i as int]
                && !pm.in_progress@.contains(i),
    {
        let n: u32 = pm.num_pieces;
        let mut offset: u32 = 0;
        while offset < n
            invariant
                pm.wf(),
                n == pm.num_pieces,
                offset <= n,
                next_wanted(*pm, start as int, 0, n as int) == next_wanted(
                    *pm,
                    start as int,
                    offset as int,
                    n as int,
                ),
            decreases n - offset,
        {
            let idx: u32 = ((start as u64 + offset as u64) % (n as u64)) as u32;
            if !pm.have_piece(idx) && !pm.piece_in_progress(idx) {
                return Some(idx);
            }
            offset += 1;
        }
        None
    }

    /// The parts of files at the first web server that hold a run of bytes.
    pub fn split_piece_into_file_chunks(&self, piece_offset: u64, piece_size: u64) -> (r: Result<
        Vec<FileChunk>,
        String,
    >)
        requires
            files_end(self.meta.files@),
            piece_offset + piece_size <= u64::MAX,
        ensures
            ({
                let n = self.meta.files@.len() as int;
                let has_url = self.meta.url_list@.len() > 0;
                let base = if has_url {
                    self.meta.url_list@[0]@
                } else {
                    seq![]
                };
                let chunks = chunks_of(
                    self.meta.files@,
                    base,
                    n,
                    piece_offset as int,
                    piece_size as int,
                ).0;
                match r {
                    Ok(v) => has_url && chunks.len() > 0 && chunk_models(v@) == chunks,
                    Err(m) => if chunks.len() == 0 {
                        m@ == "piece did not map to any file"@
                    } else {
                        !has_url && m@ == "no webseed url available"@
                    },
                }
            }),
    {
        let files = &self.meta.files;
        let has_url: bool = self.meta.url_list.len() > 0;
        let base: &str = if has_url {
            self.meta.url_list[0].as_str()
        } else {
            ""
        };
        proof {
            reveal_strlit("");
            assert(!has_url ==> base@ =~= seq![]);
        }
        let mut out: Vec<FileChunk> = Vec::new();
        let mut done: u64 = 0;
        let mut over: bool = false;
        let mut i: usize = 0;
        assert(chunk_models(out@) =~= seq![]);
        while i < files.len()
            invariant
                i <= files.len(),
                *files == self.meta.files,
                files_end(files@),
                piece_offset + piece_size <= u64::MAX,
                done <= piece_size,
                (chunk_models(out@), done as int, over) == chunks_of(
                    files@,
                    base@,
                    i as int,
                    piece_offset as int,
                    piece_size as int,
                ),
            decreases files.len() - i,
        {
            proof {
                lemma_chunks_bound(
                    files@,
                    base@,
                    i + 1,
                    piece_offset as int,
                    piece_size as int,
                );
            }
            let f = &files[i];
            let start: u64 = f.offset;
            let end: u64 = f.offset + f.length;
            let at: u64 = piece_offset + done;
            let left: u64 = piece_size - done;
            if over || left == 0 {
                over = true;
            } else if at >= end {
            } else if at + left <= start {
                over = true;
            } else {
                let skip: u64 = at.saturating_sub(start);
                let room: u64 = f.length - skip;
                let take: u64 = if room < left {
                    room
                } else {
                    left
                };
                let url = self.meta.webseed_url_for(base, f.path.as_str());
                let ghost before = chunk_models(out@);
                let chunk = FileChunk { url, file_offset: skip, len: take };
                out.push(chunk);
                assert(chunk_models(out@) =~= before.push(chunk@));
                done = done + take;
            }
            i += 1;
        }
        if out.len() == 0 {
            return Err("piece did not map to any file".to_string());
        }
        if !has_url {
            return Err("no webseed url available".to_string());
        }
        Ok(out)
    }

    /// The range that is asked of a web server for a part.
    pub fn range_header(chunk: &FileChunk) -> (r: String)
        requires
            chunk.len > 0,
            chunk.file_offset + chunk.len <= u64::MAX,
        ensures
            r@ == "bytes="@ + decimal(chunk.file_offset as nat) + "-"@ + decimal(
                (chunk.file_offset + chunk.len - 1) as nat,
            ),
    {
        let mut out = joined("bytes=", decimal_string(chunk.file_offset).as_str());
        out.append("-");
        out.append(decimal_string(chunk.file_offset + (chunk.len - 1)).as_str());
        out
    }

    /// Whether the data that was fetched for a piece is what the torrent says.
    pub fn piece_fetched(&self, index: u32, data: &[u8]) -> (r: bool)
        requires
            index < self.meta.pieces@.len(),
        ensures
            r == (sha1_of(data@) == self.meta.pieces@[index as int]@),
    {
        crate::network::peer_messages::piece_matches(data, &self.meta.pieces[index as usize])
    }
}

} // verus!
