//! Which parts of which files a piece covers.

use crate::metainfo::FileInfo;
use crate::types::FilePriority;
use vstd::prelude::*;

verus! {

/// A part of a file that holds a part of a piece.
#[derive(Debug, Clone, Copy, PartialEq, Eq, Structural)]
pub struct FileSpan {
    /// The file, by its position in the torrent.
    pub file: usize,
    /// Where the part starts in the file.
    pub file_offset: u64,
    /// Where the part starts in the piece.
    pub start: usize,
    /// How long the part is.
    pub len: usize,
}

/// The parts of the first `n` files that hold a run of `size` bytes from
/// `offset` on, and how many of the bytes they hold together.
pub open spec fn spans_of(files: Seq<FileInfo>, n: int, offset: int, size: int) -> (Seq<FileSpan>, int)
    decreases n,
{
    if n <= 0 {
        (seq![], 0)
    } else {
        let (before, done) = spans_of(files, n - 1, offset, size);
        let f = files[n - 1];
        let at = offset + done;
        let left = size - done;
        let inside = if at > f.offset {
            at - f.offset
        } else {
            0
        };
        let fits = if f.length - inside < left {
            f.length - inside
        } else {
            left
        };
        if left == 0 || at >= f.offset + f.length || at + left <= f.offset || fits == 0 {
            (before, done)
        } else {
            (
                before.push(
                    FileSpan {
                        file: (n - 1) as usize,
                        file_offset: inside as u64,
                        start: done as usize,
                        len: fits as usize,
                    },
                ),
                done + fits,
            )
        }
    }
}

/// The positions of all files can be told.
pub open spec fn files_end(files: Seq<FileInfo>) -> bool {
    forall|i: int| 0 <= i < files.len() ==> (#[trigger] files[i]).offset + files[i].length <= u64::MAX
}

/// Tests whether the positions of all files can be told.
pub fn check_files(files: &[FileInfo]) -> (r: bool)
    ensures
        r == files_end(files@),
{
    let mut i: usize = 0;
    while i < files.len()
        invariant
            i <= files.len(),
            forall|k: int|
                0 <= k < i ==> (#[trigger] files@[k]).offset + files@[k].length <= u64::MAX,
        decreases files.len() - i,
    {
        if files[i].length > u64::MAX - files[i].offset {
            return false;
        }
        i += 1;
    }
    true
}

proof fn lemma_spans_bound(files: Seq<FileInfo>, n: int, offset: int, size: int)
    requires
        0 <= n <= files.len(),
        0 <= size,
        0 <= offset,
    ensures
        0 <= spans_of(files, n, offset, size).1 <= size,
    decreases n,
{
    if n > 0 {
        lemma_spans_bound(files, n - 1, offset, size);
    }
}

/// The parts of files that hold the bytes of a torrent from `offset` on.
pub fn file_spans(files: &[FileInfo], offset: u64, size: usize) -> (r: Vec<FileSpan>)
    requires
        files_end(files@),
        offset + size <= u64::MAX,
    ensures
        r@ == spans_of(files@, files@.len() as int, offset as int, size as int).0,
{
    let mut out: Vec<FileSpan> = Vec::new();
    let mut done: usize = 0;
    let mut i: usize = 0;
    while i < files.len()
        invariant
            i <= files.len(),
            files_end(files@),
            offset + size <= u64::MAX,
            done <= size,
            (out@, done as int) == spans_of(files@, i as int, offset as int, size as int),
        decreases files.len() - i,
    {
        proof {
            lemma_spans_bound(files@, i + 1, offset as int, size as int);
        }
        let f = &files[i];
        let start: u64 = f.offset;
        let end: u64 = f.offset + f.length;
        let at: u64 = offset + done as u64;
        let left: usize = size - done;
        if left > 0 && at < end && at + left as u64 > start {
            let inside: u64 = at.saturating_sub(start);
            let room: u64 = f.length - inside;
            let fits: usize = if room < left as u64 {
                room as usize
            } else {
                left
            };
            if fits > 0 {
                out.push(FileSpan { file: i, file_offset: inside, start: done, len: fits });
                done = done + fits;
            }
        }
        i += 1;
    }
    out
}

/// Whether a file is wanted: not if it is skipped.
pub fn is_wanted(file: usize, priorities: &[FilePriority]) -> (r: bool)
    ensures
        r == (file >= priorities@.len() || priorities@[file as int] != FilePriority::Skip),
{
    file >= priorities.len() || priorities[file] != FilePriority::Skip
}

/// Whether a part of a file is written: not if the file is skipped.
pub fn is_written(span: &FileSpan, priorities: &[FilePriority]) -> (r: bool)
    ensures
        r == (span.file >= priorities@.len() || priorities@[span.file as int]
            != FilePriority::Skip),
{
    is_wanted(span.file, priorities)
}

/// Parts of files of this size are mapped into memory to be read.
pub const MAPPED_SIZE: usize = 1048576;

/// Whether a part of a file is mapped into memory to be read.
pub fn is_mapped(span: &FileSpan) -> (r: bool)
    ensures
        r == (span.len >= MAPPED_SIZE),
{
    span.len >= MAPPED_SIZE
}

/// Where a piece starts in the torrent, if that can be told.
pub fn piece_start(index: u32, piece_length: u64) -> (r: Option<u64>)
    ensures
        match r {
            Some(o) => o == index * piece_length,
            None => index * piece_length > u64::MAX,
        },
{
    (index as u64).checked_mul(piece_length)
}

/// The files lie one after the other from the start of the torrent.
pub open spec fn contiguous(files: Seq<FileInfo>) -> bool {
    &&& files.len() > 0 ==> files[0].offset == 0
    &&& forall|i: int|
        0 < i < files.len() ==> (#[trigger] files[i]).offset == files[i - 1].offset + files[
            i - 1].length
}

/// How many bytes the first `n` files hold.
pub open spec fn bytes_before(files: Seq<FileInfo>, n: int) -> int {
    if n <= 0 {
        0
    } else {
        files[n - 1].offset + files[n - 1].length
    }
}

proof fn lemma_offsets(files: Seq<FileInfo>, n: int)
    requires
        contiguous(files),
        0 <= n < files.len(),
    ensures
        files[n].offset == bytes_before(files, n),
{
}

proof fn lemma_spans_cover(files: Seq<FileInfo>, n: int, offset: int, size: int)
    requires
        contiguous(files),
        0 <= n <= files.len(),
        0 <= offset,
        0 <= size,
    ensures
        ({
            let done = spans_of(files, n, offset, size).1;
            let end = bytes_before(files, n);
            done == if end <= offset {
                0
            } else if end - offset < size {
                end - offset
            } else {
                size
            }
        }),
    decreases n,
{
    if n > 0 {
        lemma_spans_cover(files, n - 1, offset, size);
        lemma_offsets(files, n - 1);
    }
}

/// Each part lies in the torrent where its bytes belong, the parts follow one
/// another, and each file occurs once.
pub open spec fn well_placed(files: Seq<FileInfo>, spans: Seq<FileSpan>, offset: int) -> bool {
    &&& forall|k: int|
        0 <= k < spans.len() ==> {
            let s = #[trigger] spans[k];
            &&& s.file < files.len()
            &&& s.len > 0
            &&& files[s.file as int].offset + s.file_offset == offset + s.start
            &&& s.file_offset + s.len <= files[s.file as int].length
        }
    &&& forall|j: int, k: int|
        0 <= j < k < spans.len() ==> (#[trigger] spans[j]).file < (#[trigger] spans[k]).file
            && spans[j].start + spans[j].len <= spans[k].start
}

proof fn lemma_spans_placed(files: Seq<FileInfo>, n: int, offset: int, size: int)
    requires
        contiguous(files),
        files_end(files),
        files.len() <= usize::MAX,
        0 <= n <= files.len(),
        0 <= offset,
        0 <= size <= usize::MAX,
        offset + size <= u64::MAX,
    ensures
        ({
            let (spans, done) = spans_of(files, n, offset, size);
            &&& well_placed(files, spans, offset)
            &&& forall|k: int|
                0 <= k < spans.len() ==> (#[trigger] spans[k]).file < n && spans[k].start
                    + spans[k].len <= done
            &&& forall|k: int|
                0 <= k < spans.len() ==> (#[trigger] spans[k]).start == total_len(spans.take(k))
            &&& done == total_len(spans)
            &&& 0 <= done <= size
        }),
    decreases n,
{
    if n > 0 {
        lemma_spans_placed(files, n - 1, offset, size);
        lemma_spans_cover(files, n - 1, offset, size);
        lemma_spans_bound(files, n, offset, size);
        lemma_offsets(files, n - 1);
        let (before, done) = spans_of(files, n - 1, offset, size);
        let (spans, now) = spans_of(files, n, offset, size);
        assert(files[n - 1].offset + files[n - 1].length <= u64::MAX);
        if spans != before {
            assert(spans.drop_last() =~= before);
            assert forall|k: int| 0 <= k < spans.len() implies {
                let s = #[trigger] spans[k];
                &&& s.file < files.len()
                &&& s.len > 0
                &&& files[s.file as int].offset + s.file_offset == offset + s.start
                &&& s.file_offset + s.len <= files[s.file as int].length
                &&& s.file < n
                &&& s.start + s.len <= now
                &&& s.start == total_len(spans.take(k))
            } by {
                if k < before.len() {
                    assert(spans[k] == before[k]);
                    assert(spans.take(k) =~= before.take(k));
                } else {
                    assert(spans.take(k) =~= before);
                }
            }
            assert forall|j: int, k: int| 0 <= j < k < spans.len() implies (
            #[trigger] spans[j]).file < (#[trigger] spans[k]).file && spans[j].start + spans[j].len
                <= spans[k].start by {
                assert(spans[j] == before[j]);
                if k < before.len() {
                    assert(spans[k] == before[k]);
                }
            }
        }
    }
}

/// How many bytes parts hold together.
pub open spec fn total_len(spans: Seq<FileSpan>) -> int
    decreases spans.len(),
{
    if spans.len() == 0 {
        0
    } else {
        total_len(spans.drop_last()) + spans.last().len
    }
}

/// Of a torrent whose files lie one after the other, the parts that hold a run
/// of bytes lie where the bytes belong, and hold all of the run that lies
/// within the files.
pub proof fn law_spans_cover(files: Seq<FileInfo>, offset: int, size: int)
    requires
        contiguous(files),
        files_end(files),
        files.len() <= usize::MAX,
        0 <= offset,
        0 <= size <= usize::MAX,
        offset + size <= u64::MAX,
    ensures
        ({
            let spans = spans_of(files, files.len() as int, offset, size).0;
            let end = bytes_before(files, files.len() as int);
            &&& well_placed(files, spans, offset)
            &&& total_len(spans) == if end <= offset {
                0
            } else if end - offset < size {
                end - offset
            } else {
                size
            }
        }),
{
    lemma_spans_placed(files, files.len() as int, offset, size);
    lemma_spans_cover(files, files.len() as int, offset, size);
}

/// The contents of files after the parts of a piece were written.
pub open spec fn written(disk: Seq<Seq<u8>>, spans: Seq<FileSpan>, data: Seq<u8>) -> Seq<Seq<u8>>
    decreases spans.len(),
{
    if spans.len() == 0 {
        disk
    } else {
        let d = written(disk, spans.drop_last(), data);
        let s = spans.last();
        d.update(
            s.file as int,
            Seq::new(
                d[s.file as int].len(),
                |i: int|
                    if s.file_offset <= i < s.file_offset + s.len {
                        data[s.start + i - s.file_offset]
                    } else {
                        d[s.file as int][i]
                    },
            ),
        )
    }
}

/// The bytes that the parts of a piece hold.
pub open spec fn read_back(disk: Seq<Seq<u8>>, spans: Seq<FileSpan>) -> Seq<u8>
    decreases spans.len(),
{
    if spans.len() == 0 {
        seq![]
    } else {
        let s = spans.last();
        read_back(disk, spans.drop_last()) + disk[s.file as int].subrange(
            s.file_offset as int,
            s.file_offset + s.len,
        )
    }
}

/// Parts that follow one another without gaps, each in a file of its own that
/// is long enough.
pub open spec fn tiled(disk: Seq<Seq<u8>>, spans: Seq<FileSpan>, size: int) -> bool {
    &&& forall|k: int|
        0 <= k < spans.len() ==> {
            let s = #[trigger] spans[k];
            &&& s.file < disk.len()
            &&& s.file_offset + s.len <= disk[s.file as int].len()
            &&& s.start == total_len(spans.take(k))
        }
    &&& forall|j: int, k: int|
        0 <= j < k < spans.len() ==> (#[trigger] spans[j]).file != (#[trigger] spans[k]).file
    &&& total_len(spans) <= size
}

proof fn lemma_total_not_negative(spans: Seq<FileSpan>)
    ensures
        total_len(spans) >= 0,
    decreases spans.len(),
{
    if spans.len() > 0 {
        lemma_total_not_negative(spans.drop_last());
    }
}

proof fn lemma_written_elsewhere(disk: Seq<Seq<u8>>, spans: Seq<FileSpan>, data: Seq<u8>, f: int)
    requires
        0 <= f < disk.len(),
        forall|k: int| 0 <= k < spans.len() ==> (#[trigger] spans[k]).file != f,
        forall|k: int| 0 <= k < spans.len() ==> (#[trigger] spans[k]).file < disk.len(),
    ensures
        written(disk, spans, data)[f] == disk[f],
        written(disk, spans, data).len() == disk.len(),
    decreases spans.len(),
{
    if spans.len() > 0 {
        let init = spans.drop_last();
        assert forall|k: int| 0 <= k < init.len() implies (#[trigger] init[k]).file != f
            && init[k].file < disk.len() by {
            assert(spans[k].file != f);
            assert(spans[k].file < disk.len());
        }
        lemma_written_elsewhere(disk, init, data, f);
        assert(spans[spans.len() - 1].file != f);
    }
}

proof fn lemma_read_elsewhere(a: Seq<Seq<u8>>, b: Seq<Seq<u8>>, spans: Seq<FileSpan>)
    requires
        forall|k: int|
            0 <= k < spans.len() ==> a[(#[trigger] spans[k]).file as int] == b[spans[k].file as int],
    ensures
        read_back(a, spans) == read_back(b, spans),
    decreases spans.len(),
{
    if spans.len() > 0 {
        let init = spans.drop_last();
        assert forall|k: int| 0 <= k < init.len() implies a[(#[trigger] init[k]).file as int]
            == b[init[k].file as int] by {
            assert(a[spans[k].file as int] == b[spans[k].file as int]);
        }
        lemma_read_elsewhere(a, b, init);
        assert(a[spans[spans.len() - 1].file as int] == b[spans[spans.len() - 1].file as int]);
    }
}

/// A piece that was written to its parts is read back from them as it was.
#[verifier::spinoff_prover]
#[verifier::rlimit(50)]
pub proof fn law_read_after_write(disk: Seq<Seq<u8>>, spans: Seq<FileSpan>, data: Seq<u8>)
    requires
        tiled(disk, spans, data.len() as int),
    ensures
        read_back(written(disk, spans, data), spans) == data.take(total_len(spans)),
    decreases spans.len(),
{
    lemma_total_not_negative(spans);
    if spans.len() == 0 {
        assert(read_back(written(disk, spans, data), spans) =~= data.take(0));
    } else {
        let n = spans.len() - 1;
        let init = spans.drop_last();
        let s = spans.last();
        assert(spans.take(n) =~= init);
        lemma_total_not_negative(init);
        assert(tiled(disk, init, data.len() as int)) by {
            assert forall|k: int| 0 <= k < init.len() implies {
                let t = #[trigger] init[k];
                &&& t.file < disk.len()
                &&& t.file_offset + t.len <= disk[t.file as int].len()
                &&& t.start == total_len(init.take(k))
            } by {
                assert(spans[k] == init[k]);
                assert(init.take(k) =~= spans.take(k));
            }
            assert forall|j: int, k: int| 0 <= j < k < init.len() implies (
            #[trigger] init[j]).file != (#[trigger] init[k]).file by {
                assert(spans[j].file != spans[k].file);
            }
        }
        law_read_after_write(disk, init, data);
        let before = written(disk, init, data);
        let after = written(disk, spans, data);
        assert(spans[n].file < disk.len());
        assert forall|k: int| 0 <= k < init.len() implies (#[trigger] init[k]).file != s.file
            && init[k].file < disk.len() by {
            assert(spans[k].file != spans[n].file);
            assert(spans[k].file < disk.len());
        }
        lemma_written_elsewhere(disk, init, data, s.file as int);
        assert forall|k: int| 0 <= k < init.len() implies after[(#[trigger] init[k]).file as int]
            == before[init[k].file as int] by {
            assert(init[k].file != s.file);
        }
        lemma_read_elsewhere(after, before, init);
        let part = after[s.file as int].subrange(s.file_offset as int, s.file_offset + s.len);
        assert(s.start == total_len(init));
        assert(part =~= data.subrange(s.start as int, s.start + s.len));
        assert(data.take(total_len(init)) + data.subrange(s.start as int, s.start + s.len)
            =~= data.take(total_len(spans)));
    }
}

/// A piece that was written to the files of a torrent is read back from them
/// as it was, if the files lie one after the other and hold the piece.
pub proof fn law_piece_survives(
    files: Seq<FileInfo>,
    disk: Seq<Seq<u8>>,
    offset: int,
    data: Seq<u8>,
)
    requires
        contiguous(files),
        files_end(files),
        files.len() <= usize::MAX,
        disk.len() == files.len(),
        forall|i: int| 0 <= i < files.len() ==> (#[trigger] disk[i]).len() == files[i].length,
        0 <= offset,
        data.len() <= usize::MAX,
        offset + data.len() <= bytes_before(files, files.len() as int),
    ensures
        ({
            let spans = spans_of(files, files.len() as int, offset, data.len() as int).0;
            read_back(written(disk, spans, data), spans) == data
        }),
{
    let n = files.len() as int;
    let size = data.len() as int;
    let spans = spans_of(files, n, offset, size).0;
    if n > 0 {
        assert(files[n - 1].offset + files[n - 1].length <= u64::MAX);
    }
    lemma_spans_placed(files, n, offset, size);
    lemma_spans_cover(files, n, offset, size);
    assert(tiled(disk, spans, size)) by {
        assert forall|k: int| 0 <= k < spans.len() implies {
            let s = #[trigger] spans[k];
            &&& s.file < disk.len()
            &&& s.file_offset + s.len <= disk[s.file as int].len()
            &&& s.start == total_len(spans.take(k))
        } by {
            assert(disk[spans[k].file as int].len() == files[spans[k].file as int].length);
        }
    }
    law_read_after_write(disk, spans, data);
    assert(data.take(size) =~= data);
}

} // verus!
