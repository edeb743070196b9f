//! Torrents that wait for the user to say what is to be downloaded of them.

use crate::error::TorrentError;
use crate::metainfo::{file_models, meta_of, reports_meta, FileInfo, MetaInfo, MetaModel};
use crate::types::FilePriority;
use vstd::prelude::*;

verus! {

/// A torrent that was handed in and not yet added.
#[derive(Debug, Clone)]
pub struct PendingTorrent {
    pub name: String,
    pub total_size: u64,
    pub files: Vec<FileInfo>,
    pub data: Vec<u8>,
    pub suggested_dir: String,
}

/// What the tray icon asks for.
#[derive(Debug, Clone, Copy, PartialEq, Eq, Structural)]
pub enum TrayCommand {
    ToggleWindow,
    Quit,
}

impl PendingTorrent {
    /// What waits is the torrent of a file.
    pub open spec fn describes(&self, m: MetaModel, data: Seq<u8>, dir: Seq<char>) -> bool {
        &&& self.name@ == m.name
        &&& self.total_size == m.total_size
        &&& file_models(self.files@) == m.files
        &&& self.data@ == data
        &&& self.suggested_dir@ == dir
    }

    /// The torrent of a file, to be saved in a directory unless the user says
    /// otherwise.
    pub fn from_bytes(data: Vec<u8>, suggested_dir: &str) -> (r: Result<
        PendingTorrent,
        TorrentError,
    >)
        ensures
            match (r, meta_of(data@)) {
                (Ok(p), Ok(m)) => p.describes(m, data@, suggested_dir@),
                (Err(e), Err(f)) => reports_meta(e, f),
                _ => false,
            },
    {
        match MetaInfo::from_bytes(data.as_slice()) {
            Ok(meta) => Ok(
                PendingTorrent {
                    name: meta.name,
                    total_size: meta.total_size,
                    files: meta.files,
                    data,
                    suggested_dir: suggested_dir.to_string(),
                },
            ),
            Err(e) => Err(e),
        }
    }
}

/// Puts the torrent of a file at the end of the queue; what is no torrent file
/// is passed over.
pub fn queue_torrent_bytes(queue: &mut Vec<PendingTorrent>, bytes: Vec<u8>)
    ensures
        match meta_of(bytes@) {
            Ok(m) => {
                &&& final(queue)@.len() == old(queue)@.len() + 1
                &&& final(queue)@.drop_last() == old(queue)@
                &&& final(queue)@.last().describes(m, bytes@, "/sdcard/Retorrent/downloads"@)
            },
            Err(_) => final(queue)@ == old(queue)@,
        },
{
    match PendingTorrent::from_bytes(bytes, "/sdcard/Retorrent/downloads") {
        Ok(p) => {
            queue.push(p);
            assert(queue@.drop_last() =~= old(queue)@);
        },
        Err(_) => {},
    }
}

/// Takes all torrents out of the queue, in order.
pub fn drain_pending_intents(queue: &mut Vec<PendingTorrent>) -> (r: Vec<PendingTorrent>)
    ensures
        r@ == old(queue)@,
        final(queue)@ == Seq::<PendingTorrent>::empty(),
{
    let mut out: Vec<PendingTorrent> = Vec::new();
    out.append(queue);
    assert(out@ =~= old(queue)@);
    out
}

/// The priorities of files that are checked or not: normal, or skipped.
pub fn checked_priorities(checks: &Vec<bool>) -> (r: Vec<FilePriority>)
    ensures
        r@ == Seq::new(
            checks@.len(),
            |i: int|
                if checks@[i] {
                    FilePriority::Normal
                } else {
                    FilePriority::Skip
                },
        ),
{
    let mut out: Vec<FilePriority> = Vec::new();
    let mut i: usize = 0;
    while i < checks.len()
        invariant
            i <= checks.len(),
            out@.len() == i,
            forall|k: int|
                0 <= k < i ==> #[trigger] out@[k] == if checks@[k] {
                    FilePriority::Normal
                } else {
                    FilePriority::Skip
                },
        decreases checks.len() - i,
    {
        out.push(
            if checks[i] {
                FilePriority::Normal
            } else {
                FilePriority::Skip
            },
        );
        i += 1;
    }
    assert(out@ =~= Seq::new(
        checks@.len(),
        |i: int|
            if checks@[i] {
                FilePriority::Normal
            } else {
                FilePriority::Skip
            },
    ));
    out
}

} // verus!
