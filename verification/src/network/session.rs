//! The state of a torrent and what changes it.

use crate::error::TorrentError;
use crate::metainfo::{meta_of, reports_meta, MetaInfo, MetaModel};
use crate::net::SocketAddrV4;
use crate::network::peers::{PeerStats, PeerTable};
use crate::outside::hex_bytes;
use crate::peer::metadata::MetadataState;
use crate::piece::manager::{paired, priority_under, PieceManager};
use crate::text::str_equal;
use crate::types::{texts, FilePriority, InfoHash, PeerId, PrevState, ResumeData, TorrentState};
use vstd::prelude::*;
use vstd::string::*;
use vstd::utf8::encode_utf8;

verus! {

/// What a session shows of itself.
#[derive(Debug, Clone, Copy)]
pub struct TorrentStats {
    pub download_rate: u64,
    pub upload_rate: u64,
    pub downloaded: u64,
    pub uploaded: u64,
    pub connected_peers: usize,
    pub seeders: u64,
    pub leechers: u64,
    pub state: TorrentState,
    pub eta_seconds: Option<u64>,
}

/// A torrent that is being downloaded or shared.
pub struct TorrentSession {
    pub info_hash: InfoHash,
    pub peer_id: PeerId,
    pub meta: MetaInfo,
    pub piece_manager: PieceManager,
    pub file_priorities: Vec<FilePriority>,
    pub stats: TorrentStats,
    pub paused: bool,
    pub started: bool,
    pub total_downloaded: u64,
    pub total_uploaded: u64,
    pub completed_sent: bool,
    pub seed_ratio_reached: bool,
    pub completed_time: Option<i64>,
    pub torrent_bytes: Option<Vec<u8>>,
    pub peer_choke_stats: PeerTable,
    pub metadata_state: Option<MetadataState>,
}

/// Every file that is not skipped lies where pieces can be told for it.
pub open spec fn placeable(m: MetaModel, priorities: Seq<FilePriority>) -> bool {
    forall|i: int|
        0 <= i < m.files.len() && i < priorities.len() && #[trigger] priorities[i]
            != FilePriority::Skip ==> m.pieces.len() as u32 > 0 && m.piece_length > 0
            && m.files[i].offset + m.files[i].length <= u64::MAX
}

/// The priorities that a session starts with: the given ones, or normal for
/// each file.
pub open spec fn initial_of(m: MetaModel, given: Option<Seq<FilePriority>>) -> Seq<FilePriority> {
    match given {
        Some(p) => p,
        None => Seq::new(m.files.len(), |i: int| FilePriority::Normal),
    }
}

/// The priorities that are handed over.
pub open spec fn given_priorities(p: Option<&[FilePriority]>) -> Option<Seq<FilePriority>> {
    match p {
        Some(v) => Some(v@),
        None => None,
    }
}

/// The pieces have the priorities that follow from those of the files.
pub open spec fn prioritized(
    pm: PieceManager,
    meta: MetaInfo,
    priorities: Seq<FilePriority>,
) -> bool {
    forall|p: int|
        0 <= p < pm.num_pieces ==> #[trigger] pm.piece_priorities@[p] == priority_under(
            meta.files@,
            priorities,
            paired(meta.files@, priorities),
            meta.piece_length as int,
            p,
        )
}

/// A piece manager without pieces for the torrent, with the priorities of its
/// files.
pub open spec fn manages(pm: PieceManager, meta: MetaInfo, priorities: Seq<FilePriority>) -> bool {
    &&& pm.wf()
    &&& pm.num_pieces == meta.pieces@.len() as u32
    &&& pm.piece_length == meta.piece_length
    &&& pm.total_size == meta.total_size
    &&& pm.hashes@ == meta.pieces@
    &&& pm.have@ == Seq::new(pm.num_pieces as nat, |i: int| false)
    &&& pm.in_progress@ == Set::<u32>::empty()
    &&& pm.piece_availability@ == Seq::new(pm.num_pieces as nat, |i: int| 0u32)
    &&& prioritized(pm, meta, priorities)
}

/// What a session shows of itself before anything was transferred.
pub open spec fn fresh_stats(state: TorrentState) -> TorrentStats {
    TorrentStats {
        download_rate: 0,
        upload_rate: 0,
        downloaded: 0,
        uploaded: 0,
        connected_peers: 0,
        seeders: 0,
        leechers: 0,
        state,
        eta_seconds: None,
    }
}

/// A torrent file around an info dictionary.
pub open spec fn wrapped(info: Seq<u8>) -> Seq<u8> {
    seq![100u8, 52u8, 58u8, 105u8, 110u8, 102u8, 111u8] + info + seq![101u8]
}

/// What came of a complete info dictionary.
#[derive(Debug, Clone, Copy, PartialEq, Eq, Structural)]
pub enum Finalized {
    /// The torrent was known already.
    AlreadyKnown,
    /// The session now works on the torrent.
    Updated,
    /// The torrent describes files for which no pieces can be told.
    Unplaceable,
}

/// Adds a tracker unless it is listed already.
pub open spec fn with_tracker(list: Seq<Seq<char>>, url: Seq<char>) -> Seq<Seq<char>> {
    if list.contains(url) {
        list
    } else {
        list.push(url)
    }
}

/// Adds the trackers of a tier, each once.
pub open spec fn with_tier(list: Seq<Seq<char>>, tier: Seq<Seq<char>>, n: int) -> Seq<Seq<char>>
    decreases n,
{
    if n <= 0 {
        list
    } else {
        with_tracker(with_tier(list, tier, n - 1), tier[n - 1])
    }
}

/// Adds the trackers of tiers, each once.
pub open spec fn with_tiers(list: Seq<Seq<char>>, tiers: Seq<Seq<Seq<char>>>, n: int) -> Seq<
    Seq<char>,
>
    decreases n,
{
    if n <= 0 {
        list
    } else {
        with_tier(with_tiers(list, tiers, n - 1), tiers[n - 1], tiers[n - 1].len() as int)
    }
}

/// The trackers of a torrent in the order in which they are tried: the main
/// one, then those of the tiers, each once.
pub open spec fn trackers_of(m: MetaModel) -> Seq<Seq<char>> {
    with_tiers(
        match m.announce {
            Some(a) => seq![a],
            None => seq![],
        },
        m.announce_list,
        m.announce_list.len() as int,
    )
}

fn copy_hashes(v: &Vec<[u8; 20]>) -> (r: Vec<[u8; 20]>)
    ensures
        r@ == v@,
{
    let mut out: Vec<[u8; 20]> = Vec::new();
    let mut i: usize = 0;
    while i < v.len()
        invariant
            i <= v.len(),
            out@ == v@.take(i as int),
        decreases v.len() - i,
    {
        out.push(v[i]);
        i += 1;
        assert(out@ =~= v@.take(i as int));
    }
    assert(out@ =~= v@);
    out
}

fn copy_priorities(v: &[FilePriority]) -> (r: Vec<FilePriority>)
    ensures
        r@ == v@,
{
    let mut out: Vec<FilePriority> = Vec::new();
    let mut i: usize = 0;
    while i < v.len()
        invariant
            i <= v.len(),
            out@ == v@.take(i as int),
        decreases v.len() - i,
    {
        out.push(v[i]);
        i += 1;
        assert(out@ =~= v@.take(i as int));
    }
    assert(out@ =~= v@);
    out
}

fn copy_bytes(v: &Option<Vec<u8>>) -> (r: Option<Vec<u8>>)
    ensures
        match (*v, r) {
            (Some(a), Some(b)) => a@ == b@,
            (None, None) => true,
            _ => false,
        },
{
    match v {
        Some(b) => Some(vstd::slice::slice_to_vec(b.as_slice())),
        None => None,
    }
}

pub(crate) fn normal_priorities(n: usize) -> (r: Vec<FilePriority>)
    ensures
        r@ == Seq::new(n as nat, |i: int| FilePriority::Normal),
{
    let mut out: Vec<FilePriority> = Vec::new();
    while out.len() < n
        invariant
            out.len() <= n,
            forall|i: int| 0 <= i < out.len() ==> out@[i] == FilePriority::Normal,
        decreases n - out.len(),
    {
        out.push(FilePriority::Normal);
    }
    assert(out@ =~= Seq::new(n as nat, |i: int| FilePriority::Normal));
    out
}

/// Whether a list of strings holds a text.
fn contains_text(list: &Vec<String>, url: &str) -> (r: bool)
    ensures
        r == texts(list@).contains(url@),
{
    let mut i: usize = 0;
    while i < list.len()
        invariant
            i <= list.len(),
            forall|k: int| 0 <= k < i ==> (#[trigger] list@[k])@ != url@,
        decreases list.len() - i,
    {
        if str_equal(list[i].as_str(), url) {
            assert(texts(list@)[i as int] == url@);
            return true;
        }
        i += 1;
    }
    assert forall|k: int| 0 <= k < texts(list@).len() implies texts(list@)[k] != url@ by {
        assert(list@[k]@ != url@);
    }
    false
}

/// The trackers of a torrent in the order in which they are tried.
pub fn tracker_list(meta: &MetaInfo) -> (r: Vec<String>)
    ensures
        texts(r@) == trackers_of(meta@),
{
    let mut out: Vec<String> = Vec::new();
    assert(texts(out@) =~= seq![]);
    if let Some(a) = &meta.announce {
        out.push(a.clone());
        assert(texts(out@) =~= seq![a@]);
    }
    let ghost start = texts(out@);
    let ghost tiers = meta@.announce_list;
    let mut t: usize = 0;
    while t < meta.announce_list.len()
        invariant
            t <= meta.announce_list.len(),
            tiers == meta@.announce_list,
            texts(out@) == with_tiers(start, tiers, t as int),
        decreases meta.announce_list.len() - t,
    {
        let tier = &meta.announce_list[t];
        let ghost base = texts(out@);
        let mut i: usize = 0;
        while i < tier.len()
            invariant
                i <= tier.len(),
                texts(out@) == with_tier(base, texts(tier@), i as int),
            decreases tier.len() - i,
        {
            let ghost before = texts(out@);
            if !contains_text(&out, tier[i].as_str()) {
                out.push(tier[i].clone());
                assert(texts(out@) =~= before.push(tier@[i as int]@));
            }
            i += 1;
        }
        assert(tiers[t as int] == texts(tier@));
        t += 1;
    }
    out
}

impl TorrentSession {
    /// The parts fit together.
    pub open spec fn wf(&self) -> bool {
        &&& self.piece_manager.wf()
        &&& self.piece_manager.num_pieces == self.meta.pieces@.len() as u32
        &&& self.piece_manager.piece_length == self.meta.piece_length
        &&& self.piece_manager.total_size == self.meta.total_size
        &&& self.piece_manager.hashes@ == self.meta.pieces@
        &&& self.peer_choke_stats.wf()
    }

    /// The torrent's metadata is known.
    pub open spec fn has_metadata(&self) -> bool {
        self.meta.pieces@.len() as u32 > 0
    }

    /// Every piece is at hand.
    pub open spec fn complete(&self) -> bool {
        self.piece_manager.all_at_hand()
    }

    /// Tests whether pieces can be told for every file that is not skipped.
    pub fn can_open(meta: &MetaInfo, priorities: &[FilePriority]) -> (r: bool)
        ensures
            r == placeable(meta@, priorities@),
    {
        let hashes: Vec<[u8; 20]> = Vec::new();
        let pm = PieceManager::new(meta.num_pieces(), meta.piece_length, meta.total_size, hashes);
        pm.can_place(meta.files.as_slice(), priorities)
    }

    /// A piece manager for a torrent, with the priorities of its files.
    fn manager_for(meta: &MetaInfo, priorities: &[FilePriority]) -> (pm: PieceManager)
        requires
            placeable(meta@, priorities@),
        ensures
            manages(pm, *meta, priorities@),
    {
        let mut pm = PieceManager::new(
            meta.num_pieces(),
            meta.piece_length,
            meta.total_size,
            copy_hashes(&meta.pieces),
        );
        pm.apply_file_priorities(meta.files.as_slice(), priorities);
        pm
    }

    /// Nothing is at hand, nothing was counted and nothing was started yet.
    pub open spec fn is_new(
        self,
        meta: MetaInfo,
        peer_id: PeerId,
        priorities: Seq<FilePriority>,
        state: TorrentState,
    ) -> bool {
        &&& self.wf()
        &&& self.info_hash == meta.info_hash
        &&& self.peer_id == peer_id
        &&& self.meta == meta
        &&& self.file_priorities@ == priorities
        &&& manages(self.piece_manager, meta, priorities)
        &&& !self.paused && !self.started && !self.completed_sent && !self.seed_ratio_reached
        &&& self.total_downloaded == 0 && self.total_uploaded == 0
        &&& self.completed_time is None && self.torrent_bytes is None
        &&& self.metadata_state is None
        &&& self.peer_choke_stats@ == Map::<SocketAddrV4, PeerStats>::empty()
        &&& self.stats == fresh_stats(state)
    }

    /// A session on a torrent of which nothing is at hand.
    pub fn new(meta: MetaInfo, peer_id: PeerId, initial_priorities: Option<&[FilePriority]>) -> (r:
        TorrentSession)
        requires
            placeable(meta@, initial_of(meta@, given_priorities(initial_priorities))),
        ensures
            r.is_new(
                meta,
                peer_id,
                initial_of(meta@, given_priorities(initial_priorities)),
                TorrentState::Downloading,
            ),
    {
        let priorities: Vec<FilePriority> = match initial_priorities {
            Some(p) => copy_priorities(p),
            None => normal_priorities(meta.files.len()),
        };
        let pm = Self::manager_for(&meta, priorities.as_slice());
        TorrentSession {
            info_hash: meta.info_hash,
            peer_id,
            meta,
            piece_manager: pm,
            file_priorities: priorities,
            stats: TorrentStats {
                download_rate: 0,
                upload_rate: 0,
                downloaded: 0,
                uploaded: 0,
                connected_peers: 0,
                seeders: 0,
                leechers: 0,
                state: TorrentState::Downloading,
                eta_seconds: None,
            },
            paused: false,
            started: false,
            total_downloaded: 0,
            total_uploaded: 0,
            completed_sent: false,
            seed_ratio_reached: false,
            completed_time: None,
            torrent_bytes: None,
            peer_choke_stats: PeerTable::new(),
            metadata_state: None,
        }
    }

    /// Keeps the torrent file.
    pub fn set_torrent_bytes(&mut self, data: Vec<u8>)
        ensures
            *final(self) == (TorrentSession { torrent_bytes: Some(data), ..*old(self) }),
    {
        self.torrent_bytes = Some(data);
    }

    /// The state in which a torrent is taken up again.
    pub open spec fn resumed_state(self, rd: ResumeData) -> TorrentState {
        if rd.prev_state == PrevState::Paused {
            TorrentState::Paused
        } else if self.complete() {
            TorrentState::Seeding
        } else {
            TorrentState::Downloading
        }
    }

    /// The session after it has taken over what was kept of the torrent.
    pub open spec fn took_over(self, rd: ResumeData, then: TorrentSession) -> bool {
        &&& then.wf()
        &&& then.info_hash == self.info_hash
        &&& then.meta == self.meta
        &&& then.piece_manager.have@ == Seq::new(
            self.piece_manager.have@.len(),
            |i: int|
                if i < rd.have_pieces@.len() {
                    rd.have_pieces@[i]
                } else {
                    self.piece_manager.have@[i]
                },
        )
        &&& then.piece_manager.in_progress == self.piece_manager.in_progress
        &&& then.piece_manager.piece_availability == self.piece_manager.piece_availability
        &&& if rd.file_priorities@.len() == self.meta.files@.len() {
            &&& then.file_priorities@ == rd.file_priorities@
            &&& prioritized(then.piece_manager, self.meta, rd.file_priorities@)
        } else {
            &&& then.file_priorities == self.file_priorities
            &&& then.piece_manager.piece_priorities == self.piece_manager.piece_priorities
        }
        &&& then.total_downloaded == rd.downloaded
        &&& then.total_uploaded == rd.uploaded
        &&& then.paused == (rd.prev_state == PrevState::Paused)
        &&& then.stats == (TorrentStats {
            state: then.resumed_state(rd),
            downloaded: rd.downloaded,
            uploaded: rd.uploaded,
            ..self.stats
        })
        &&& then.peer_id == self.peer_id
        &&& then.completed_sent == self.completed_sent
        &&& then.seed_ratio_reached == self.seed_ratio_reached
        &&& then.torrent_bytes == self.torrent_bytes
        &&& then.started == self.started
        &&& then.completed_time == self.completed_time
        &&& then.metadata_state == self.metadata_state
        &&& then.peer_choke_stats == self.peer_choke_stats
    }

    /// Takes over what was kept of the torrent when it last ran.
    pub fn apply_resume(&mut self, rd: &ResumeData)
        requires
            old(self).wf(),
            rd.file_priorities@.len() == old(self).meta.files@.len() ==> placeable(
                old(self).meta@,
                rd.file_priorities@,
            ),
        ensures
            old(self).took_over(*rd, *final(self)),
    {
        self.piece_manager.load_have(rd.have_pieces.as_slice());
        self.total_downloaded = rd.downloaded;
        self.total_uploaded = rd.uploaded;
        if rd.file_priorities.len() == self.meta.files.len() {
            self.file_priorities = copy_priorities(rd.file_priorities.as_slice());
            self.piece_manager.apply_file_priorities(
                self.meta.files.as_slice(),
                rd.file_priorities.as_slice(),
            );
        }
        self.paused = rd.prev_state == PrevState::Paused;
        let state = if rd.prev_state == PrevState::Paused {
            TorrentState::Paused
        } else if self.piece_manager.is_complete() {
            TorrentState::Seeding
        } else {
            TorrentState::Downloading
        };
        self.stats.state = state;
        self.stats.downloaded = rd.downloaded;
        self.stats.uploaded = rd.uploaded;
        assert(state == self.resumed_state(*rd));
    }

    /// What is kept of the session between runs.
    pub open spec fn kept_as(self, now: i64, r: ResumeData) -> bool {
        &&& encode_utf8(r.info_hash@) == hex_bytes(self.info_hash@)
        &&& r.have_pieces@ == self.piece_manager.have@
        &&& r.downloaded == self.total_downloaded
        &&& r.uploaded == self.total_uploaded
        &&& r.file_priorities@ == self.file_priorities@
        &&& r.added_time == now
        &&& match (self.torrent_bytes, r.torrent_bytes) {
            (Some(a), Some(b)) => a@ == b@,
            (None, None) => true,
            _ => false,
        }
        &&& r.prev_state == if self.paused || !self.started {
            PrevState::Paused
        } else {
            PrevState::Running
        }
    }

    /// What is to be kept of the torrent between runs, at the given time in
    /// seconds. The first time the torrent is found complete is remembered.
    pub fn snapshot_resume(&mut self, now: i64) -> (r: ResumeData)
        requires
            old(self).wf(),
        ensures
            *final(self) == (TorrentSession {
                completed_time: if old(self).complete() && old(self).completed_time is None {
                    Some(now)
                } else {
                    old(self).completed_time
                },
                ..*old(self)
            }),
            old(self).kept_as(now, r),
            r.completed_time == final(self).completed_time,
    {
        if self.piece_manager.is_complete() && self.completed_time.is_none() {
            self.completed_time = Some(now);
        }
        ResumeData {
            info_hash: self.info_hash.to_hex(),
            have_pieces: self.piece_manager.get_have_vec(),
            downloaded: self.total_downloaded,
            uploaded: self.total_uploaded,
            file_priorities: copy_priorities(self.file_priorities.as_slice()),
            added_time: now,
            completed_time: self.completed_time,
            torrent_bytes: copy_bytes(&self.torrent_bytes),
            prev_state: if self.paused || !self.started {
                PrevState::Paused
            } else {
                PrevState::Running
            },
        }
    }

    /// Sets the priority of a file. A file that does not exist is ignored.
    pub fn set_file_priority(&mut self, file_index: usize, priority: FilePriority)
        requires
            old(self).wf(),
            file_index < old(self).file_priorities@.len() ==> placeable(
                old(self).meta@,
                old(self).file_priorities@.update(file_index as int, priority),
            ),
        ensures
            final(self).wf(),
            file_index >= old(self).file_priorities@.len() ==> *final(self) == *old(self),
            file_index < old(self).file_priorities@.len() ==> {
                let chosen = old(self).file_priorities@.update(file_index as int, priority);
                &&& final(self).file_priorities@ == chosen
                &&& prioritized(final(self).piece_manager, old(self).meta, chosen)
                &&& final(self).piece_manager.have == old(self).piece_manager.have
                &&& final(self).piece_manager.in_progress == old(self).piece_manager.in_progress
                &&& final(self).piece_manager.piece_availability
                    == old(self).piece_manager.piece_availability
                &&& *final(self) == (TorrentSession {
                    file_priorities: final(self).file_priorities,
                    piece_manager: final(self).piece_manager,
                    ..*old(self)
                })
            },
    {
        if file_index < self.file_priorities.len() {
            self.file_priorities.set(file_index, priority);
            self.piece_manager.apply_file_priorities(
                self.meta.files.as_slice(),
                self.file_priorities.as_slice(),
            );
        }
    }

    /// The priorities of the files.
    pub fn get_file_priorities(&self) -> (r: Vec<FilePriority>)
        ensures
            r@ == self.file_priorities@,
    {
        copy_priorities(self.file_priorities.as_slice())
    }

    /// Marks the session as started and says whether it was not before.
    pub fn begin(&mut self) -> (r: bool)
        ensures
            r == !old(self).started,
            *final(self) == (TorrentSession { started: true, ..*old(self) }),
    {
        let first = !self.started;
        self.started = true;
        first
    }

    /// Pauses the session.
    pub fn pause(&mut self)
        ensures
            *final(self) == (TorrentSession { paused: true, ..*old(self) }),
    {
        self.paused = true;
    }

    /// Ends a pause; the session can be started again.
    pub fn resume(&mut self)
        ensures
            *final(self) == (TorrentSession { paused: false, started: false, ..*old(self) }),
    {
        self.paused = false;
        self.started = false;
    }

    /// Whether pieces are fetched from web seeds: only of torrents that name
    /// some and are not private.
    pub fn uses_webseeds(&self, enabled: bool) -> (r: bool)
        ensures
            r == (enabled && self.meta.url_list@.len() > 0 && !self.meta.is_private),
    {
        enabled && self.meta.url_list.len() > 0 && !self.meta.is_private
    }

    /// What the session is doing.
    pub open spec fn current_state(&self) -> TorrentState {
        if self.paused {
            TorrentState::Paused
        } else if !self.has_metadata() {
            TorrentState::FetchingMetadata
        } else if self.complete() && self.seed_ratio_reached {
            TorrentState::Complete
        } else if self.complete() {
            TorrentState::Seeding
        } else {
            TorrentState::Downloading
        }
    }

    /// The session after it has taken stock of itself.
    pub open spec fn shows(
        self,
        last_downloaded: u64,
        last_uploaded: u64,
        connected: usize,
        remaining: u64,
        then: TorrentSession,
    ) -> bool {
        let dl = if self.total_downloaded >= last_downloaded {
            (self.total_downloaded - last_downloaded) as u64
        } else {
            0
        };
        let ul = if self.total_uploaded >= last_uploaded {
            (self.total_uploaded - last_uploaded) as u64
        } else {
            0
        };
        then == (TorrentSession {
            stats: TorrentStats {
                download_rate: dl,
                upload_rate: ul,
                downloaded: self.total_downloaded,
                uploaded: self.total_uploaded,
                connected_peers: connected,
                state: self.current_state(),
                eta_seconds: if dl > 0 {
                    Some((remaining as int / dl as int) as u64)
                } else {
                    None
                },
                ..self.stats
            },
            ..self
        })
    }

    /// Updates what the session shows of itself, once a second. `remaining` is
    /// how many bytes are left to download.
    pub fn update_stats(
        &mut self,
        last_downloaded: u64,
        last_uploaded: u64,
        connected: usize,
        remaining: u64,
    )
        requires
            old(self).wf(),
        ensures
            final(self).wf(),
            old(self).shows(last_downloaded, last_uploaded, connected, remaining, *final(self)),
    {
        let dl: u64 = self.total_downloaded.saturating_sub(last_downloaded);
        let ul: u64 = self.total_uploaded.saturating_sub(last_uploaded);
        let complete = self.piece_manager.is_complete();
        let state = if self.paused {
            TorrentState::Paused
        } else if self.meta.num_pieces() == 0 {
            TorrentState::FetchingMetadata
        } else if complete && self.seed_ratio_reached {
            TorrentState::Complete
        } else if complete {
            TorrentState::Seeding
        } else {
            TorrentState::Downloading
        };
        self.stats.download_rate = dl;
        self.stats.upload_rate = ul;
        self.stats.downloaded = self.total_downloaded;
        self.stats.uploaded = self.total_uploaded;
        self.stats.connected_peers = connected;
        self.stats.state = state;
        self.stats.eta_seconds = if dl > 0 {
            Some(remaining / dl)
        } else {
            None
        };
    }

    /// Takes over what a tracker said of the swarm.
    pub fn note_swarm(&mut self, seeders: Option<u64>, leechers: Option<u64>)
        ensures
            *final(self) == (TorrentSession {
                stats: TorrentStats {
                    seeders: match seeders {
                        Some(s) => s,
                        None => old(self).stats.seeders,
                    },
                    leechers: match leechers {
                        Some(l) => l,
                        None => old(self).stats.leechers,
                    },
                    ..old(self).stats
                },
                ..*old(self)
            }),
    {
        if let Some(s) = seeders {
            self.stats.seeders = s;
        }
        if let Some(l) = leechers {
            self.stats.leechers = l;
        }
    }

    /// Whether the trackers are to be told now that the download is complete;
    /// they are told once.
    pub fn completion_due(&mut self) -> (r: bool)
        requires
            old(self).wf(),
        ensures
            r == (old(self).complete() && !old(self).completed_sent),
            *final(self) == (TorrentSession {
                completed_sent: old(self).completed_sent || old(self).complete(),
                ..*old(self)
            }),
    {
        if self.piece_manager.is_complete() && !self.completed_sent {
            self.completed_sent = true;
            true
        } else {
            false
        }
    }

    /// A torrent file around an info dictionary.
    pub fn wrap_info_dict(info_dict: &[u8]) -> (r: Vec<u8>)
        ensures
            r@ == wrapped(info_dict@),
    {
        let mut data: Vec<u8> = vec![100u8, 52u8, 58u8, 105u8, 110u8, 102u8, 111u8];
        data.extend_from_slice(info_dict);
        data.push(101);
        assert(data@ =~= wrapped(info_dict@));
        data
    }

    /// Goes over to a torrent whose info dictionary has been fetched from
    /// peers: reads it, starts over with no piece at hand, and keeps the
    /// torrent file.
    pub fn finalize_metadata(&mut self, assembled: &[u8]) -> (r: Result<Finalized, TorrentError>)
        requires
            old(self).wf(),
        ensures
            final(self).wf(),
            old(self).has_metadata() ==> r == Ok::<Finalized, TorrentError>(
                Finalized::AlreadyKnown,
            ) && *final(self) == *old(self),
            !old(self).has_metadata() ==> match (r, meta_of(wrapped(assembled@))) {
                (Err(e), Err(f)) => reports_meta(e, f) && *final(self) == *old(self),
                (Ok(Finalized::Unplaceable), Ok(m)) => !placeable(m, initial_of(m, None))
                    && *final(self) == *old(self),
                (Ok(Finalized::Updated), Ok(m)) => {
                    let priorities = Seq::new(
                        final(self).meta.files@.len(),
                        |i: int| FilePriority::Normal,
                    );
                    &&& final(self).meta@ == m
                    &&& final(self).file_priorities@ == priorities
                    &&& placeable(m, priorities)
                    &&& manages(final(self).piece_manager, final(self).meta, priorities)
                    &&& final(self).torrent_bytes matches Some(t) && t@ == wrapped(assembled@)
                    &&& *final(self) == (TorrentSession {
                        meta: final(self).meta,
                        piece_manager: final(self).piece_manager,
                        file_priorities: final(self).file_priorities,
                        torrent_bytes: final(self).torrent_bytes,
                        stats: TorrentStats {
                            state: TorrentState::Downloading,
                            ..old(self).stats
                        },
                        ..*old(self)
                    })
                },
                _ => false,
            },
    {
        if self.meta.num_pieces() > 0 {
            return Ok(Finalized::AlreadyKnown);
        }
        let bytes = Self::wrap_info_dict(assembled);
        let meta = match MetaInfo::from_bytes(bytes.as_slice()) {
            Ok(m) => m,
            Err(e) => {
                return Err(e);
            },
        };
        let priorities = normal_priorities(meta.files.len());
        if !Self::can_open(&meta, priorities.as_slice()) {
            assert(priorities@ == initial_of(meta@, None));
            return Ok(Finalized::Unplaceable);
        }
        let pm = Self::manager_for(&meta, priorities.as_slice());
        self.file_priorities = priorities;
        self.piece_manager = pm;
        self.meta = meta;
        self.torrent_bytes = Some(bytes);
        self.stats.state = TorrentState::Downloading;
        Ok(Finalized::Updated)
    }
}

/// What a session does about seeding.
#[derive(Debug, Clone, Copy, PartialEq, Eq, Structural)]
pub enum Seeding {
    /// The download is not complete.
    NotYet,
    /// The torrent is shared.
    Share,
    /// The torrent was shared enough.
    Stop,
}

impl TorrentSession {
    /// The session after it has decided about seeding.
    pub open spec fn shares(
        self,
        ratio_enabled: bool,
        ratio_at_limit: bool,
        then: TorrentSession,
        r: Seeding,
    ) -> bool {
        &&& r == if !(self.has_metadata() && self.complete()) {
            Seeding::NotYet
        } else if ratio_enabled && self.total_downloaded > 0 && ratio_at_limit {
            Seeding::Stop
        } else {
            Seeding::Share
        }
        &&& then == (TorrentSession {
            stats: if r == Seeding::NotYet {
                self.stats
            } else {
                TorrentStats { state: TorrentState::Seeding, ..self.stats }
            },
            seed_ratio_reached: self.seed_ratio_reached || r == Seeding::Stop,
            ..self
        })
    }

    /// Decides about seeding. `ratio_at_limit` says whether as much was
    /// uploaded, relative to what was downloaded, as the user asked for.
    pub fn check_seeding(&mut self, ratio_enabled: bool, ratio_at_limit: bool) -> (r: Seeding)
        requires
            old(self).wf(),
        ensures
            final(self).wf(),
            old(self).shares(ratio_enabled, ratio_at_limit, *final(self), r),
    {
        if self.meta.num_pieces() > 0 && self.piece_manager.is_complete() {
            self.stats.state = TorrentState::Seeding;
            if ratio_enabled && self.total_downloaded > 0 && ratio_at_limit {
                self.seed_ratio_reached = true;
                return Seeding::Stop;
            }
            return Seeding::Share;
        }
        Seeding::NotYet
    }
}

proof fn lemma_with_tier_unique(list: Seq<Seq<char>>, tier: Seq<Seq<char>>, n: int)
    requires
        list.no_duplicates(),
        0 <= n <= tier.len(),
    ensures
        with_tier(list, tier, n).no_duplicates(),
        list.is_prefix_of(with_tier(list, tier, n)),
    decreases n,
{
    if n > 0 {
        lemma_with_tier_unique(list, tier, n - 1);
        let before = with_tier(list, tier, n - 1);
        let after = with_tier(list, tier, n);
        assert(list =~= before.take(list.len() as int));
        assert(list =~= after.take(list.len() as int));
    } else {
        assert(list =~= list.take(list.len() as int));
    }
}

proof fn lemma_with_tiers_unique(list: Seq<Seq<char>>, tiers: Seq<Seq<Seq<char>>>, n: int)
    requires
        list.no_duplicates(),
        0 <= n <= tiers.len(),
    ensures
        with_tiers(list, tiers, n).no_duplicates(),
        list.is_prefix_of(with_tiers(list, tiers, n)),
    decreases n,
{
    if n > 0 {
        lemma_with_tiers_unique(list, tiers, n - 1);
        let before = with_tiers(list, tiers, n - 1);
        lemma_with_tier_unique(before, tiers[n - 1], tiers[n - 1].len() as int);
        let after = with_tiers(list, tiers, n);
        assert(list =~= before.take(list.len() as int));
        assert(before =~= after.take(before.len() as int));
        assert(list =~= after.take(list.len() as int));
    } else {
        assert(list =~= list.take(list.len() as int));
    }
}

/// No tracker is listed twice, and the main one comes first.
pub proof fn law_trackers(m: MetaModel)
    ensures
        trackers_of(m).no_duplicates(),
        m.announce matches Some(a) ==> trackers_of(m).len() > 0 && trackers_of(m)[0] == a,
{
    let start: Seq<Seq<char>> = match m.announce {
        Some(a) => seq![a],
        None => seq![],
    };
    lemma_with_tiers_unique(start, m.announce_list, m.announce_list.len() as int);
    if let Some(a) = m.announce {
        assert(start =~= trackers_of(m).take(1));
        assert(trackers_of(m).take(1)[0] == a);
    }
}

} // verus!
