//! Which torrents run: the queue, and what torrents start from.

use crate::error::TorrentError;
use crate::metainfo::{meta_of, reports_meta, MetaInfo, MetaModel};
use crate::net::SocketAddrV4;
use crate::network::peers::PeerStats;
use crate::network::session::{
    fresh_stats, given_priorities, initial_of, normal_priorities, placeable, prioritized,
    TorrentSession, TorrentStats,
};
use crate::outside::hex_bytes;
use crate::types::{
    texts, FilePriority, MagnetLink, PeerId, PrevState, ResumeData, TorrentState,
};
use vstd::prelude::*;
use vstd::string::*;
use vstd::utf8::encode_utf8;

verus! {

/// What the queue looks at in a torrent. The greater `progress`, the further
/// the download is.
#[derive(Debug, Clone, Copy)]
pub struct QueueEntry {
    pub complete: bool,
    pub paused: bool,
    pub queue_paused: bool,
    pub started: bool,
    pub progress: u32,
}

/// What the queue does with a torrent.
#[derive(Debug, Clone, Copy, PartialEq, Eq, Structural)]
pub enum QueueAction {
    /// It stays as it is.
    Keep,
    /// Its pause ends.
    Resume,
    /// Its pause ends and it is started.
    Start,
    /// It is paused until there is room for it.
    Queue,
}

/// A torrent that takes a place in the queue: it is not complete, and the user
/// has not paused it.
pub open spec fn competes(e: QueueEntry) -> bool {
    !e.complete && !(e.paused && !e.queue_paused)
}

/// One torrent goes before another: it is further, or as far and earlier in the
/// list.
pub open spec fn goes_before(entries: Seq<QueueEntry>, j: int, i: int) -> bool {
    competes(entries[j]) && (entries[j].progress > entries[i].progress || (entries[j].progress
        == entries[i].progress && j < i))
}

/// How many of the first `n` torrents go before one.
pub open spec fn ahead(entries: Seq<QueueEntry>, i: int, n: int) -> nat
    decreases n,
{
    if n <= 0 {
        0
    } else {
        ahead(entries, i, n - 1) + if goes_before(entries, n - 1, i) {
            1nat
        } else {
            0nat
        }
    }
}

/// There is room for a torrent: fewer than `max` go before it.
pub open spec fn has_room(entries: Seq<QueueEntry>, i: int, max: int) -> bool {
    competes(entries[i]) && ahead(entries, i, entries.len() as int) < max
}

/// What the queue does with a torrent if at most `max` are downloaded at a
/// time; none is queued if `max` is zero.
pub open spec fn queue_action(entries: Seq<QueueEntry>, i: int, max: int) -> QueueAction {
    let e = entries[i];
    if max == 0 {
        if !e.queue_paused {
            QueueAction::Keep
        } else if e.started {
            QueueAction::Resume
        } else {
            QueueAction::Start
        }
    } else if e.complete {
        if e.queue_paused {
            QueueAction::Resume
        } else {
            QueueAction::Keep
        }
    } else if !competes(e) {
        QueueAction::Keep
    } else if has_room(entries, i, max) {
        if !e.started {
            QueueAction::Start
        } else if e.queue_paused {
            QueueAction::Resume
        } else {
            QueueAction::Keep
        }
    } else if e.queue_paused {
        QueueAction::Keep
    } else {
        QueueAction::Queue
    }
}

/// Decides for each torrent whether it runs: those that are furthest, up to
/// `max`, and those that are complete; none is held back if `max` is zero.
pub fn enforce_queue(entries: &Vec<QueueEntry>, max: usize) -> (r: Vec<QueueAction>)
    ensures
        r@.len() == entries@.len(),
        forall|i: int|
            0 <= i < r@.len() ==> #[trigger] r@[i] == queue_action(entries@, i, max as int),
{
    let mut out: Vec<QueueAction> = Vec::new();
    let mut i: usize = 0;
    while i < entries.len()
        invariant
            i <= entries.len(),
            out@.len() == i,
            forall|k: int|
                0 <= k < i ==> #[trigger] out@[k] == queue_action(entries@, k, max as int),
        decreases entries.len() - i,
    {
        let e: QueueEntry = entries[i];
        let action: QueueAction = if max == 0 {
            if !e.queue_paused {
                QueueAction::Keep
            } else if e.started {
                QueueAction::Resume
            } else {
                QueueAction::Start
            }
        } else if e.complete {
            if e.queue_paused {
                QueueAction::Resume
            } else {
                QueueAction::Keep
            }
        } else if e.paused && !e.queue_paused {
            QueueAction::Keep
        } else if count_ahead(entries, i) < max {
            if !e.started {
                QueueAction::Start
            } else if e.queue_paused {
                QueueAction::Resume
            } else {
                QueueAction::Keep
            }
        } else if e.queue_paused {
            QueueAction::Keep
        } else {
            QueueAction::Queue
        };
        out.push(action);
        i += 1;
    }
    out
}

fn count_ahead(entries: &Vec<QueueEntry>, i: usize) -> (r: usize)
    requires
        i < entries.len(),
    ensures
        r == ahead(entries@, i as int, entries@.len() as int),
{
    let mut count: usize = 0;
    let mut j: usize = 0;
    while j < entries.len()
        invariant
            i < entries.len(),
            j <= entries.len(),
            count <= j,
            count == ahead(entries@, i as int, j as int),
        decreases entries.len() - j,
    {
        let e: QueueEntry = entries[j];
        let mine: u32 = entries[i].progress;
        if !e.complete && !(e.paused && !e.queue_paused) && (e.progress > mine || (e.progress
            == mine && j < i)) {
            count += 1;
        }
        j += 1;
    }
    count
}

/// A torrent and those before it are before all that it goes before.
proof fn lemma_ahead_grows(entries: Seq<QueueEntry>, i: int, k: int, n: int)
    requires
        0 <= i < entries.len(),
        0 <= k < entries.len(),
        0 <= n <= entries.len(),
        competes(entries[i]),
        goes_before(entries, i, k),
    ensures
        ahead(entries, i, n) + (if i < n {
            1int
        } else {
            0int
        }) <= ahead(entries, k, n),
    decreases n,
{
    if n > 0 {
        lemma_ahead_grows(entries, i, k, n - 1);
    }
}

/// How many of the first `n` torrents there is room for.
pub open spec fn running(entries: Seq<QueueEntry>, max: int, n: int) -> nat
    decreases n,
{
    if n <= 0 {
        0
    } else {
        running(entries, max, n - 1) + if has_room(entries, n - 1, max) {
            1nat
        } else {
            0nat
        }
    }
}

/// The places of those of the first `n` torrents that there is room for.
spec fn places(entries: Seq<QueueEntry>, max: int, n: int) -> Set<int> {
    Set::new(|i: int| 0 <= i < n && has_room(entries, i, max))
}

proof fn lemma_places(entries: Seq<QueueEntry>, max: int, n: int)
    requires
        0 <= n <= entries.len(),
    ensures
        places(entries, max, n).finite(),
        places(entries, max, n).len() == running(entries, max, n),
    decreases n,
{
    if n == 0 {
        assert(places(entries, max, n) =~= Set::empty());
    } else {
        lemma_places(entries, max, n - 1);
        if has_room(entries, n - 1, max) {
            assert(places(entries, max, n) =~= places(entries, max, n - 1).insert(n - 1));
        } else {
            assert(places(entries, max, n) =~= places(entries, max, n - 1));
        }
    }
}

/// There is never room for more torrents than may be downloaded at a time.
pub proof fn law_queue_limit(entries: Seq<QueueEntry>, max: int)
    requires
        max >= 0,
    ensures
        running(entries, max, entries.len() as int) <= max,
{
    let n = entries.len() as int;
    let a = places(entries, max, n);
    lemma_places(entries, max, n);
    let f = |i: int| ahead(entries, i, n) as int;
    assert forall|i: int, k: int| a.contains(i) && a.contains(k) && #[trigger] f(i) == #[trigger] f(
        k,
    ) implies i == k by {
        if i != k {
            if goes_before(entries, i, k) {
                lemma_ahead_grows(entries, i, k, n);
            } else {
                assert(goes_before(entries, k, i));
                lemma_ahead_grows(entries, k, i, n);
            }
        }
    }
    let b = a.map(f);
    vstd::set_lib::lemma_map_size(a, b, f);
    let range = vstd::set_lib::set_int_range(0, max);
    vstd::set_lib::lemma_int_range(0, max);
    assert(b.subset_of(range)) by {
        assert forall|x: int| b.contains(x) implies range.contains(x) by {
            let i = choose|i: int| a.contains(i) && f(i) == x;
            assert(has_room(entries, i, max));
        }
    }
    vstd::set_lib::lemma_len_subset(b, range);
}

/// A torrent that is behind another in the queue runs only if the other does.
pub proof fn law_queue_order(entries: Seq<QueueEntry>, i: int, k: int, max: int)
    requires
        0 <= i < entries.len(),
        0 <= k < entries.len(),
        goes_before(entries, i, k),
        has_room(entries, k, max),
    ensures
        has_room(entries, i, max),
{
    lemma_ahead_grows(entries, i, k, entries.len() as int);
}

/// What is known of a torrent from its magnet link alone.
pub open spec fn magnet_model(link: MagnetLink, m: MetaModel) -> bool {
    let trackers = texts(link.trackers@);
    &&& m.info_hash == link.info_hash@
    &&& match link.display_name {
        Some(n) => m.name == n@,
        None => encode_utf8(m.name) == hex_bytes(link.info_hash@),
    }
    &&& m.piece_length == 0
    &&& m.pieces.len() == 0
    &&& m.files.len() == 0
    &&& m.total_size == 0
    &&& m.announce == if trackers.len() > 0 {
        Some(trackers[0])
    } else {
        None
    }
    &&& m.announce_list == if trackers.len() > 0 {
        seq![trackers]
    } else {
        seq![]
    }
    &&& m.url_list == texts(link.web_seeds@)
    &&& m.comment is None
    &&& m.created_by is None
    &&& m.creation_date is None
    &&& !m.is_private
}

fn copy_texts(v: &Vec<String>) -> (r: Vec<String>)
    ensures
        texts(r@) == texts(v@),
        r@.len() == v@.len(),
{
    let mut out: Vec<String> = Vec::new();
    let mut i: usize = 0;
    while i < v.len()
        invariant
            i <= v.len(),
            out@.len() == i,
            forall|k: int| 0 <= k < i ==> (#[trigger] out@[k])@ == v@[k]@,
        decreases v.len() - i,
    {
        out.push(v[i].clone());
        i += 1;
    }
    assert(texts(out@) =~= texts(v@));
    out
}

/// What is known of a torrent from its magnet link alone.
pub fn magnet_meta(link: &MagnetLink) -> (r: MetaInfo)
    ensures
        magnet_model(*link, r@),
        r.files@.len() == 0,
        r.pieces@.len() == 0,
{
    let name: String = match &link.display_name {
        Some(n) => n.clone(),
        None => link.info_hash.to_hex(),
    };
    let trackers: Vec<String> = copy_texts(&link.trackers);
    let announce: Option<String> = if trackers.len() > 0 {
        Some(trackers[0].clone())
    } else {
        None
    };
    let mut announce_list: Vec<Vec<String>> = Vec::new();
    if trackers.len() > 0 {
        announce_list.push(trackers);
    }
    let meta = MetaInfo {
        info_hash: link.info_hash,
        name,
        piece_length: 0,
        pieces: Vec::new(),
        files: Vec::new(),
        total_size: 0,
        announce,
        announce_list,
        url_list: copy_texts(&link.web_seeds),
        comment: None,
        created_by: None,
        creation_date: None,
        is_private: false,
    };
    proof {
        let t = texts(link.trackers@);
        assert(t.len() == link.trackers@.len());
        if t.len() > 0 {
            assert(t[0] == link.trackers@[0]@);
            assert(meta@.announce_list =~= seq![t]);
        } else {
            assert(meta@.announce_list =~= seq![]);
        }
    }
    meta
}

/// A session on a torrent of which only the magnet link is known.
pub fn open_magnet(link: &MagnetLink, peer_id: PeerId) -> (r: TorrentSession)
    ensures
        magnet_model(*link, r.meta@),
        r.is_new(r.meta, peer_id, seq![], TorrentState::FetchingMetadata),
        r.info_hash == link.info_hash,
        !r.has_metadata(),
{
    let meta: MetaInfo = magnet_meta(link);
    proof {
        assert(meta.info_hash@ == link.info_hash@);
        crate::types::lemma_array20_ext(meta.info_hash.0, link.info_hash.0);
    }
    let mut session = TorrentSession::new(meta, peer_id, None);
    assert(session.file_priorities@ =~= seq![]);
    session.stats.state = TorrentState::FetchingMetadata;
    session
}

/// Why no session can be opened.
#[derive(Debug)]
pub enum OpenFault {
    /// The torrent file cannot be read.
    Torrent(TorrentError),
    /// No pieces can be told for a file that is to be downloaded.
    Unplaceable,
}

/// Priorities, with the chosen ones in place of the first of them.
pub open spec fn overlaid(base: Seq<FilePriority>, chosen: Seq<FilePriority>) -> Seq<FilePriority> {
    Seq::new(
        base.len(),
        |i: int|
            if i < chosen.len() {
                chosen[i]
            } else {
                base[i]
            },
    )
}

/// The priorities of the files of a torrent that is opened: what was chosen
/// goes before what was kept, and what was kept before the usual.
pub open spec fn opened_priorities(
    m: MetaModel,
    chosen: Option<Seq<FilePriority>>,
    kept: Option<ResumeData>,
) -> Seq<FilePriority> {
    let base = match kept {
        Some(rd) if rd.file_priorities@.len() == m.files.len() => rd.file_priorities@,
        _ => initial_of(m, chosen),
    };
    match chosen {
        Some(c) => overlaid(base, c),
        None => base,
    }
}

/// Pieces can be told for the files under the chosen priorities and under
/// those that were kept.
pub open spec fn can_be_opened(
    m: MetaModel,
    chosen: Option<Seq<FilePriority>>,
    kept: Option<ResumeData>,
) -> bool {
    &&& placeable(m, initial_of(m, chosen))
    &&& match kept {
        Some(rd) => rd.file_priorities@.len() == m.files.len() ==> placeable(
            m,
            rd.file_priorities@,
        ),
        None => true,
    }
}

/// Which of `n` pieces were kept.
pub open spec fn kept_pieces(kept: Option<ResumeData>, n: nat) -> Seq<bool> {
    Seq::new(
        n,
        |i: int|
            match kept {
                Some(rd) => i < rd.have_pieces@.len() && rd.have_pieces@[i],
                None => false,
            },
    )
}

/// A session just opened on a torrent file, with what was kept of the torrent.
pub open spec fn opened(
    s: TorrentSession,
    data: Seq<u8>,
    peer_id: PeerId,
    chosen: Option<Seq<FilePriority>>,
    kept: Option<ResumeData>,
) -> bool {
    let pm = s.piece_manager;
    &&& s.wf()
    &&& s.info_hash == s.meta.info_hash
    &&& s.peer_id == peer_id
    &&& match s.torrent_bytes {
        Some(b) => b@ == data,
        None => false,
    }
    &&& s.file_priorities@ == opened_priorities(s.meta@, chosen, kept)
    &&& prioritized(pm, s.meta, s.file_priorities@)
    &&& pm.have@ == kept_pieces(kept, pm.num_pieces as nat)
    &&& pm.in_progress@ == Set::<u32>::empty()
    &&& pm.piece_availability@ == Seq::new(pm.num_pieces as nat, |i: int| 0u32)
    &&& match kept {
        Some(rd) => {
            &&& s.total_downloaded == rd.downloaded
            &&& s.total_uploaded == rd.uploaded
            &&& s.paused == (rd.prev_state == PrevState::Paused)
            &&& s.stats == (TorrentStats {
                downloaded: rd.downloaded,
                uploaded: rd.uploaded,
                ..fresh_stats(s.resumed_state(rd))
            })
        },
        None => {
            &&& s.total_downloaded == 0 && s.total_uploaded == 0
            &&& !s.paused
            &&& s.stats == fresh_stats(TorrentState::Downloading)
        },
    }
    &&& !s.started && !s.completed_sent && !s.seed_ratio_reached
    &&& s.completed_time is None && s.metadata_state is None
    &&& s.peer_choke_stats@ == Map::<SocketAddrV4, PeerStats>::empty()
}

/// What was kept of a torrent, if anything.
pub open spec fn known(kept: Option<&ResumeData>) -> Option<ResumeData> {
    match kept {
        Some(rd) => Some(*rd),
        None => None,
    }
}

/// Sets the priorities of the first files, one after the other.
fn set_chosen(session: &mut TorrentSession, chosen: &[FilePriority])
    requires
        old(session).wf(),
        placeable(old(session).meta@, old(session).file_priorities@),
        placeable(old(session).meta@, chosen@),
        prioritized(
            old(session).piece_manager,
            old(session).meta,
            old(session).file_priorities@,
        ),
    ensures
        final(session).wf(),
        final(session).file_priorities@ == overlaid(old(session).file_priorities@, chosen@),
        prioritized(
            final(session).piece_manager,
            old(session).meta,
            final(session).file_priorities@,
        ),
        final(session).piece_manager.have == old(session).piece_manager.have,
        final(session).piece_manager.in_progress == old(session).piece_manager.in_progress,
        final(session).piece_manager.piece_availability == old(
            session,
        ).piece_manager.piece_availability,
        *final(session) == (TorrentSession {
            file_priorities: final(session).file_priorities,
            piece_manager: final(session).piece_manager,
            ..*old(session)
        }),
{
    let ghost start = *session;
    let ghost base = start.file_priorities@;
    let mut i: usize = 0;
    assert(overlaid(base, chosen@.take(0)) =~= base);
    while i < chosen.len()
        invariant
            i <= chosen.len(),
            base == start.file_priorities@,
            placeable(start.meta@, base),
            placeable(start.meta@, chosen@),
            session.wf(),
            session.file_priorities@ == overlaid(base, chosen@.take(i as int)),
            prioritized(session.piece_manager, start.meta, session.file_priorities@),
            session.piece_manager.have == start.piece_manager.have,
            session.piece_manager.in_progress == start.piece_manager.in_progress,
            session.piece_manager.piece_availability == start.piece_manager.piece_availability,
            *session == (TorrentSession {
                file_priorities: session.file_priorities,
                piece_manager: session.piece_manager,
                ..start
            }),
        decreases chosen.len() - i,
    {
        let ghost before = session.file_priorities@;
        proof {
            if i < before.len() {
                let next = before.update(i as int, chosen@[i as int]);
                assert forall|k: int|
                    0 <= k < start.meta@.files.len() && k < next.len() && #[trigger] next[k]
                        != FilePriority::Skip implies start.meta@.pieces.len() as u32 > 0
                    && start.meta@.piece_length > 0 && start.meta@.files[k].offset
                    + start.meta@.files[k].length <= u64::MAX by {
                    if k <= i {
                        assert(next[k] == chosen@[k]);
                    } else {
                        assert(next[k] == base[k]);
                    }
                }
                assert(placeable(start.meta@, next));
            }
        }
        session.set_file_priority(i, chosen[i]);
        i += 1;
        assert(session.file_priorities@ =~= overlaid(base, chosen@.take(i as int)));
    }
    assert(chosen@.take(i as int) =~= chosen@);
}

/// Opens a session on a torrent file, with the priorities that were chosen and
/// with what was kept of the torrent when it last ran.
pub fn open_torrent(
    data: Vec<u8>,
    peer_id: PeerId,
    chosen: Option<&[FilePriority]>,
    kept: Option<&ResumeData>,
) -> (r: Result<TorrentSession, OpenFault>)
    ensures
        match (r, meta_of(data@)) {
            (Ok(s), Ok(m)) => {
                &&& s.meta@ == m
                &&& can_be_opened(m, given_priorities(chosen), known(kept))
                &&& opened(s, data@, peer_id, given_priorities(chosen), known(kept))
            },
            (Err(OpenFault::Torrent(e)), Err(f)) => reports_meta(e, f),
            (Err(OpenFault::Unplaceable), Ok(m)) => !can_be_opened(
                m,
                given_priorities(chosen),
                known(kept),
            ),
            _ => false,
        },
{
    let meta: MetaInfo = match MetaInfo::from_bytes(data.as_slice()) {
        Ok(m) => m,
        Err(e) => {
            return Err(OpenFault::Torrent(e));
        },
    };
    let placed: bool = match chosen {
        Some(c) => TorrentSession::can_open(&meta, c),
        None => TorrentSession::can_open(&meta, normal_priorities(meta.files.len()).as_slice()),
    };
    if !placed {
        return Err(OpenFault::Unplaceable);
    }
    if let Some(rd) = kept {
        if rd.file_priorities.len() == meta.files.len() && !TorrentSession::can_open(
            &meta,
            rd.file_priorities.as_slice(),
        ) {
            return Err(OpenFault::Unplaceable);
        }
    }
    let mut session = TorrentSession::new(meta, peer_id, chosen);
    if let Some(rd) = kept {
        session.apply_resume(rd);
    }
    let ghost taken = session;
    if let Some(c) = chosen {
        set_chosen(&mut session, c);
    }
    session.set_torrent_bytes(data);
    proof {
        let pm = session.piece_manager;
        assert(session.file_priorities@ =~= opened_priorities(
            session.meta@,
            given_priorities(chosen),
            known(kept),
        ));
        assert(pm.have@ =~= kept_pieces(known(kept), pm.num_pieces as nat));
        if let Some(rd) = kept {
            assert(taken.complete() == session.complete());
            assert(session.stats.state == session.resumed_state(*rd));
        }
    }
    Ok(session)
}

/// Opens a session on a torrent that was kept from the last run, and says
/// whether it ran then; nothing if its torrent file was not kept.
pub fn reopen(rd: &ResumeData, peer_id: PeerId) -> (r: Option<
    Result<(TorrentSession, bool), OpenFault>,
>)
    ensures
        match (r, rd.torrent_bytes) {
            (Some(r), Some(b)) => match (r, meta_of(b@)) {
                (Ok((s, start)), Ok(m)) => {
                    &&& s.meta@ == m
                    &&& placeable(m, rd.file_priorities@)
                    &&& opened(s, b@, peer_id, Some(rd.file_priorities@), Some(*rd))
                    &&& start == (rd.prev_state == PrevState::Running)
                },
                (Err(OpenFault::Torrent(e)), Err(f)) => reports_meta(e, f),
                (Err(OpenFault::Unplaceable), Ok(m)) => !placeable(m, rd.file_priorities@),
                _ => false,
            },
            (None, None) => true,
            _ => false,
        },
{
    match &rd.torrent_bytes {
        Some(b) => {
            let data: Vec<u8> = vstd::slice::slice_to_vec(b.as_slice());
            let opened = open_torrent(
                data,
                peer_id,
                Some(rd.file_priorities.as_slice()),
                Some(rd),
            );
            match opened {
                Ok(s) => Some(Ok((s, rd.prev_state == PrevState::Running))),
                Err(e) => Some(Err(e)),
            }
        },
        None => None,
    }
}

/// A torrent that is opened again from what was kept of it has the pieces, the
/// priorities and the counts that it had, and is paused unless it was running.
pub proof fn law_reopened_as_kept(
    before: TorrentSession,
    now: i64,
    rd: ResumeData,
    after: TorrentSession,
    data: Seq<u8>,
    peer_id: PeerId,
)
    requires
        before.wf(),
        before.kept_as(now, rd),
        opened(after, data, peer_id, Some(rd.file_priorities@), Some(rd)),
        after.piece_manager.num_pieces == before.piece_manager.num_pieces,
    ensures
        after.piece_manager.have@ == before.piece_manager.have@,
        after.file_priorities@ == before.file_priorities@,
        after.total_downloaded == before.total_downloaded,
        after.total_uploaded == before.total_uploaded,
        after.paused == (before.paused || !before.started),
        after.complete() == before.complete(),
{
    assert(after.piece_manager.have@ =~= before.piece_manager.have@);
    assert(after.file_priorities@ =~= before.file_priorities@);
    assert forall|i: int| 0 <= i < after.piece_manager.num_pieces implies after.piece_manager.have@[i]
        == before.piece_manager.have@[i] by {}
}

} // verus!
