//! Which pieces are at hand, in progress, or worth asking for.

use crate::bitfield::{empty_field, field_size, has_bit, set_bit, test_bit};
use crate::metainfo::{size_of_piece, FileInfo};
use crate::piece::collector::{blocks_for, PieceCollector};
use crate::rounding::{is_past_nine_tenths, past_nine_tenths};
use crate::sort::{is_stable_order, stable_order};
use crate::types::FilePriority;
use std::collections::HashSet;
use vstd::prelude::*;

verus! {

/// How many pieces are offered to a peer at once.
pub const MAX_CANDIDATES: usize = 10;

/// The state of a torrent's pieces.
#[derive(Debug)]
pub struct PieceManager {
    pub num_pieces: u32,
    pub piece_length: u64,
    pub total_size: u64,
    pub hashes: Vec<[u8; 20]>,
    /// The pieces at hand.
    pub have: Vec<bool>,
    /// The pieces that are being collected.
    pub in_progress: HashSet<u32>,
    /// How often each piece was seen at a peer.
    pub piece_availability: Vec<u32>,
    pub piece_priorities: Vec<FilePriority>,
}

/// The place of a priority in the order of download: high first.
pub open spec fn rank_of(p: FilePriority) -> u8 {
    match p {
        FilePriority::High => 0,
        FilePriority::Normal => 1,
        FilePriority::Low => 2,
        FilePriority::Skip => 3,
    }
}

/// The place of a priority in the order of download: high first.
pub fn prio_rank(p: FilePriority) -> (r: u8)
    ensures
        r == rank_of(p),
{
    match p {
        FilePriority::High => 0,
        FilePriority::Normal => 1,
        FilePriority::Low => 2,
        FilePriority::Skip => 3,
    }
}

/// The more urgent of two priorities.
pub open spec fn more_urgent(a: FilePriority, b: FilePriority) -> FilePriority {
    if rank_of(b) < rank_of(a) {
        b
    } else {
        a
    }
}

/// The first piece that holds bytes of a file, as the protocol counts pieces.
pub open spec fn first_piece(f: FileInfo, piece_length: int) -> u32 {
    (f.offset as int / piece_length) as u32
}

/// The last piece that holds bytes of a file, as the protocol counts pieces.
pub open spec fn last_piece(f: FileInfo, piece_length: int) -> u32 {
    if f.offset + f.length == 0 {
        0
    } else {
        ((f.offset + f.length - 1) / piece_length) as u32
    }
}

/// The priority of a piece under the first `n` files: the most urgent among
/// the files that the piece holds bytes of, and none if all are skipped.
pub open spec fn priority_under(
    files: Seq<FileInfo>,
    priorities: Seq<FilePriority>,
    n: int,
    piece_length: int,
    piece: int,
) -> FilePriority
    decreases n,
{
    if n <= 0 {
        FilePriority::Skip
    } else {
        let before = priority_under(files, priorities, n - 1, piece_length, piece);
        if priorities[n - 1] != FilePriority::Skip && first_piece(files[n - 1], piece_length)
            <= piece <= last_piece(files[n - 1], piece_length) {
            more_urgent(before, priorities[n - 1])
        } else {
            before
        }
    }
}

/// How many files have a priority.
pub open spec fn paired(files: Seq<FileInfo>, priorities: Seq<FilePriority>) -> int {
    if files.len() < priorities.len() {
        files.len() as int
    } else {
        priorities.len() as int
    }
}

/// How many of the first `n` flags are set.
pub open spec fn count_set(flags: Seq<bool>, n: int) -> int
    decreases n,
{
    if n <= 0 {
        0
    } else {
        count_set(flags, n - 1) + if flags[n - 1] {
            1int
        } else {
            0int
        }
    }
}

/// All flags are set exactly if as many are set as there are.
pub proof fn lemma_count_set(flags: Seq<bool>, n: int)
    requires
        0 <= n <= flags.len(),
    ensures
        0 <= count_set(flags, n) <= n,
        count_set(flags, n) == n <==> forall|i: int| 0 <= i < n ==> flags[i],
    decreases n,
{
    if n > 0 {
        lemma_count_set(flags, n - 1);
    }
}

impl PieceManager {
    /// There is one entry for each piece.
    pub open spec fn wf(&self) -> bool {
        &&& self.have@.len() == self.num_pieces
        &&& self.piece_availability@.len() == self.num_pieces
        &&& self.piece_priorities@.len() == self.num_pieces
    }

    /// Everything but the state of the pieces.
    pub open spec fn same_layout(&self, other: &PieceManager) -> bool {
        &&& self.num_pieces == other.num_pieces
        &&& self.piece_length == other.piece_length
        &&& self.total_size == other.total_size
        &&& self.hashes == other.hashes
    }

    /// The size of a piece.
    pub open spec fn size_of(&self, index: int) -> int {
        size_of_piece(
            self.total_size as int,
            self.piece_length as int,
            self.num_pieces as int,
            index,
        )
    }

    /// The size of a piece can be computed.
    pub open spec fn sizes_defined(&self) -> bool {
        self.num_pieces > 0 && self.piece_length > 0
    }

    /// A piece that is worth asking a peer with the given bit field for.
    pub open spec fn wanted(&self, bits: Seq<u8>, i: u32) -> bool {
        &&& !self.have@[i as int]
        &&& !self.in_progress@.contains(i)
        &&& self.piece_priorities@[i as int] != FilePriority::Skip
        &&& has_bit(bits, i as int)
    }

    /// The pieces below `n` that are worth asking a peer for, ascending.
    pub open spec fn wanted_below(&self, bits: Seq<u8>, n: int) -> Seq<u32>
        decreases n,
    {
        if n <= 0 {
            seq![]
        } else if self.wanted(bits, (n - 1) as u32) {
            self.wanted_below(bits, n - 1).push((n - 1) as u32)
        } else {
            self.wanted_below(bits, n - 1)
        }
    }

    /// What pieces are sorted by: how urgent, then how rare.
    pub open spec fn urgency(&self, i: u32) -> (u8, u32) {
        (rank_of(self.piece_priorities@[i as int]), self.piece_availability@[i as int])
    }

    /// The urgencies of a list of pieces.
    pub open spec fn urgencies(&self, list: Seq<u32>) -> Seq<(u8, u32)> {
        Seq::new(list.len(), |k: int| self.urgency(list[k]))
    }

    /// A piece is about as urgent and as rare as the best one.
    pub open spec fn near_best(&self, best: u32, i: u32) -> bool {
        &&& self.piece_priorities@[i as int] == self.piece_priorities@[best as int]
        &&& self.piece_availability@[i as int] <= self.piece_availability@[best as int] + 2
    }

    /// The pieces near the best among the first `n` in the given order, at
    /// most ten.
    pub open spec fn picked(&self, list: Seq<u32>, order: Seq<usize>, n: int) -> Seq<u32>
        decreases n,
    {
        if n <= 0 {
            seq![]
        } else {
            let before = self.picked(list, order, n - 1);
            let piece = list[order[n - 1] as int];
            if before.len() < MAX_CANDIDATES && self.near_best(list[order[0] as int], piece) {
                before.push(piece)
            } else {
                before
            }
        }
    }

    /// No pieces at hand or in progress; every piece at normal priority.
    pub fn new(num_pieces: u32, piece_length: u64, total_size: u64, hashes: Vec<[u8; 20]>) -> (r:
        PieceManager)
        ensures
            r.wf(),
            r.num_pieces == num_pieces,
            r.piece_length == piece_length,
            r.total_size == total_size,
            r.hashes == hashes,
            r.have@ == Seq::new(num_pieces as nat, |i: int| false),
            r.in_progress@ == Set::<u32>::empty(),
            r.piece_availability@ == Seq::new(num_pieces as nat, |i: int| 0u32),
            r.piece_priorities@ == Seq::new(num_pieces as nat, |i: int| FilePriority::Normal),
    {
        let n: usize = num_pieces as usize;
        let mut priorities: Vec<FilePriority> = Vec::new();
        while priorities.len() < n
            invariant
                priorities.len() <= n,
                forall|i: int| 0 <= i < priorities.len() ==> priorities@[i] == FilePriority::Normal,
            decreases n - priorities.len(),
        {
            priorities.push(FilePriority::Normal);
        }
        let r = PieceManager {
            num_pieces,
            piece_length,
            total_size,
            hashes,
            have: vec![false; n],
            in_progress: HashSet::new(),
            piece_availability: vec![0u32; n],
            piece_priorities: priorities,
        };
        assert(r.have@ =~= Seq::new(num_pieces as nat, |i: int| false));
        assert(r.piece_availability@ =~= Seq::new(num_pieces as nat, |i: int| 0u32));
        assert(r.piece_priorities@ =~= Seq::new(num_pieces as nat, |i: int| FilePriority::Normal));
        r
    }

    /// The size of a piece: the piece length, but for a shorter last piece.
    pub fn piece_size(&self, index: u32) -> (r: u64)
        requires
            self.num_pieces > 0,
            index == self.num_pieces - 1 ==> self.piece_length > 0,
        ensures
            r == self.size_of(index as int),
    {
        if index == self.num_pieces - 1 {
            let remainder: u64 = self.total_size % self.piece_length;
            if remainder == 0 {
                self.piece_length
            } else {
                remainder
            }
        } else {
            self.piece_length
        }
    }

    /// Every file that is not skipped lies where pieces can be told for it.
    pub open spec fn files_placed(
        &self,
        files: Seq<FileInfo>,
        priorities: Seq<FilePriority>,
    ) -> bool {
        forall|i: int|
            0 <= i < paired(files, priorities) && #[trigger] priorities[i] != FilePriority::Skip
                ==> self.sizes_defined() && files[i].offset + files[i].length <= u64::MAX
    }

    /// Tests whether pieces can be told for every file that is not skipped.
    pub fn can_place(&self, files: &[FileInfo], priorities: &[FilePriority]) -> (r: bool)
        ensures
            r == self.files_placed(files@, priorities@),
    {
        let mut i: usize = 0;
        while i < files.len() && i < priorities.len()
            invariant
                i <= paired(files@, priorities@),
                forall|k: int|
                    0 <= k < i && #[trigger] priorities@[k] != FilePriority::Skip
                        ==> self.sizes_defined() && files@[k].offset + files@[k].length <= u64::MAX,
            decreases files.len() - i,
        {
            if priorities[i] != FilePriority::Skip {
                if self.num_pieces == 0 || self.piece_length == 0 || files[i].length > u64::MAX
                    - files[i].offset {
                    return false;
                }
            }
            i += 1;
        }
        true
    }

    /// Gives each piece the most urgent priority among the files that it holds
    /// bytes of.
    pub fn apply_file_priorities(&mut self, files: &[FileInfo], file_priorities: &[FilePriority])
        requires
            old(self).wf(),
            old(self).files_placed(files@, file_priorities@),
        ensures
            final(self).wf(),
            final(self).same_layout(old(self)),
            final(self).have == old(self).have,
            final(self).in_progress == old(self).in_progress,
            final(self).piece_availability == old(self).piece_availability,
            forall|p: int|
                0 <= p < final(self).num_pieces ==> #[trigger] final(self).piece_priorities@[p]
                    == priority_under(
                    files@,
                    file_priorities@,
                    paired(files@, file_priorities@),
                    old(self).piece_length as int,
                    p,
                ),
    {
        let ghost start = *self;
        let n: usize = self.piece_priorities.len();
        let mut p: usize = 0;
        while p < n
            invariant
                p <= n == self.piece_priorities@.len(),
                n == self.num_pieces,
                self.wf(),
                self.same_layout(&start),
                self.have == start.have,
                self.in_progress == start.in_progress,
                self.piece_availability == start.piece_availability,
                forall|q: int| 0 <= q < p ==> self.piece_priorities@[q] == FilePriority::Skip,
            decreases n - p,
        {
            self.piece_priorities.set(p, FilePriority::Skip);
            p += 1;
        }
        let mut i: usize = 0;
        while i < files.len() && i < file_priorities.len()
            invariant
                i <= paired(files@, file_priorities@),
                self.wf(),
                self.same_layout(&start),
                self.have == start.have,
                self.in_progress == start.in_progress,
                self.piece_availability == start.piece_availability,
                start.files_placed(files@, file_priorities@),
                forall|q: int|
                    0 <= q < self.num_pieces ==> #[trigger] self.piece_priorities@[q]
                        == priority_under(
                        files@,
                        file_priorities@,
                        i as int,
                        self.piece_length as int,
                        q,
                    ),
            decreases files.len() - i,
        {
            let prio = file_priorities[i];
            if prio != FilePriority::Skip {
                assert(file_priorities@[i as int] != FilePriority::Skip);
                let f = &files[i];
                let first: u32 = (f.offset / self.piece_length) as u32;
                let end: u64 = f.offset + f.length;
                let last: u32 = if end == 0 {
                    0
                } else {
                    ((end - 1) / self.piece_length) as u32
                };
                let top: u32 = if last < self.num_pieces - 1 {
                    last
                } else {
                    self.num_pieces - 1
                };
                let ghost base = self.piece_priorities@;
                let mut idx: u32 = first;
                while idx <= top
                    invariant
                        first <= idx,
                        top < self.num_pieces,
                        self.wf(),
                        self.same_layout(&start),
                        self.have == start.have,
                        self.in_progress == start.in_progress,
                        self.piece_availability == start.piece_availability,
                        base.len() == self.num_pieces,
                        forall|q: int|
                            0 <= q < self.num_pieces ==> #[trigger] self.piece_priorities@[q]
                                == if first <= q < idx && q <= top {
                                more_urgent(base[q], prio)
                            } else {
                                base[q]
                            },
                    decreases top + 1 - idx,
                {
                    let cur = self.piece_priorities[idx as usize];
                    if prio_rank(prio) < prio_rank(cur) {
                        self.piece_priorities.set(idx as usize, prio);
                    }
                    idx += 1;
                }
            }
            i += 1;
        }
    }

    /// Counts one more peer that has a piece.
    pub fn mark_have_piece(&mut self, index: u32)
        requires
            old(self).wf(),
        ensures
            final(self).wf(),
            final(self).same_layout(old(self)),
            final(self).have == old(self).have,
            final(self).in_progress == old(self).in_progress,
            final(self).piece_priorities == old(self).piece_priorities,
            final(self).piece_availability@ == seen_once_more(
                old(self).piece_availability@,
                index as int,
            ),
    {
        let i: usize = index as usize;
        if i < self.piece_availability.len() {
            let n: u32 = self.piece_availability[i];
            self.piece_availability.set(i, n.saturating_add(1));
        }
        assert(self.piece_availability@ =~= seen_once_more(
            old(self).piece_availability@,
            index as int,
        ));
    }

    /// The pieces near the best of those worth asking a peer for.
    pub open spec fn offers(&self, bits: Seq<u8>, r: Seq<u32>) -> bool {
        let list = self.wanted_below(bits, self.num_pieces as int);
        exists|order: Seq<usize>|
            is_stable_order(self.urgencies(list), order) && r == #[trigger] self.picked(
                list,
                order,
                list.len() as int,
            )
    }

    /// Chooses up to ten pieces to ask a peer for: of those worth asking for,
    /// the most urgent and, among these, the rarest.
    pub fn select_piece(&self, peer_bitfield: &[u8]) -> (r: Vec<u32>)
        requires
            self.wf(),
        ensures
            self.offers(peer_bitfield@, r@),
    {
        let mut list: Vec<u32> = Vec::new();
        let mut keys: Vec<(u8, u32)> = Vec::new();
        let mut i: u32 = 0;
        assert(self.urgencies(list@) =~= keys@);
        while i < self.num_pieces
            invariant
                self.wf(),
                i <= self.num_pieces,
                list@ == self.wanted_below(peer_bitfield@, i as int),
                keys@ == self.urgencies(list@),
                forall|k: int| 0 <= k < list@.len() ==> #[trigger] list@[k] < i,
            decreases self.num_pieces - i,
        {
            let p: usize = i as usize;
            if !self.have[p] && !self.in_progress.contains(&i) && self.piece_priorities[p]
                != FilePriority::Skip && test_bit(peer_bitfield, i) {
                list.push(i);
                keys.push((prio_rank(self.piece_priorities[p]), self.piece_availability[p]));
                assert(keys@ =~= self.urgencies(list@));
            }
            i += 1;
        }
        let order = stable_order(&keys);
        let mut out: Vec<u32> = Vec::new();
        let mut k: usize = 0;
        while k < order.len()
            invariant
                self.wf(),
                k <= order.len() == list.len(),
                is_stable_order(keys@, order@),
                keys@.len() == list@.len(),
                forall|k: int| 0 <= k < list@.len() ==> #[trigger] list@[k] < self.num_pieces,
                out@ == self.picked(list@, order@, k as int),
            decreases order.len() - k,
        {
            assert(order@[0] < keys@.len() && order@[k as int] < keys@.len());
            let best: usize = list[order[0]] as usize;
            let piece: u32 = list[order[k]];
            let p: usize = piece as usize;
            if out.len() < MAX_CANDIDATES && self.piece_priorities[p] == self.piece_priorities[best]
                && self.piece_availability[p] <= self.piece_availability[best].saturating_add(2) {
                out.push(piece);
            }
            k += 1;
        }
        out
    }

    /// The pieces below `n` that are missing and not skipped, ascending.
    pub open spec fn unfinished_below(&self, n: int) -> Seq<u32>
        decreases n,
    {
        if n <= 0 {
            seq![]
        } else if !self.have@[n - 1] && self.piece_priorities@[n - 1] != FilePriority::Skip {
            self.unfinished_below(n - 1).push((n - 1) as u32)
        } else {
            self.unfinished_below(n - 1)
        }
    }

    /// The download is in its last stage: more than nine tenths of the pieces
    /// are at hand.
    pub open spec fn last_stage(&self) -> bool {
        self.num_pieces > 0 && past_nine_tenths(
            count_set(self.have@, self.num_pieces as int),
            self.num_pieces as int,
        )
    }

    /// Whether the download is in its last stage.
    pub fn is_in_endgame(&self) -> (r: bool)
        requires
            self.wf(),
        ensures
            r == self.last_stage(),
    {
        self.num_pieces > 0 && is_past_nine_tenths(self.completed_count(), self.num_pieces)
    }

    /// All missing pieces that are not skipped, once the download is in its
    /// last stage; none before that.
    pub fn get_endgame_pieces(&self) -> (r: Vec<u32>)
        requires
            self.wf(),
        ensures
            r@ == if self.last_stage() {
                self.unfinished_below(self.num_pieces as int)
            } else {
                seq![]
            },
    {
        let mut out: Vec<u32> = Vec::new();
        if !self.is_in_endgame() {
            return out;
        }
        let mut i: u32 = 0;
        while i < self.num_pieces
            invariant
                self.wf(),
                i <= self.num_pieces,
                out@ == self.unfinished_below(i as int),
            decreases self.num_pieces - i,
        {
            if !self.have[i as usize] && self.piece_priorities[i as usize] != FilePriority::Skip {
                out.push(i);
            }
            i += 1;
        }
        out
    }

    /// A new collector for a piece.
    pub open spec fn fresh_collector(&self, index: u32, c: PieceCollector) -> bool {
        &&& c.index == index
        &&& c.piece_size == self.size_of(index as int)
        &&& c.expected_hash == self.hashes@[index as int]
        &&& c.blocks@ == Map::<u32, Vec<u8>>::empty()
        &&& c.issued@ == Map::<u32, u64>::empty()
        &&& c.num_blocks == blocks_for(self.size_of(index as int)) as u32
    }

    /// Starts collecting a piece, unless it is in progress already.
    pub fn try_start_piece(&mut self, index: u32) -> (r: Option<PieceCollector>)
        requires
            old(self).wf(),
            old(self).sizes_defined(),
            index < old(self).hashes@.len(),
        ensures
            final(self).wf(),
            final(self).same_layout(old(self)),
            final(self).have == old(self).have,
            final(self).piece_availability == old(self).piece_availability,
            final(self).piece_priorities == old(self).piece_priorities,
            final(self).in_progress@ == old(self).in_progress@.insert(index),
            match r {
                None => old(self).in_progress@.contains(index),
                Some(c) => !old(self).in_progress@.contains(index) && old(self).fresh_collector(
                    index,
                    c,
                ),
            },
    {
        if self.in_progress.contains(&index) {
            assert(self.in_progress@ =~= self.in_progress@.insert(index));
            return None;
        }
        let size: u64 = self.piece_size(index);
        let hash = self.hashes[index as usize];
        self.in_progress.insert(index);
        Some(PieceCollector::new(index, size, hash))
    }

    /// Starts collecting a piece that may be in progress already: a new
    /// collector, or nothing where one exists that is to be shared.
    pub fn force_start_piece(&mut self, index: u32) -> (r: Option<PieceCollector>)
        requires
            old(self).wf(),
            old(self).sizes_defined(),
            index < old(self).hashes@.len(),
        ensures
            final(self).wf(),
            final(self).same_layout(old(self)),
            final(self).have == old(self).have,
            final(self).piece_availability == old(self).piece_availability,
            final(self).piece_priorities == old(self).piece_priorities,
            final(self).in_progress@ == old(self).in_progress@.insert(index),
            match r {
                None => old(self).in_progress@.contains(index),
                Some(c) => !old(self).in_progress@.contains(index) && old(self).fresh_collector(
                    index,
                    c,
                ),
            },
    {
        self.try_start_piece(index)
    }

    /// Whether a piece is at hand.
    pub fn have_piece(&self, index: u32) -> (r: bool)
        ensures
            r == (index < self.have@.len() && self.have@[index as int]),
    {
        let i: usize = index as usize;
        i < self.have.len() && self.have[i]
    }

    /// Whether a piece is being collected.
    pub fn piece_in_progress(&self, index: u32) -> (r: bool)
        ensures
            r == self.in_progress@.contains(index),
    {
        self.in_progress.contains(&index)
    }

    /// Whether a piece holds only bytes of skipped files.
    pub fn piece_is_skipped(&self, index: u32) -> (r: bool)
        ensures
            r == (index < self.piece_priorities@.len() && self.piece_priorities@[index as int]
                == FilePriority::Skip),
    {
        let i: usize = index as usize;
        i < self.piece_priorities.len() && self.piece_priorities[i] == FilePriority::Skip
    }

    /// Records that a piece is at hand.
    pub fn mark_piece_complete(&mut self, index: u32)
        requires
            old(self).wf(),
            index < old(self).num_pieces,
        ensures
            final(self).wf(),
            final(self).same_layout(old(self)),
            final(self).have@ == old(self).have@.update(index as int, true),
            final(self).in_progress@ == old(self).in_progress@.remove(index),
            final(self).piece_priorities == old(self).piece_priorities,
            final(self).piece_availability@ == seen_once_more(
                old(self).piece_availability@,
                index as int,
            ),
    {
        self.in_progress.remove(&index);
        self.have.set(index as usize, true);
        self.mark_have_piece(index);
    }

    /// A list gives the pieces in progress, each once: the piece, its blocks at
    /// hand, and its blocks in all.
    pub open spec fn tracks(&self, list: Seq<(u32, u32, u32)>) -> bool {
        &&& forall|k: int|
            0 <= k < list.len() ==> self.in_progress@.contains((#[trigger] list[k]).0)
        &&& forall|j: int, k: int|
            0 <= j < k < list.len() ==> (#[trigger] list[j]).0 != (#[trigger] list[k]).0
        &&& forall|i: u32| #[trigger]
            self.in_progress@.contains(i) ==> exists|k: int|
                0 <= k < list.len() && (#[trigger] list[k]).0 == i
    }

    /// A piece in progress that a peer has and that lacks blocks.
    pub open spec fn can_help(&self, bits: Seq<u8>, c: (u32, u32, u32)) -> bool {
        self.in_progress@.contains(c.0) && has_bit(bits, c.0 as int) && c.1 < c.2
    }

    /// The piece at `k` is the first with the most blocks among the first `n`
    /// that a peer can help with.
    pub open spec fn is_fullest(
        &self,
        bits: Seq<u8>,
        list: Seq<(u32, u32, u32)>,
        k: int,
        n: int,
    ) -> bool {
        &&& 0 <= k < n
        &&& self.can_help(bits, list[k])
        &&& forall|j: int|
            0 <= j < n && self.can_help(bits, #[trigger] list[j]) ==> list[j].1 < list[k].1 || (
            list[j].1 == list[k].1 && k <= j)
    }

    /// Chooses a piece in progress that a peer can help with: among those that
    /// the peer has and that lack blocks, the first with the most blocks. The
    /// list gives each piece in progress with its blocks at hand and in all.
    pub fn pick_in_progress_for_peer(
        &self,
        peer_bitfield: &[u8],
        collectors: &Vec<(u32, u32, u32)>,
    ) -> (r: Option<u32>)
        ensures
            match r {
                None => forall|k: int|
                    0 <= k < collectors@.len() ==> !self.can_help(
                        peer_bitfield@,
                        #[trigger] collectors@[k],
                    ),
                Some(i) => exists|k: int|
                    0 <= k < collectors@.len() && (#[trigger] collectors@[k]).0 == i
                        && self.is_fullest(
                        peer_bitfield@,
                        collectors@,
                        k,
                        collectors@.len() as int,
                    ),
            },
    {
        let mut best: Option<usize> = None;
        let mut k: usize = 0;
        while k < collectors.len()
            invariant
                k <= collectors.len(),
                match best {
                    None => forall|j: int|
                        0 <= j < k ==> !self.can_help(peer_bitfield@, #[trigger] collectors@[j]),
                    Some(b) => self.is_fullest(peer_bitfield@, collectors@, b as int, k as int),
                },
            decreases collectors.len() - k,
        {
            let (idx, filled, total) = collectors[k];
            if self.in_progress.contains(&idx) && test_bit(peer_bitfield, idx) && filled < total {
                let better: bool = match best {
                    None => true,
                    Some(b) => filled > collectors[b].1,
                };
                if better {
                    best = Some(k);
                }
            }
            k += 1;
        }
        match best {
            Some(b) => Some(collectors[b].0),
            None => None,
        }
    }

    /// With a list of all pieces in progress, none is found for a peer exactly
    /// if none of those that the peer has lacks blocks.
    pub proof fn law_piece_to_join(&self, bits: Seq<u8>, list: Seq<(u32, u32, u32)>)
        requires
            self.tracks(list),
        ensures
            (forall|k: int| 0 <= k < list.len() ==> !self.can_help(bits, #[trigger] list[k])) <==> (
            forall|i: u32| #[trigger]
                self.in_progress@.contains(i) && has_bit(bits, i as int) ==> listed_full(list, i)),
    {
        if forall|k: int| 0 <= k < list.len() ==> !self.can_help(bits, #[trigger] list[k]) {
            assert forall|i: u32| #[trigger] self.in_progress@.contains(i) && has_bit(
                bits,
                i as int,
            ) implies listed_full(list, i) by {
                let k = choose|k: int| 0 <= k < list.len() && (#[trigger] list[k]).0 == i;
                assert(!self.can_help(bits, list[k]));
            }
        } else {
            let k = choose|k: int| 0 <= k < list.len() && self.can_help(bits, #[trigger] list[k]);
            let i = list[k].0;
            assert(self.in_progress@.contains(i));
            if listed_full(list, i) {
                let j = choose|j: int|
                    0 <= j < list.len() && (#[trigger] list[j]).0 == i && list[j].1 >= list[j].2;
                assert(list[j].0 == list[k].0);
                assert(j == k);
            }
        }
    }

    /// Gives up collecting a piece.
    pub fn abort_piece(&mut self, index: u32)
        ensures
            final(self).same_layout(old(self)),
            final(self).have == old(self).have,
            final(self).in_progress@ == old(self).in_progress@.remove(index),
            final(self).piece_availability == old(self).piece_availability,
            final(self).piece_priorities == old(self).piece_priorities,
    {
        self.in_progress.remove(&index);
    }

    /// How many pieces are at hand.
    pub fn completed_count(&self) -> (r: u32)
        requires
            self.wf(),
        ensures
            r == count_set(self.have@, self.num_pieces as int),
    {
        let mut n: u32 = 0;
        let mut i: usize = 0;
        while i < self.have.len()
            invariant
                self.wf(),
                i <= self.have.len(),
                n <= i,
                n == count_set(self.have@, i as int),
            decreases self.have.len() - i,
        {
            if self.have[i] {
                n += 1;
            }
            i += 1;
        }
        n
    }

    /// Every piece is at hand.
    pub open spec fn all_at_hand(&self) -> bool {
        forall|i: int| 0 <= i < self.num_pieces ==> #[trigger] self.have@[i]
    }

    /// Whether every piece is at hand.
    pub fn is_complete(&self) -> (r: bool)
        requires
            self.wf(),
        ensures
            r == self.all_at_hand(),
    {
        proof {
            lemma_count_set(self.have@, self.num_pieces as int);
        }
        self.completed_count() == self.num_pieces
    }

    /// The pieces at hand as a bit field.
    pub fn have_bitfield(&self) -> (r: Vec<u8>)
        requires
            self.wf(),
        ensures
            r@.len() == field_size(self.num_pieces as int),
            forall|i: int|
                #[trigger] has_bit(r@, i) == (0 <= i < self.num_pieces && self.have@[i]),
    {
        let n: u32 = self.num_pieces;
        let size: u32 = if n % 8 == 0 {
            n / 8
        } else {
            n / 8 + 1
        };
        let mut bits = empty_field(size as usize);
        let mut i: u32 = 0;
        while i < n
            invariant
                self.wf(),
                n == self.num_pieces,
                i <= n,
                bits@.len() == size == field_size(n as int),
                forall|j: int| #[trigger] has_bit(bits@, j) == (0 <= j < i && self.have@[j]),
            decreases n - i,
        {
            let ghost before = bits@;
            if self.have[i as usize] {
                set_bit(&mut bits, i);
            }
            i += 1;
            assert forall|j: int| #[trigger] has_bit(bits@, j) == (0 <= j < i && self.have@[j]) by {
                assert(has_bit(before, j) == (0 <= j < i - 1 && self.have@[j]));
            }
        }
        bits
    }

    /// The pieces at hand.
    pub fn get_have_vec(&self) -> (r: Vec<bool>)
        ensures
            r@ == self.have@,
    {
        let mut out: Vec<bool> = Vec::new();
        let mut i: usize = 0;
        while i < self.have.len()
            invariant
                i <= self.have.len(),
                out@ == self.have@.take(i as int),
            decreases self.have.len() - i,
        {
            out.push(self.have[i]);
            i += 1;
            assert(out@ =~= self.have@.take(i as int));
        }
        assert(out@ =~= self.have@);
        out
    }

    /// Takes over which pieces are at hand, as far as the list goes.
    pub fn load_have(&mut self, bits: &[bool])
        ensures
            final(self).same_layout(old(self)),
            final(self).in_progress == old(self).in_progress,
            final(self).piece_availability == old(self).piece_availability,
            final(self).piece_priorities == old(self).piece_priorities,
            final(self).have@ == Seq::new(
                old(self).have@.len(),
                |i: int|
                    if i < bits@.len() {
                        bits@[i]
                    } else {
                        old(self).have@[i]
                    },
            ),
    {
        let mut i: usize = 0;
        while i < bits.len() && i < self.have.len()
            invariant
                self.same_layout(old(self)),
                self.in_progress == old(self).in_progress,
                self.piece_availability == old(self).piece_availability,
                self.piece_priorities == old(self).piece_priorities,
                self.have@.len() == old(self).have@.len(),
                i <= bits.len(),
                forall|k: int|
                    0 <= k < self.have@.len() ==> #[trigger] self.have@[k] == if k < i {
                        bits@[k]
                    } else {
                        old(self).have@[k]
                    },
            decreases bits.len() - i,
        {
            self.have.set(i, bits[i]);
            i += 1;
        }
        assert(self.have@ =~= Seq::new(
            old(self).have@.len(),
            |i: int|
                if i < bits@.len() {
                    bits@[i]
                } else {
                    old(self).have@[i]
                },
        ));
    }
}

/// Availabilities with one more sighting of a piece; the count stops at its
/// limit.
pub open spec fn seen_once_more(avail: Seq<u32>, i: int) -> Seq<u32> {
    if 0 <= i < avail.len() && avail[i] < u32::MAX {
        avail.update(i, (avail[i] + 1) as u32)
    } else {
        avail
    }
}

/// A list says of a piece that it lacks no blocks.
pub open spec fn listed_full(list: Seq<(u32, u32, u32)>, i: u32) -> bool {
    exists|k: int| 0 <= k < list.len() && (#[trigger] list[k]).0 == i && list[k].1 >= list[k].2
}

} // verus!
