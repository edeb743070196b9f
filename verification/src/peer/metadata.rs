//! Collecting a torrent's info dictionary from peers.

use crate::bytes::bytes_equal;
use crate::outside::{sha1_digest, sha1_of};
use crate::types::{InfoHash, BLOCK_SIZE};
use vstd::prelude::*;

verus! {

/// The pieces of an info dictionary that have arrived.
pub struct MetadataState {
    /// The data of each piece, once it has arrived.
    pub pieces: Vec<Option<Vec<u8>>>,
    /// The size of the info dictionary, zero while unknown.
    pub total_size: usize,
    /// The number of pieces.
    pub num_pieces: usize,
    /// The identity that the info dictionary must have.
    pub info_hash: InfoHash,
}

/// How many metadata pieces cover `size` bytes.
pub open spec fn metadata_pieces(size: int) -> int {
    (size + BLOCK_SIZE - 1) / (BLOCK_SIZE as int)
}

/// The contents of pieces.
pub open spec fn piece_data(p: Seq<Option<Vec<u8>>>) -> Seq<Option<Seq<u8>>> {
    Seq::new(
        p.len(),
        |i: int|
            match p[i] {
                Some(v) => Some(v@),
                None => None,
            },
    )
}

/// Every piece has arrived.
pub open spec fn all_arrived(p: Seq<Option<Seq<u8>>>) -> bool {
    forall|i: int| 0 <= i < p.len() ==> (#[trigger] p[i]) is Some
}

/// The data of pieces, one after the other.
pub open spec fn joined_pieces(p: Seq<Option<Seq<u8>>>) -> Seq<u8>
    decreases p.len(),
{
    if p.len() == 0 {
        seq![]
    } else {
        joined_pieces(p.drop_last()) + match p.last() {
            Some(d) => d,
            None => seq![],
        }
    }
}

/// The first piece that has not arrived, if any.
pub open spec fn first_missing(p: Seq<Option<Seq<u8>>>, from: int) -> Option<int>
    decreases p.len() - from,
{
    if from < 0 || from >= p.len() {
        None
    } else if p[from] is None {
        Some(from)
    } else {
        first_missing(p, from + 1)
    }
}

/// The model of a metadata exchange.
#[verifier::ext_equal]
pub struct MetadataModel {
    pub arrived: Seq<Option<Seq<u8>>>,
    pub total_size: int,
    pub num_pieces: int,
    pub info_hash: Seq<u8>,
}

impl View for MetadataState {
    type V = MetadataModel;

    open spec fn view(&self) -> MetadataModel {
        MetadataModel {
            arrived: self.arrived(),
            total_size: self.total_size as int,
            num_pieces: self.num_pieces as int,
            info_hash: self.info_hash@,
        }
    }
}

/// An exchange of which nothing is known.
pub open spec fn fresh_metadata(info_hash: Seq<u8>) -> MetadataModel {
    MetadataModel { arrived: seq![], total_size: 0, num_pieces: 0, info_hash }
}

impl MetadataModel {
    /// The exchange of a dictionary of the given size, with no piece arrived.
    pub open spec fn resized(self, total: int) -> MetadataModel {
        MetadataModel {
            arrived: Seq::new(metadata_pieces(total) as nat, |i: int| None::<Seq<u8>>),
            total_size: total,
            num_pieces: metadata_pieces(total),
            info_hash: self.info_hash,
        }
    }

    /// The exchange after a piece arrived.
    pub open spec fn stored(self, index: int, data: Seq<u8>) -> MetadataModel {
        MetadataModel {
            arrived: if index < self.arrived.len() {
                self.arrived.update(index, Some(data))
            } else {
                self.arrived
            },
            ..self
        }
    }

    /// What the pieces give together.
    pub open spec fn assembled(self) -> Seq<u8> {
        crate::piece::collector::cut(joined_pieces(self.arrived), self.total_size)
    }
}

impl MetadataState {
    /// The contents of the pieces.
    pub open spec fn arrived(&self) -> Seq<Option<Seq<u8>>> {
        piece_data(self.pieces@)
    }

    /// Nothing has arrived and the size is unknown.
    pub fn new(info_hash: InfoHash) -> (r: MetadataState)
        ensures
            r@ == fresh_metadata(info_hash@),
            r.info_hash == info_hash,
    {
        let r = MetadataState { pieces: Vec::new(), total_size: 0, num_pieces: 0, info_hash };
        assert(r@ =~= fresh_metadata(info_hash@));
        r
    }

    /// Sets the size and starts over with no piece arrived.
    pub fn set_total_size(&mut self, total_size: usize)
        ensures
            final(self)@ == old(self)@.resized(total_size as int),
            final(self).info_hash == old(self).info_hash,
    {
        let size: usize = BLOCK_SIZE as usize;
        let n: usize = if total_size % size == 0 {
            total_size / size
        } else {
            total_size / size + 1
        };
        let mut pieces: Vec<Option<Vec<u8>>> = Vec::new();
        while pieces.len() < n
            invariant
                pieces.len() <= n,
                forall|i: int| 0 <= i < pieces.len() ==> (#[trigger] pieces@[i]) is None,
            decreases n - pieces.len(),
        {
            pieces.push(None);
        }
        self.total_size = total_size;
        self.num_pieces = n;
        self.pieces = pieces;
        assert(self.arrived() =~= Seq::new(
            metadata_pieces(total_size as int) as nat,
            |i: int| None::<Seq<u8>>,
        ));
    }

    /// Whether every piece has arrived.
    pub fn has_all(&self) -> (r: bool)
        ensures
            r == all_arrived(self.arrived()),
    {
        let mut i: usize = 0;
        while i < self.pieces.len()
            invariant
                i <= self.pieces.len(),
                forall|k: int| 0 <= k < i ==> (#[trigger] self.arrived()[k]) is Some,
            decreases self.pieces.len() - i,
        {
            if self.pieces[i].is_none() {
                assert(self.arrived()[i as int] is None);
                return false;
            }
            i += 1;
        }
        true
    }

    /// Keeps a piece and says whether every piece has arrived. A piece past
    /// the end is dropped.
    pub fn store_piece(&mut self, index: usize, data: Vec<u8>) -> (r: bool)
        ensures
            final(self)@ == old(self)@.stored(index as int, data@),
            r == all_arrived(final(self)@.arrived),
            final(self).info_hash == old(self).info_hash,
    {
        let ghost before = self.arrived();
        if index < self.pieces.len() {
            let ghost d = data@;
            self.pieces.set(index, Some(data));
            assert(self.arrived() =~= before.update(index as int, Some(d)));
        }
        self.has_all()
    }

    /// The first piece that has not arrived, if any.
    pub fn next_missing(&self) -> (r: Option<usize>)
        ensures
            match r {
                Some(i) => first_missing(self.arrived(), 0) == Some(i as int),
                None => first_missing(self.arrived(), 0) is None,
            },
    {
        let mut i: usize = 0;
        while i < self.pieces.len()
            invariant
                i <= self.pieces.len(),
                first_missing(self.arrived(), 0) == first_missing(self.arrived(), i as int),
            decreases self.pieces.len() - i,
        {
            if self.pieces[i].is_none() {
                return Some(i);
            }
            i += 1;
        }
        None
    }

    /// The info dictionary, once every piece has arrived: the pieces one after
    /// the other, cut to the known size.
    pub fn assemble(&self) -> (r: Option<Vec<u8>>)
        ensures
            match r {
                None => !all_arrived(self.arrived()),
                Some(v) => all_arrived(self.arrived()) && v@ == self@.assembled(),
            },
    {
        if !self.has_all() {
            return None;
        }
        let mut result: Vec<u8> = Vec::new();
        let mut i: usize = 0;
        assert(self.arrived().take(0) =~= seq![]);
        while i < self.pieces.len()
            invariant
                i <= self.pieces.len(),
                result@ == joined_pieces(self.arrived().take(i as int)),
            decreases self.pieces.len() - i,
        {
            proof {
                let t = self.arrived().take(i + 1);
                assert(t.drop_last() =~= self.arrived().take(i as int));
                assert(t.last() == self.arrived()[i as int]);
            }
            let ghost before = result@;
            if let Some(data) = &self.pieces[i] {
                result.extend_from_slice(data.as_slice());
            }
            assert(result@ =~= joined_pieces(self.arrived().take(i + 1)));
            i += 1;
        }
        assert(self.arrived().take(i as int) =~= self.arrived());
        let ghost all = result@;
        result.truncate(self.total_size);
        assert(result@ =~= crate::piece::collector::cut(all, self.total_size as int));
        Some(result)
    }

    /// Whether data has the identity that was asked for.
    pub fn verify(&self, data: &[u8]) -> (r: bool)
        ensures
            r == (sha1_of(data@) == self.info_hash@),
    {
        let digest = sha1_digest(data);
        bytes_equal(digest.as_slice(), self.info_hash.0.as_slice())
    }
}

/// The part of some bytes that a metadata piece holds.
pub open spec fn metadata_chunk(info: Seq<u8>, i: int) -> Seq<u8> {
    let end = if (i + 1) * BLOCK_SIZE < info.len() {
        (i + 1) * BLOCK_SIZE
    } else {
        info.len() as int
    };
    info.subrange(i * BLOCK_SIZE, end)
}

proof fn lemma_chunks_join(info: Seq<u8>, p: Seq<Option<Seq<u8>>>, n: int)
    requires
        0 <= n <= metadata_pieces(info.len() as int),
        p.len() == n,
        forall|i: int| 0 <= i < n ==> #[trigger] p[i] == Some(metadata_chunk(info, i)),
    ensures
        joined_pieces(p) == if n * BLOCK_SIZE < info.len() {
            info.take(n * BLOCK_SIZE)
        } else {
            info
        },
    decreases n,
{
    if n > 0 {
        lemma_chunks_join(info, p.drop_last(), n - 1);
        assert(joined_pieces(p) =~= if n * BLOCK_SIZE < info.len() {
            info.take(n * BLOCK_SIZE)
        } else {
            info
        });
    } else {
        assert(joined_pieces(p) =~= info.take(0));
        if info.len() == 0 {
            assert(info.take(0) =~= info);
        }
    }
}

/// The pieces of an info dictionary, once all have arrived, give the info
/// dictionary back.
pub proof fn law_metadata_assembles(info: Seq<u8>, p: Seq<Option<Seq<u8>>>)
    requires
        p.len() == metadata_pieces(info.len() as int),
        forall|i: int| 0 <= i < p.len() ==> #[trigger] p[i] == Some(metadata_chunk(info, i)),
    ensures
        all_arrived(p),
        crate::piece::collector::cut(joined_pieces(p), info.len() as int) == info,
{
    lemma_chunks_join(info, p, p.len() as int);
}

} // verus!
