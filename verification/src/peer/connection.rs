//! A connection to a peer: its handshake, its frames and its state.

use crate::bitfield::{grow_and_set, has_bit, test_bit};
use crate::bytes::{be_value, bytes_equal};
use crate::error::TorrentError;
use crate::net::SocketAddrV4;
use crate::text::{decimal, decimal_string, joined};
use crate::types::{array20, InfoHash, PeerId};
use vstd::prelude::*;
use vstd::string::*;
use vstd::utf8::encode_utf8;

verus! {

/// The largest message body that is read, in bytes.
pub const MAX_MESSAGE: u32 = 4_194_304;

/// What is known of a connected peer.
#[derive(Debug)]
pub struct PeerConnection {
    pub peer_id: Option<PeerId>,
    pub am_choking: bool,
    pub am_interested: bool,
    pub peer_choking: bool,
    pub peer_interested: bool,
    pub bitfield: Vec<u8>,
    pub addr: SocketAddrV4,
    /// The id that the peer gave to peer exchange.
    pub peer_pex_id: Option<u8>,
    /// The id that the peer gave to metadata exchange.
    pub peer_metadata_id: Option<u8>,
    /// Until when no metadata is asked of the peer, in nanoseconds.
    pub metadata_reject_until: Option<u64>,
    /// The metadata pieces that were asked of the peer.
    pub metadata_sent_requests: Vec<usize>,
    /// When metadata was last sent to the peer, in nanoseconds.
    pub metadata_last_response: Option<u64>,
}

/// The name of the protocol.
pub open spec fn protocol_name() -> Seq<u8> {
    seq![
        66u8, 105u8, 116u8, 84u8, 111u8, 114u8, 114u8, 101u8, 110u8, 116u8, 32u8, 112u8, 114u8,
        111u8, 116u8, 111u8, 99u8, 111u8, 108u8,
    ]
}

/// The bits that say which extensions the client supports: extension messages
/// with metadata exchange and, when calling, the DHT.
pub open spec fn reserved_bits(calling: bool) -> Seq<u8> {
    seq![
        0u8, 0u8, 0u8, 0u8, 0u8, 0x14u8, 0u8,
        if calling {
            1u8
        } else {
            0u8
        },
    ]
}

/// The handshake that opens a connection.
pub open spec fn handshake(info_hash: Seq<u8>, peer_id: Seq<u8>, calling: bool) -> Seq<u8> {
    seq![19u8] + protocol_name() + reserved_bits(calling) + info_hash + peer_id
}

/// Appends the name of the protocol.
fn push_name(v: &mut Vec<u8>)
    ensures
        final(v)@ == old(v)@ + protocol_name(),
{
    let name: [u8; 19] = [
        66u8, 105u8, 116u8, 84u8, 111u8, 114u8, 114u8, 101u8, 110u8, 116u8, 32u8, 112u8, 114u8,
        111u8, 116u8, 111u8, 99u8, 111u8, 108u8,
    ];
    assert(name@ =~= protocol_name());
    v.extend_from_slice(name.as_slice());
}

impl PeerConnection {
    /// A new connection: both sides choke and are not interested.
    pub fn new_connection(addr: SocketAddrV4) -> (r: PeerConnection)
        ensures
            r.peer_id is None,
            r.am_choking && r.peer_choking && !r.am_interested && !r.peer_interested,
            r.bitfield@ == Seq::<u8>::empty(),
            r.addr == addr,
            r.peer_pex_id is None,
            r.peer_metadata_id is None,
            r.metadata_reject_until is None,
            r.metadata_sent_requests@ == Seq::<usize>::empty(),
            r.metadata_last_response is None,
    {
        PeerConnection {
            peer_id: None,
            am_choking: true,
            am_interested: false,
            peer_choking: true,
            peer_interested: false,
            bitfield: Vec::new(),
            addr,
            peer_pex_id: None,
            peer_metadata_id: None,
            metadata_reject_until: None,
            metadata_sent_requests: Vec::new(),
            metadata_last_response: None,
        }
    }

    /// The handshake to send, by the side that calls or by the side that is
    /// called.
    pub fn handshake_message(info_hash: &InfoHash, my_peer_id: &PeerId, calling: bool) -> (r: Vec<u8>)
        ensures
            r@ == handshake(info_hash@, my_peer_id.0@, calling),
            r@.len() == 68,
    {
        let mut msg: Vec<u8> = vec![19u8];
        push_name(&mut msg);
        let reserved: [u8; 8] = [
            0u8, 0u8, 0u8, 0u8, 0u8, 0x14u8, 0u8,
            if calling {
                1u8
            } else {
                0u8
            },
        ];
        assert(reserved@ =~= reserved_bits(calling));
        msg.extend_from_slice(reserved.as_slice());
        msg.extend_from_slice(info_hash.0.as_slice());
        msg.extend_from_slice(my_peer_id.0.as_slice());
        assert(msg@ =~= handshake(info_hash@, my_peer_id.0@, calling));
        msg
    }

    /// Checks the handshake of the other side and gives its peer id.
    pub fn check_handshake(resp: &[u8], info_hash: &InfoHash) -> (r: Result<PeerId, TorrentError>)
        requires
            resp.len() == 68,
        ensures
            match r {
                Ok(id) => resp@[0] == 19 && resp@.subrange(1, 20) == protocol_name() && resp@.subrange(
                    28,
                    48,
                ) == info_hash@ && id.0@ == resp@.subrange(48, 68),
                Err(TorrentError::Peer(m)) => if resp@[0] != 19 || resp@.subrange(1, 20)
                    != protocol_name() {
                    m@ == "Invalid handshake"@
                } else {
                    resp@.subrange(28, 48) != info_hash@ && m@ == "Info hash mismatch"@
                },
                _ => false,
            },
    {
        let mut name: Vec<u8> = Vec::new();
        push_name(&mut name);
        assert(name@ =~= protocol_name());
        if resp[0] != 19 || !bytes_equal(vstd::slice::slice_subrange(resp, 1, 20), name.as_slice()) {
            return Err(TorrentError::Peer("Invalid handshake".to_string()));
        }
        if !bytes_equal(vstd::slice::slice_subrange(resp, 28, 48), info_hash.0.as_slice()) {
            return Err(TorrentError::Peer("Info hash mismatch".to_string()));
        }
        Ok(PeerId(array20(vstd::slice::slice_subrange(resp, 48, 68))))
    }

    /// The size of the message body that a length announces.
    pub fn frame_length(len_buf: &[u8]) -> (r: Result<usize, TorrentError>)
        requires
            len_buf.len() == 4,
        ensures
            match r {
                Ok(n) => n == be_value(len_buf@) && n <= MAX_MESSAGE,
                Err(TorrentError::Peer(m)) => be_value(len_buf@) > MAX_MESSAGE && m@
                    == "Message too large: "@ + decimal(be_value(len_buf@)) + " bytes"@,
                _ => false,
            },
    {
        let length: u32 = crate::bytes::be_u32(len_buf);
        if length > MAX_MESSAGE {
            let mut message = joined("Message too large: ", decimal_string(length as u64).as_str());
            message.append(" bytes");
            return Err(TorrentError::Peer(message));
        }
        Ok(length as usize)
    }

    /// Whether the peer has a piece.
    pub fn has_piece(&self, index: u32) -> (r: bool)
        ensures
            r == has_bit(self.bitfield@, index as int),
    {
        test_bit(self.bitfield.as_slice(), index)
    }

    /// Everything but the bit field.
    pub open spec fn same_but_bitfield(&self, other: &PeerConnection) -> bool {
        &&& self.peer_id == other.peer_id
        &&& self.am_choking == other.am_choking
        &&& self.am_interested == other.am_interested
        &&& self.peer_choking == other.peer_choking
        &&& self.peer_interested == other.peer_interested
        &&& self.addr == other.addr
        &&& self.peer_pex_id == other.peer_pex_id
        &&& self.peer_metadata_id == other.peer_metadata_id
        &&& self.metadata_reject_until == other.metadata_reject_until
        &&& self.metadata_sent_requests == other.metadata_sent_requests
        &&& self.metadata_last_response == other.metadata_last_response
    }

    /// Records that the peer has a piece.
    pub fn set_piece(&mut self, index: u32)
        ensures
            final(self).same_but_bitfield(old(self)),
            final(self).bitfield@.len() == if index / 8 < old(self).bitfield@.len() {
                old(self).bitfield@.len() as int
            } else {
                index / 8 + 1
            },
            forall|j: int|
                #![trigger has_bit(final(self).bitfield@, j)]
                has_bit(final(self).bitfield@, j) == (j == index || has_bit(
                    old(self).bitfield@,
                    j,
                )),
    {
        grow_and_set(&mut self.bitfield, index);
    }
}

/// Each side accepts the handshake of the other for the same torrent, and
/// learns the other's peer id.
pub proof fn law_handshake_accepted(info_hash: Seq<u8>, peer_id: Seq<u8>, calling: bool)
    requires
        info_hash.len() == 20,
        peer_id.len() == 20,
    ensures
        ({
            let h = handshake(info_hash, peer_id, calling);
            &&& h.len() == 68
            &&& h[0] == 19
            &&& h.subrange(1, 20) == protocol_name()
            &&& h.subrange(28, 48) == info_hash
            &&& h.subrange(48, 68) == peer_id
        }),
{
    let h = handshake(info_hash, peer_id, calling);
    assert(h.subrange(1, 20) =~= protocol_name());
    assert(h.subrange(28, 48) =~= info_hash);
    assert(h.subrange(48, 68) =~= peer_id);
}

/// The protocol's name is the text it is known by.
pub proof fn law_protocol_name()
    ensures
        protocol_name() == encode_utf8("BitTorrent protocol"@),
{
    reveal_strlit("BitTorrent protocol");
    assert("BitTorrent protocol"@ =~= crate::text::ascii_chars(protocol_name()));
    crate::text::lemma_ascii_utf8(protocol_name());
}

} // verus!
