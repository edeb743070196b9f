//! Trackers that are spoken to by UDP.

use crate::bytes::{be_bytes, be_value};
use crate::error::TorrentError;
use crate::outside::{parse_url, random_u32, read_u32, read_u64, url_parts, write_u16, write_u32, write_u64};
use crate::text::{decimal, decimal_string, joined, str_equal};
use crate::tracker::http::{all_peers_in, read_all_peers, AnswerModel};
use crate::tracker::{Announce, TrackerResponse};
use vstd::prelude::*;
use vstd::string::*;

verus! {

/// The number that opens every connection.
pub const PROTOCOL_ID: u64 = 0x41727101980;

/// The address that a tracker's URL names: its host (by default the local
/// one), a colon, and its port (by default 80).
pub open spec fn endpoint_of(parts: (Option<Seq<char>>, Option<u16>)) -> Seq<char> {
    let host = match parts.0 {
        Some(h) => h,
        None => "127.0.0.1"@,
    };
    let port = match parts.1 {
        Some(p) => p,
        None => 80u16,
    };
    host + ":"@ + decimal(port as nat)
}

/// The address of a host and a port.
pub fn endpoint(host: Option<String>, port: Option<u16>) -> (r: String)
    ensures
        r@ == endpoint_of(
            (
                match host {
                    Some(h) => Some(h@),
                    None => None,
                },
                port,
            ),
        ),
{
    let mut out = match host {
        Some(h) => h,
        None => "127.0.0.1".to_string(),
    };
    let p: u16 = match port {
        Some(p) => p,
        None => 80,
    };
    out.append(":");
    out.append(decimal_string(p as u64).as_str());
    out
}

/// The address that a tracker's URL names.
pub fn tracker_endpoint(url: &str) -> (r: Result<String, TorrentError>)
    ensures
        match (r, url_parts(url@)) {
            (Ok(a), Some(parts)) => a@ == endpoint_of(parts),
            (Err(TorrentError::Tracker(_)), None) => true,
            _ => false,
        },
{
    match parse_url(url) {
        Ok((host, port)) => Ok(endpoint(host, port)),
        Err(e) => Err(TorrentError::Tracker(e.to_string())),
    }
}

/// A new transaction number.
pub fn transaction_id() -> (r: u32) {
    random_u32()
}

/// The request that opens a connection.
pub open spec fn connect_bytes(transaction: u32) -> Seq<u8> {
    be_bytes(PROTOCOL_ID as nat, 8) + be_bytes(0, 4) + be_bytes(transaction as nat, 4)
}

/// The request that opens a connection.
pub fn connect_request(transaction: u32) -> (r: Vec<u8>)
    ensures
        r@ == connect_bytes(transaction),
{
    let mut buf: Vec<u8> = Vec::new();
    write_u64(&mut buf, PROTOCOL_ID);
    write_u32(&mut buf, 0);
    write_u32(&mut buf, transaction);
    assert(buf@ =~= connect_bytes(transaction));
    buf
}

/// Why an answer is refused: with a message of this library, or with one of
/// the standard library.
pub enum UdpFault {
    Message(Seq<char>),
    Std,
}

/// The error that reports why an answer is refused.
pub open spec fn reports_udp(e: TorrentError, f: UdpFault) -> bool {
    match e {
        TorrentError::Tracker(t) => match f {
            UdpFault::Message(m) => t@ == m,
            UdpFault::Std => true,
        },
        _ => false,
    }
}

/// The number in `n` bytes at a position.
pub open spec fn number_at(s: Seq<u8>, pos: int, n: int) -> nat {
    be_value(s.subrange(pos, pos + n))
}

/// The connection number that an answer to a connection request gives.
pub open spec fn connection_of(buf: Seq<u8>, transaction: u32) -> Result<u64, UdpFault> {
    if buf.len() < 8 {
        Err(UdpFault::Std)
    } else if number_at(buf, 0, 4) != 0 {
        Err(UdpFault::Message("Connect action failed"@))
    } else if number_at(buf, 4, 4) != transaction {
        Err(UdpFault::Message("Transaction ID mismatch on connect"@))
    } else if buf.len() < 16 {
        Err(UdpFault::Std)
    } else {
        Ok(number_at(buf, 8, 8) as u64)
    }
}

fn word(buf: &[u8], pos: usize) -> (r: Result<u32, TorrentError>)
    requires
        pos <= buf.len(),
    ensures
        match r {
            Ok(v) => pos + 4 <= buf@.len() && v == number_at(buf@, pos as int, 4),
            Err(TorrentError::Tracker(_)) => pos + 4 > buf@.len(),
            _ => false,
        },
{
    let rest = vstd::slice::slice_subrange(buf, pos, buf.len());
    match read_u32(rest) {
        Ok(v) => {
            assert(rest@.take(4) =~= buf@.subrange(pos as int, pos + 4));
            Ok(v)
        },
        Err(e) => Err(TorrentError::Tracker(e.to_string())),
    }
}

/// Reads the answer to a connection request.
pub fn read_connection(buf: &[u8], transaction: u32) -> (r: Result<u64, TorrentError>)
    ensures
        match (r, connection_of(buf@, transaction)) {
            (Ok(c), Ok(s)) => c == s,
            (Err(e), Err(f)) => reports_udp(e, f),
            _ => false,
        },
{
    let action: u32 = match word(buf, 0) {
        Ok(v) => v,
        Err(e) => {
            return Err(e);
        },
    };
    let txn: u32 = match word(buf, 4) {
        Ok(v) => v,
        Err(e) => {
            return Err(e);
        },
    };
    if action != 0 {
        return Err(TorrentError::Tracker("Connect action failed".to_string()));
    }
    if txn != transaction {
        return Err(TorrentError::Tracker("Transaction ID mismatch on connect".to_string()));
    }
    let rest = vstd::slice::slice_subrange(buf, 8, buf.len());
    match read_u64(rest) {
        Ok(v) => {
            assert(rest@.take(8) =~= buf@.subrange(8, 16));
            Ok(v)
        },
        Err(e) => Err(TorrentError::Tracker(e.to_string())),
    }
}

/// The number of an event; 0 for one that has none.
pub open spec fn event_number(e: Option<String>) -> nat {
    match e {
        Some(t) => if t@ == "completed"@ {
            1
        } else if t@ == "started"@ {
            2
        } else if t@ == "stopped"@ {
            3
        } else {
            0
        },
        None => 0,
    }
}

/// An announcement on an open connection. `key` is a random number that marks
/// the client.
pub open spec fn announce_bytes(a: Announce, connection: u64, transaction: u32, key: u32) -> Seq<u8> {
    be_bytes(connection as nat, 8) + be_bytes(1, 4) + be_bytes(transaction as nat, 4) + a.info_hash@
        + a.peer_id.0@ + be_bytes(a.downloaded as nat, 8) + be_bytes(a.left as nat, 8) + be_bytes(
        a.uploaded as nat,
        8,
    ) + be_bytes(event_number(a.event), 4) + be_bytes(0, 4) + be_bytes(key as nat, 4) + be_bytes(
        100,
        4,
    ) + be_bytes(a.port as nat, 2)
}

/// An announcement on an open connection, with a given random mark.
pub fn announce_with_key(a: &Announce, connection: u64, transaction: u32, key: u32) -> (r: Vec<u8>)
    ensures
        r@ == announce_bytes(*a, connection, transaction, key),
{
    let mut buf: Vec<u8> = Vec::new();
    write_u64(&mut buf, connection);
    write_u32(&mut buf, 1);
    write_u32(&mut buf, transaction);
    buf.extend_from_slice(a.info_hash.0.as_slice());
    buf.extend_from_slice(a.peer_id.0.as_slice());
    write_u64(&mut buf, a.downloaded);
    write_u64(&mut buf, a.left);
    write_u64(&mut buf, a.uploaded);
    let event: u32 = match &a.event {
        Some(t) => if str_equal(t.as_str(), "completed") {
            1
        } else if str_equal(t.as_str(), "started") {
            2
        } else if str_equal(t.as_str(), "stopped") {
            3
        } else {
            0
        },
        None => 0,
    };
    write_u32(&mut buf, event);
    write_u32(&mut buf, 0);
    write_u32(&mut buf, key);
    write_u32(&mut buf, 100);
    write_u16(&mut buf, a.port);
    assert(buf@ =~= announce_bytes(*a, connection, transaction, key));
    buf
}

/// An announcement on an open connection, with a new random mark.
pub fn announce_request(a: &Announce, connection: u64, transaction: u32) -> (r: Vec<u8>)
    ensures
        exists|key: u32| r@ == #[trigger] announce_bytes(*a, connection, transaction, key),
{
    announce_with_key(a, connection, transaction, random_u32())
}

/// What the answer to an announcement says.
pub open spec fn udp_answer_of(buf: Seq<u8>, transaction: u32) -> Result<AnswerModel, UdpFault> {
    if buf.len() < 8 {
        Err(UdpFault::Std)
    } else if number_at(buf, 0, 4) != 1 {
        Err(UdpFault::Message("Announce action failed"@))
    } else if number_at(buf, 4, 4) != transaction {
        Err(UdpFault::Message("Transaction ID mismatch on announce"@))
    } else if buf.len() < 20 {
        Err(UdpFault::Std)
    } else if (buf.len() - 20) % 6 != 0 {
        Err(
            UdpFault::Message(
                "UDP tracker response peer data length "@ + decimal((buf.len() - 20) as nat)
                    + " not a multiple of 6"@,
            ),
        )
    } else {
        Ok(
            AnswerModel {
                interval: number_at(buf, 8, 4) as u64,
                min_interval: None,
                peers: all_peers_in(buf.skip(20), (buf.len() - 20) / 6),
                seeders: Some(number_at(buf, 16, 4) as u64),
                leechers: Some(number_at(buf, 12, 4) as u64),
                warning: None,
            },
        )
    }
}

/// Reads the answer to an announcement.
pub fn read_answer(buf: &[u8], transaction: u32) -> (r: Result<TrackerResponse, TorrentError>)
    ensures
        match (r, udp_answer_of(buf@, transaction)) {
            (Ok(a), Ok(m)) => a@ == m,
            (Err(e), Err(f)) => reports_udp(e, f),
            _ => false,
        },
{
    let action: u32 = match word(buf, 0) {
        Ok(v) => v,
        Err(e) => {
            return Err(e);
        },
    };
    let txn: u32 = match word(buf, 4) {
        Ok(v) => v,
        Err(e) => {
            return Err(e);
        },
    };
    if action != 1 {
        return Err(TorrentError::Tracker("Announce action failed".to_string()));
    }
    if txn != transaction {
        return Err(TorrentError::Tracker("Transaction ID mismatch on announce".to_string()));
    }
    let interval: u32 = match word(buf, 8) {
        Ok(v) => v,
        Err(e) => {
            return Err(e);
        },
    };
    let leechers: u32 = match word(buf, 12) {
        Ok(v) => v,
        Err(e) => {
            return Err(e);
        },
    };
    let seeders: u32 = match word(buf, 16) {
        Ok(v) => v,
        Err(e) => {
            return Err(e);
        },
    };
    let rest = vstd::slice::slice_subrange(buf, 20, buf.len());
    assert(rest@ =~= buf@.skip(20));
    if rest.len() % 6 != 0 {
        let mut message = joined(
            "UDP tracker response peer data length ",
            decimal_string(rest.len() as u64).as_str(),
        );
        message.append(" not a multiple of 6");
        return Err(TorrentError::Tracker(message));
    }
    Ok(
        TrackerResponse {
            interval: interval as u64,
            min_interval: None,
            peers: read_all_peers(rest),
            seeders: Some(seeders as u64),
            leechers: Some(leechers as u64),
            warning: None,
        },
    )
}

} // verus!
