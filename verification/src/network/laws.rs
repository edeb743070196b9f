//! What holds of sessions as a whole.

use crate::bencode::grammar::{find_info, info_raw, parse_bytes_at, parse_value_at, Fault};
use crate::bencode::locality::{lemma_value_shift, stands_in};
use crate::bencode::Bencode;
use crate::bytes::first_index;
use crate::metainfo::meta_of;
use crate::network::session::{wrapped, TorrentSession};
use crate::outside::sha1_of;
use crate::text::{all_digits, ascii_chars, digits_value, is_digit, lemma_ascii_utf8};
use crate::types::ResumeData;
use vstd::prelude::*;

verus! {

/// The info dictionary of a torrent file that was made around it is that
/// dictionary, byte for byte, and so the torrent is the one that was looked
/// for.
pub proof fn law_wrapped_info(info: Seq<u8>, v: Bencode)
    requires
        parse_value_at(info, 0, 0) == Ok::<(Bencode, int), Fault>((v, info.len() as int)),
    ensures
        info_raw(wrapped(info)) == Ok::<Seq<u8>, Fault>(info),
        meta_of(wrapped(info)) matches Ok(m) ==> m.info_hash == sha1_of(info),
{
    let data = wrapped(info);
    let head = seq![100u8, 52u8, 58u8, 105u8, 110u8, 102u8, 111u8];
    assert(data.subrange(7, 7int + info.len()) =~= info);
    assert(stands_in(info, data, 7));
    lemma_value_shift(info, data, 7, 0, 0);
    let four = seq![52u8];
    assert(data.subrange(1, 2) =~= four);
    assert(crate::text::is_ascii_bytes(four));
    lemma_ascii_utf8(four);
    let text = ascii_chars(four);
    assert(text =~= seq!['4']);
    assert(is_digit(text[0]));
    assert(all_digits(text));
    assert(text.drop_last() =~= seq![]);
    assert(digits_value(text.drop_last()) == 0);
    assert(digits_value(text) == 4);
    reveal_with_fuel(first_index, 2);
    assert(first_index(data, 1, 58) == Some(2int));
    let key = seq![105u8, 110u8, 102u8, 111u8];
    assert(data.subrange(3, 7) =~= key);
    assert(parse_bytes_at(data, 1) == Ok::<(Seq<u8>, int), Fault>((key, 7int)));
    assert(find_info(data, 1) == Ok::<(int, int), Fault>((7int, 7int + info.len())));
    if let Ok(m) = meta_of(data) {
        assert(m.info_hash == sha1_of(info));
    }
}

/// A torrent that is taken up again has the pieces, the priorities and the
/// counts that it had, and is paused unless it was running.
pub proof fn law_resumed_as_kept(
    before: TorrentSession,
    now: i64,
    rd: ResumeData,
    fresh: TorrentSession,
    after: TorrentSession,
)
    requires
        before.wf(),
        before.kept_as(now, rd),
        fresh.wf(),
        fresh.meta == before.meta,
        fresh.took_over(rd, after),
    ensures
        after.piece_manager.have@ == before.piece_manager.have@,
        after.total_downloaded == before.total_downloaded,
        after.total_uploaded == before.total_uploaded,
        before.file_priorities@.len() == before.meta.files@.len() ==> after.file_priorities@
            == before.file_priorities@,
        after.paused == (before.paused || !before.started),
{
    assert(after.piece_manager.have@ =~= before.piece_manager.have@);
}

} // verus!
