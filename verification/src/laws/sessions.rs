//! The state of a torrent.

use crate::engine::magnet_model;
use crate::metainfo::MetaModel;
use crate::network::session::{trackers_of, with_tier, with_tiers, Seeding, TorrentSession};
use crate::outside::hex_bytes;
use crate::types::{texts, MagnetLink, RateLimiter, TorrentState};
use vstd::prelude::*;
use vstd::utf8::encode_utf8;

verus! {

proof fn lemma_tier(list: Seq<Seq<char>>, tier: Seq<Seq<char>>, n: int, t: Seq<char>)
    requires
        0 <= n <= tier.len(),
    ensures
        with_tier(list, tier, n).contains(t) <==> list.contains(t) || exists|i: int|
            0 <= i < n && #[trigger] tier[i] == t,
    decreases n,
{
    if n > 0 {
        lemma_tier(list, tier, n - 1, t);
        let before = with_tier(list, tier, n - 1);
        let after = with_tier(list, tier, n);
        if after != before {
            assert(after == before.push(tier[n - 1]));
            if before.contains(t) {
                let k = before.index_of(t);
                assert(after[k] == t);
            }
            assert(after[before.len() as int] == tier[n - 1]);
            if after.contains(t) {
                let k = after.index_of(t);
                if k < before.len() {
                    assert(before[k] == t);
                }
            }
        }
        assert(tier[n - 1] == tier[n - 1]);
        if exists|i: int| 0 <= i < n && #[trigger] tier[i] == t {
            let i = choose|i: int| 0 <= i < n && #[trigger] tier[i] == t;
            if i < n - 1 {
                assert(tier[i] == t);
            }
        }
    }
}

proof fn lemma_tiers(list: Seq<Seq<char>>, tiers: Seq<Seq<Seq<char>>>, n: int, t: Seq<char>)
    requires
        0 <= n <= tiers.len(),
    ensures
        with_tiers(list, tiers, n).contains(t) <==> list.contains(t) || exists|i: int|
            0 <= i < n && (#[trigger] tiers[i]).contains(t),
    decreases n,
{
    if n > 0 {
        lemma_tiers(list, tiers, n - 1, t);
        let before = with_tiers(list, tiers, n - 1);
        let tier = tiers[n - 1];
        lemma_tier(before, tier, tier.len() as int, t);
        if tier.contains(t) {
            let k = tier.index_of(t);
            assert(tier[k] == t);
        }
        if exists|i: int| 0 <= i < n && (#[trigger] tiers[i]).contains(t) {
            let i = choose|i: int| 0 <= i < n && (#[trigger] tiers[i]).contains(t);
            if i < n - 1 {
                assert(tiers[i].contains(t));
            }
        }
    }
}

/// The trackers of a torrent are the main one and those of the tiers, and no
/// others.
pub proof fn law_all_trackers(m: MetaModel, t: Seq<char>)
    ensures
        trackers_of(m).contains(t) <==> m.announce == Some(t) || exists|i: int|
            0 <= i < m.announce_list.len() && (#[trigger] m.announce_list[i]).contains(t),
{
    let start: Seq<Seq<char>> = match m.announce {
        Some(a) => seq![a],
        None => seq![],
    };
    lemma_tiers(start, m.announce_list, m.announce_list.len() as int, t);
    if let Some(a) = m.announce {
        assert(start[0] == a);
        if start.contains(t) {
            let k = start.index_of(t);
            assert(start[k] == t);
        }
    }
}

/// What a torrent is shown as: paused if it is, else looking for its metadata
/// until it has it, else downloading until it is complete, and then shared
/// until it was shared enough.
pub proof fn law_shown_state(s: TorrentSession)
    requires
        s.wf(),
    ensures
        s.current_state() == TorrentState::Paused <==> s.paused,
        s.current_state() == TorrentState::FetchingMetadata <==> !s.paused
            && s.piece_manager.num_pieces == 0,
        s.current_state() == TorrentState::Downloading <==> !s.paused && s.piece_manager.num_pieces
            > 0 && exists|i: int|
            0 <= i < s.piece_manager.num_pieces && !(#[trigger] s.piece_manager.have@[i]),
        s.current_state() == TorrentState::Complete ==> s.seed_ratio_reached,
        s.current_state() == TorrentState::Seeding ==> !s.seed_ratio_reached,
{
}

/// A limit lets through at least sixty-four kibibytes at once, and otherwise as
/// much as in a second.
pub proof fn law_burst_size(rate: int)
    ensures
        RateLimiter::capacity(rate) >= 65536,
        RateLimiter::capacity(rate) >= rate,
        RateLimiter::capacity(rate) == 65536 || RateLimiter::capacity(rate) == rate,
{
}

/// A torrent that is opened from a magnet link has the identity, the trackers
/// and the web seeds of the link, and its name or, without one, its hash in
/// hexadecimal; nothing of its contents is known.
pub proof fn law_from_link(link: MagnetLink, m: MetaModel, t: Seq<char>)
    requires
        magnet_model(link, m),
    ensures
        m.info_hash == link.info_hash@,
        link.display_name matches Some(n) ==> m.name == n@,
        link.display_name is None ==> encode_utf8(m.name) == hex_bytes(link.info_hash@),
        trackers_of(m).contains(t) <==> exists|i: int|
            0 <= i < link.trackers@.len() && (#[trigger] link.trackers@[i])@ == t,
        m.url_list.len() == link.web_seeds@.len(),
        forall|i: int|
            0 <= i < link.web_seeds@.len() ==> m.url_list[i] == (#[trigger] link.web_seeds@[i])@,
        m.pieces.len() == 0 && m.files.len() == 0 && m.total_size == 0,
        !m.is_private,
{
    let l = texts(link.trackers@);
    law_all_trackers(m, t);
    if l.contains(t) {
        let k = l.index_of(t);
        assert(link.trackers@[k]@ == t);
    }
    if exists|i: int| 0 <= i < link.trackers@.len() && (#[trigger] link.trackers@[i])@ == t {
        let i = choose|i: int|
            0 <= i < link.trackers@.len() && (#[trigger] link.trackers@[i])@ == t;
        assert(l[i] == t);
        assert(m.announce_list[0].contains(t));
    }
    if m.announce == Some(t) {
        assert(l[0] == t);
    }
}

/// The rates are what was transferred since the last time, and the time that is
/// left is how often the rate goes into what remains.
pub proof fn law_rates_shown(
    s: TorrentSession,
    down: u64,
    up: u64,
    connected: usize,
    remaining: u64,
    then: TorrentSession,
)
    requires
        s.shows(down, up, connected, remaining, then),
        down <= s.total_downloaded,
        up <= s.total_uploaded,
    ensures
        then.stats.download_rate + down == s.total_downloaded,
        then.stats.upload_rate + up == s.total_uploaded,
        then.stats.downloaded == s.total_downloaded && then.stats.uploaded == s.total_uploaded,
        then.stats.connected_peers == connected,
        then.stats.state == s.current_state(),
        then.stats.seeders == s.stats.seeders && then.stats.leechers == s.stats.leechers,
        then.stats.download_rate == 0 ==> then.stats.eta_seconds is None,
        then.stats.download_rate > 0 ==> (then.stats.eta_seconds matches Some(t) && t
            * then.stats.download_rate <= remaining < (t + 1) * then.stats.download_rate),
        then.piece_manager == s.piece_manager && then.paused == s.paused,
{
    let r = (s.total_downloaded - down) as int;
    if r > 0 {
        let q = remaining as int / r;
        vstd::arithmetic::div_mod::lemma_fundamental_div_mod(remaining as int, r);
        assert(0 <= q <= remaining) by (nonlinear_arith)
            requires
                r > 0,
                remaining as int == r * q + remaining as int % r,
                0 <= remaining as int % r < r,
        ;
        assert(q * r <= remaining < (q + 1) * r) by (nonlinear_arith)
            requires
                r > 0,
                remaining as int == r * q + remaining as int % r,
                0 <= remaining as int % r < r,
        ;
    }
}

/// A torrent is shared once it is complete, until as much was sent as is asked
/// for, if a limit is set and anything was downloaded at all.
pub proof fn law_shared(
    s: TorrentSession,
    limited: bool,
    reached: bool,
    then: TorrentSession,
    r: Seeding,
)
    requires
        s.wf(),
        s.shares(limited, reached, then, r),
    ensures
        r == Seeding::NotYet <==> (s.piece_manager.num_pieces == 0 || exists|i: int|
            0 <= i < s.piece_manager.num_pieces && !(#[trigger] s.piece_manager.have@[i])),
        r == Seeding::Stop ==> limited && reached && s.total_downloaded > 0
            && then.seed_ratio_reached,
        r == Seeding::Share ==> !(limited && reached && s.total_downloaded > 0)
            && then.seed_ratio_reached == s.seed_ratio_reached,
        r == Seeding::NotYet ==> then == s,
        r != Seeding::NotYet ==> then.stats.state == TorrentState::Seeding,
{
}

} // verus!
