//! The list of torrents: which are shown, and what is shown of them.

use crate::metainfo::{FileInfo, MetaInfo};
use crate::text::{chars_of, decimal, decimal_string, lowercased, to_lower};
use crate::types::{texts, FilePriority, TorrentState};
use crate::ui::utils::{bytes_text, format_speed};
use vstd::prelude::*;
use vstd::string::*;

verus! {

/// The parts of the view of a torrent.
#[derive(Debug, Clone, Copy, PartialEq, Eq, Structural)]
pub enum Tab {
    General,
    Files,
    Peers,
    Trackers,
    Pieces,
}

/// Which torrents are shown.
#[derive(Debug, Clone, Copy, PartialEq, Eq, Structural)]
pub enum FilterState {
    All,
    Downloading,
    Seeding,
    Paused,
    Complete,
}

/// A torrent in a state is shown under a filter.
pub open spec fn passes(state: TorrentState, filter: FilterState) -> bool {
    match filter {
        FilterState::All => true,
        FilterState::Downloading => state == TorrentState::Downloading || state
            == TorrentState::FetchingMetadata,
        FilterState::Seeding => state == TorrentState::Seeding,
        FilterState::Paused => state == TorrentState::Paused,
        FilterState::Complete => state == TorrentState::Complete || state
            == TorrentState::Seeding,
    }
}

/// Tells whether a torrent in a state is shown under a filter.
pub fn matches_filter(state: TorrentState, filter: FilterState) -> (r: bool)
    ensures
        r == passes(state, filter),
{
    match filter {
        FilterState::All => true,
        FilterState::Downloading => state == TorrentState::Downloading || state
            == TorrentState::FetchingMetadata,
        FilterState::Seeding => state == TorrentState::Seeding,
        FilterState::Paused => state == TorrentState::Paused,
        FilterState::Complete => state == TorrentState::Complete || state
            == TorrentState::Seeding,
    }
}

/// A text holds another.
pub open spec fn holds(text: Seq<char>, part: Seq<char>) -> bool {
    exists|i: int|
        0 <= i <= text.len() - part.len() && #[trigger] text.subrange(i, i + part.len()) == part
}

fn part_at(text: &Vec<char>, part: &Vec<char>, at: usize) -> (r: bool)
    requires
        at + part@.len() <= text@.len(),
    ensures
        r == (text@.subrange(at as int, at + part@.len()) == part@),
{
    let mut i: usize = 0;
    while i < part.len()
        invariant
            i <= part.len(),
            at + part.len() <= text.len(),
            forall|k: int| 0 <= k < i ==> text@[at + k] == #[trigger] part@[k],
        decreases part.len() - i,
    {
        if text[at + i] != part[i] {
            assert(text@.subrange(at as int, at + part@.len())[i as int] != part@[i as int]);
            return false;
        }
        i += 1;
    }
    assert(text@.subrange(at as int, at + part@.len()) =~= part@);
    true
}

/// Tells whether a text holds another.
pub fn contains_text(text: &str, part: &str) -> (r: bool)
    ensures
        r == holds(text@, part@),
{
    let a: Vec<char> = chars_of(text);
    let b: Vec<char> = chars_of(part);
    if b.len() > a.len() {
        return false;
    }
    let last: usize = a.len() - b.len();
    let mut i: usize = 0;
    while i <= last
        invariant
            i <= last + 1,
            last == a@.len() - b@.len(),
            a@ == text@,
            b@ == part@,
            a@.len() <= usize::MAX,
            forall|k: int| 0 <= k < i ==> #[trigger] text@.subrange(k, k + part@.len()) != part@,
        decreases last + 1 - i,
    {
        if part_at(&a, &b, i) {
            assert(text@.subrange(i as int, i + part@.len()) == part@);
            return true;
        }
        if i == last {
            return false;
        }
        i += 1;
    }
    false
}

/// A torrent is shown: it passes the filter, and its name holds what is
/// searched for, whatever the case of the letters.
pub open spec fn shown(
    state: TorrentState,
    name: Seq<char>,
    filter: FilterState,
    query: Seq<char>,
) -> bool {
    passes(state, filter) && (query.len() == 0 || holds(lowercased(name), lowercased(query)))
}

/// The positions of the shown ones of the first `n` torrents.
pub open spec fn shown_indices(
    states: Seq<TorrentState>,
    names: Seq<String>,
    filter: FilterState,
    query: Seq<char>,
    n: int,
) -> Seq<usize>
    decreases n,
{
    if n <= 0 {
        seq![]
    } else {
        let rest = shown_indices(states, names, filter, query, n - 1);
        if shown(states[n - 1], names[n - 1]@, filter, query) {
            rest.push((n - 1) as usize)
        } else {
            rest
        }
    }
}

/// The positions of the torrents that are shown, in order.
pub fn filtered_indices(
    states: &Vec<TorrentState>,
    names: &Vec<String>,
    filter: FilterState,
    query: &str,
) -> (r: Vec<usize>)
    requires
        states@.len() == names@.len(),
    ensures
        r@ == shown_indices(states@, names@, filter, query@, states@.len() as int),
{
    let wanted: String = to_lower(query);
    let any: bool = query.unicode_len() == 0;
    let mut out: Vec<usize> = Vec::new();
    let mut i: usize = 0;
    assert(out@ =~= seq![]);
    while i < states.len()
        invariant
            i <= states.len(),
            states@.len() == names@.len(),
            wanted@ == lowercased(query@),
            any == (query@.len() == 0),
            out@ == shown_indices(states@, names@, filter, query@, i as int),
        decreases states.len() - i,
    {
        let in_name: bool = if any {
            true
        } else {
            let name: String = to_lower(names[i].as_str());
            contains_text(name.as_str(), wanted.as_str())
        };
        if matches_filter(states[i], filter) && in_name {
            out.push(i);
        }
        i += 1;
    }
    out
}

/// The sum of rates, as far as it can be shown.
pub open spec fn rate_sum(rates: Seq<u64>) -> int
    decreases rates.len(),
{
    if rates.len() == 0 {
        0
    } else {
        let s = rate_sum(rates.drop_last()) + rates.last();
        if s > u64::MAX {
            u64::MAX as int
        } else {
            s
        }
    }
}

/// The sum of rates.
pub fn total_rate(rates: &Vec<u64>) -> (r: u64)
    ensures
        r == rate_sum(rates@),
{
    let mut sum: u64 = 0;
    let mut i: usize = 0;
    assert(rates@.take(0) =~= seq![]);
    while i < rates.len()
        invariant
            i <= rates.len(),
            sum == rate_sum(rates@.take(i as int)),
        decreases rates.len() - i,
    {
        assert(rates@.take(i + 1).drop_last() =~= rates@.take(i as int));
        sum = sum.saturating_add(rates[i]);
        i += 1;
    }
    assert(rates@.take(i as int) =~= rates@);
    sum
}

/// How many torrents are in one of two states.
pub open spec fn count_in(states: Seq<TorrentState>, a: TorrentState, b: TorrentState) -> nat
    decreases states.len(),
{
    if states.len() == 0 {
        0
    } else {
        count_in(states.drop_last(), a, b) + if states.last() == a || states.last() == b {
            1nat
        } else {
            0nat
        }
    }
}

fn count_states(states: &Vec<TorrentState>, a: TorrentState, b: TorrentState) -> (r: usize)
    ensures
        r == count_in(states@, a, b),
{
    let mut n: usize = 0;
    let mut i: usize = 0;
    assert(states@.take(0) =~= seq![]);
    while i < states.len()
        invariant
            i <= states.len(),
            n <= i,
            n == count_in(states@.take(i as int), a, b),
        decreases states.len() - i,
    {
        assert(states@.take(i + 1).drop_last() =~= states@.take(i as int));
        if states[i] == a || states[i] == b {
            n += 1;
        }
        i += 1;
    }
    assert(states@.take(i as int) =~= states@);
    n
}

/// How many torrents are downloaded or looked for, as the notification counts
/// them.
pub fn downloading_count(states: &Vec<TorrentState>) -> (r: usize)
    ensures
        r == count_in(states@, TorrentState::Downloading, TorrentState::FetchingMetadata),
{
    count_states(states, TorrentState::Downloading, TorrentState::FetchingMetadata)
}

/// What the tray icon shows: the rates, and how many torrents transfer data.
pub fn tooltip(states: &Vec<TorrentState>, dl: u64, ul: u64) -> (r: String)
    ensures
        r@ == "Retorrent\n\u{2B07} "@ + bytes_text(dl as int) + "/s"@ + "  \u{2B06} "@ + bytes_text(
            ul as int,
        ) + "/s"@ + "\n"@ + decimal(
            count_in(states@, TorrentState::Downloading, TorrentState::Seeding),
        ) + "/"@ + decimal(states@.len()) + " active"@,
{
    let active: usize = count_states(states, TorrentState::Downloading, TorrentState::Seeding);
    let mut out: String = String::new();
    out.append("Retorrent\n\u{2B07} ");
    out.append(format_speed(dl).as_str());
    out.append("  \u{2B06} ");
    out.append(format_speed(ul).as_str());
    out.append("\n");
    out.append(decimal_string(active as u64).as_str());
    out.append("/");
    out.append(decimal_string(states.len() as u64).as_str());
    out.append(" active");
    assert(out@ =~= "Retorrent\n\u{2B07} "@ + bytes_text(dl as int) + "/s"@ + "  \u{2B06} "@
        + bytes_text(ul as int) + "/s"@ + "\n"@ + decimal(
        count_in(states@, TorrentState::Downloading, TorrentState::Seeding),
    ) + "/"@ + decimal(states@.len()) + " active"@);
    out
}

/// The last part of a path.
pub open spec fn last_part(path: Seq<char>) -> Seq<char>
    decreases path.len(),
{
    if path.len() == 0 || path.last() == '/' {
        seq![]
    } else {
        last_part(path.drop_last()).push(path.last())
    }
}

/// The name of a file: the last part of its path.
pub fn display_name(path: &str) -> (r: String)
    ensures
        r@ == last_part(path@),
{
    let c: Vec<char> = chars_of(path);
    let mut i: usize = c.len();
    assert(path@.take(i as int) =~= path@);
    assert(path@.skip(i as int) =~= seq![]);
    assert(last_part(path@) =~= last_part(path@.take(i as int)) + path@.skip(i as int));
    while i > 0 && c[i - 1] != '/'
        invariant
            i <= c@.len(),
            c@ == path@,
            last_part(path@) == last_part(path@.take(i as int)) + path@.skip(i as int),
        decreases i,
    {
        assert(path@.take(i as int).drop_last() =~= path@.take(i - 1));
        assert(last_part(path@.take(i - 1)).push(path@[i - 1]) + path@.skip(i as int)
            =~= last_part(path@.take(i - 1)) + path@.skip(i - 1));
        i -= 1;
    }
    assert(last_part(path@.take(i as int)) =~= seq![]);
    let name: &str = path.substring_char(i, c.len());
    assert(name@ =~= path@.skip(i as int));
    name.to_string()
}

/// How many pieces from `first` up to, not including, `end` are at hand.
pub open spec fn at_hand(have: Seq<bool>, first: int, end: int) -> nat
    decreases end - first,
{
    if end <= first {
        0
    } else {
        at_hand(have, first, end - 1) + if 0 <= end - 1 < have.len() && have[end - 1] {
            1nat
        } else {
            0nat
        }
    }
}

/// Pieces can be told for a file.
pub open spec fn has_pieces(f: FileInfo, piece_length: u64) -> bool {
    piece_length > 0 && 1 <= f.offset + f.length <= u64::MAX
}

/// The first piece of a file.
pub open spec fn first_piece(f: FileInfo, piece_length: u64) -> int {
    f.offset as int / piece_length as int
}

/// The piece after the last one of a file.
pub open spec fn end_piece(f: FileInfo, piece_length: u64) -> int {
    (f.offset + f.length - 1) / piece_length as int + 1
}

/// How many pieces a file has a share in.
pub open spec fn piece_span(f: FileInfo, piece_length: u64) -> int {
    if end_piece(f, piece_length) > first_piece(f, piece_length) {
        end_piece(f, piece_length) - first_piece(f, piece_length)
    } else {
        0
    }
}

proof fn lemma_at_hand_beyond(have: Seq<bool>, first: int, end: int)
    requires
        0 <= first,
        have.len() <= end,
    ensures
        at_hand(have, first, end) == at_hand(have, first, have.len() as int),
    decreases end - have.len(),
{
    if end > have.len() {
        lemma_at_hand_beyond(have, first, end - 1);
        if end <= first {
            assert(at_hand(have, first, end) == 0);
        }
    }
}

/// How many pieces of a range are at hand.
fn count_at_hand(have: &[bool], first: u64, end: u64) -> (r: u64)
    ensures
        r == at_hand(have@, first as int, end as int),
        r <= have@.len(),
{
    let stop: u64 = if end < have.len() as u64 {
        end
    } else {
        have.len() as u64
    };
    proof {
        if end >= have@.len() {
            lemma_at_hand_beyond(have@, first as int, end as int);
        }
    }
    let mut n: u64 = 0;
    let mut i: u64 = first;
    while i < stop
        invariant
            first <= i,
            i <= stop || i == first,
            stop <= have@.len(),
            n <= i - first,
            n == at_hand(have@, first as int, i as int),
        decreases stop - i,
    {
        if have[i as usize] {
            n += 1;
        }
        i += 1;
    }
    if first >= stop {
        assert(at_hand(have@, first as int, stop as int) == 0);
        assert(at_hand(have@, first as int, first as int) == 0);
    }
    n
}

/// How many pieces of a file are at hand, and how many it has; nothing if no
/// pieces can be told for it.
pub fn file_progress(f: &FileInfo, piece_length: u64, have: &[bool]) -> (r: Option<(u64, u64)>)
    ensures
        match r {
            Some((done, total)) => {
                &&& has_pieces(*f, piece_length)
                &&& done == at_hand(
                    have@,
                    first_piece(*f, piece_length),
                    end_piece(*f, piece_length),
                )
                &&& total == if piece_span(*f, piece_length) > 0 {
                    piece_span(*f, piece_length)
                } else {
                    1
                }
            },
            None => !has_pieces(*f, piece_length) || end_piece(*f, piece_length) > u64::MAX,
        },
{
    if piece_length == 0 || f.length > u64::MAX - f.offset || f.offset + f.length == 0 {
        return None;
    }
    let first: u64 = f.offset / piece_length;
    let last: u64 = (f.offset + f.length - 1) / piece_length;
    if last == u64::MAX {
        return None;
    }
    let done: u64 = count_at_hand(have, first, last + 1);
    let total: u64 = last.saturating_sub(first) + 1;
    Some((done, total))
}

/// The pieces of the files that are not skipped: how many are at hand, and how
/// many there are. A piece counts for each file that has a share in it.
pub open spec fn chosen_pieces(
    files: Seq<FileInfo>,
    priorities: Seq<FilePriority>,
    piece_length: u64,
    have: Seq<bool>,
    n: int,
) -> (int, int)
    decreases n,
{
    if n <= 0 {
        (0, 0)
    } else {
        let before = chosen_pieces(files, priorities, piece_length, have, n - 1);
        let f = files[n - 1];
        if priorities[n - 1] == FilePriority::Skip {
            before
        } else {
            (
                before.0 + at_hand(have, first_piece(f, piece_length), end_piece(f, piece_length)),
                before.1 + piece_span(f, piece_length),
            )
        }
    }
}

/// Pieces can be told for the first `n` files that are not skipped.
pub open spec fn pieces_told(
    files: Seq<FileInfo>,
    priorities: Seq<FilePriority>,
    piece_length: u64,
    n: int,
) -> bool {
    forall|i: int|
        0 <= i < n && #[trigger] priorities[i] != FilePriority::Skip ==> has_pieces(
            files[i],
            piece_length,
        )
}

/// How many files have a priority.
pub open spec fn listed(files: Seq<FileInfo>, priorities: Seq<FilePriority>) -> int {
    if priorities.len() < files.len() {
        priorities.len() as int
    } else {
        files.len() as int
    }
}

proof fn lemma_chosen_grows(
    files: Seq<FileInfo>,
    priorities: Seq<FilePriority>,
    piece_length: u64,
    have: Seq<bool>,
    m: int,
    n: int,
)
    requires
        m <= n,
    ensures
        chosen_pieces(files, priorities, piece_length, have, m).1 <= chosen_pieces(
            files,
            priorities,
            piece_length,
            have,
            n,
        ).1,
    decreases n - m,
{
    if m < n {
        lemma_chosen_grows(files, priorities, piece_length, have, m, n - 1);
    }
}

proof fn lemma_at_hand_bound(have: Seq<bool>, first: int, end: int)
    ensures
        at_hand(have, first, end) <= if end > first {
            end - first
        } else {
            0
        },
    decreases end - first,
{
    if end > first {
        lemma_at_hand_bound(have, first, end - 1);
    }
}

/// How far the files that are not skipped are: how many of their pieces are at
/// hand, and how many there are; nothing if no pieces can be told for one of
/// them, or if there are too many to count in 32 bits.
pub fn display_progress(
    files: &Vec<FileInfo>,
    priorities: &Vec<FilePriority>,
    piece_length: u64,
    have: &[bool],
) -> (r: Option<(u32, u32)>)
    ensures
        ({
            let n = listed(files@, priorities@);
            let c = chosen_pieces(files@, priorities@, piece_length, have@, n);
            match r {
                Some((done, total)) => {
                    &&& pieces_told(files@, priorities@, piece_length, n)
                    &&& done == c.0
                    &&& total == c.1
                },
                None => !pieces_told(files@, priorities@, piece_length, n) || c.1 > u32::MAX,
            }
        }),
{
    let n: usize = if priorities.len() < files.len() {
        priorities.len()
    } else {
        files.len()
    };
    let mut done: u64 = 0;
    let mut total: u64 = 0;
    let mut i: usize = 0;
    while i < n
        invariant
            i <= n <= files.len(),
            n <= priorities.len(),
            n == listed(files@, priorities@),
            done <= total <= u32::MAX,
            pieces_told(files@, priorities@, piece_length, i as int),
            (done as int, total as int) == chosen_pieces(
                files@,
                priorities@,
                piece_length,
                have@,
                i as int,
            ),
        decreases n - i,
    {
        proof {
            lemma_chosen_grows(
                files@,
                priorities@,
                piece_length,
                have@,
                i + 1,
                listed(files@, priorities@),
            );
        }
        if priorities[i] != FilePriority::Skip {
            let f: &FileInfo = &files[i];
            if piece_length == 0 || f.length > u64::MAX - f.offset || f.offset + f.length == 0 {
                return None;
            }
            let first: u64 = f.offset / piece_length;
            let last: u64 = (f.offset + f.length - 1) / piece_length;
            proof {
                lemma_at_hand_bound(
                    have@,
                    first_piece(*f, piece_length),
                    end_piece(*f, piece_length),
                );
            }
            if last >= first {
                if last - first >= u32::MAX as u64 - total {
                    return None;
                }
                proof {
                    assert(last < u64::MAX);
                }
                done = done + count_at_hand(have, first, last + 1);
                total = total + (last - first + 1);
            }
        }
        i += 1;
    }
    Some((done as u32, total as u32))
}

/// The first `n` lists, one after the other.
pub open spec fn flat(lists: Seq<Seq<Seq<char>>>, n: int) -> Seq<Seq<char>>
    decreases n,
{
    if n <= 0 {
        seq![]
    } else {
        flat(lists, n - 1) + lists[n - 1]
    }
}

/// The trackers of a torrent as they are shown: the main one, then those of all
/// tiers as they stand.
pub fn shown_trackers(meta: &MetaInfo) -> (r: Vec<String>)
    ensures
        texts(r@) == (match meta@.announce {
            Some(a) => seq![a],
            None => seq![],
        }) + flat(meta@.announce_list, meta@.announce_list.len() as int),
{
    let mut out: Vec<String> = Vec::new();
    assert(texts(out@) =~= seq![]);
    if let Some(a) = &meta.announce {
        out.push(a.clone());
        assert(texts(out@) =~= seq![a@]);
    }
    let ghost first = texts(out@);
    let ghost tiers = meta@.announce_list;
    let mut t: usize = 0;
    assert(first + flat(tiers, 0) =~= first);
    while t < meta.announce_list.len()
        invariant
            t <= meta.announce_list.len(),
            tiers == meta@.announce_list,
            texts(out@) == first + flat(tiers, t as int),
        decreases meta.announce_list.len() - t,
    {
        let tier = &meta.announce_list[t];
        let ghost before = texts(out@);
        let mut i: usize = 0;
        assert(before + texts(tier@).take(0) =~= before);
        while i < tier.len()
            invariant
                i <= tier.len(),
                texts(out@) == before + texts(tier@).take(i as int),
            decreases tier.len() - i,
        {
            let ghost so_far = texts(out@);
            out.push(tier[i].clone());
            assert(texts(out@) =~= so_far.push(tier@[i as int]@));
            i += 1;
            assert(texts(tier@).take(i as int) =~= texts(tier@).take(i - 1).push(
                tier@[i - 1]@,
            ));
            assert(texts(out@) =~= before + texts(tier@).take(i as int));
        }
        assert(texts(tier@).take(i as int) =~= texts(tier@));
        assert(tiers[t as int] == texts(tier@));
        t += 1;
        assert(texts(out@) =~= first + flat(tiers, t as int));
    }
    out
}

/// The files of a torrent in words.
pub fn files_label(n: usize) -> (r: String)
    ensures
        r@ == decimal(n as nat) + (if n == 1 {
            " file"@
        } else {
            " files"@
        }),
{
    let mut out: String = decimal_string(n as u64);
    if n == 1 {
        out.append(" file");
    } else {
        out.append(" files");
    }
    out
}

} // verus!
