//! Which torrents run.

use crate::engine::{ahead, queue_action, QueueAction, QueueEntry};
use vstd::prelude::*;

verus! {

/// A torrent waits its turn: it is not complete, and it is not the user who has
/// paused it.
pub open spec fn in_line(e: QueueEntry) -> bool {
    !e.complete && (e.paused ==> e.queue_paused)
}

/// A torrent runs once the queue has decided.
pub open spec fn runs(e: QueueEntry, a: QueueAction) -> bool {
    match a {
        QueueAction::Start => true,
        QueueAction::Resume => true,
        QueueAction::Keep => !e.queue_paused,
        QueueAction::Queue => false,
    }
}

/// How many of the first `n` torrents in line are further than one, or as far
/// and before it in the list.
pub open spec fn further(entries: Seq<QueueEntry>, i: int, n: int) -> int
    decreases n,
{
    if n <= 0 {
        0
    } else {
        let e = entries[n - 1];
        further(entries, i, n - 1) + if in_line(e) && (e.progress > entries[i].progress || (
        e.progress == entries[i].progress && n - 1 < i)) {
            1int
        } else {
            0int
        }
    }
}

proof fn lemma_further(entries: Seq<QueueEntry>, i: int, n: int)
    ensures
        further(entries, i, n) == ahead(entries, i, n),
    decreases n,
{
    if n > 0 {
        lemma_further(entries, i, n - 1);
    }
}

/// A torrent in line runs exactly if fewer than may run at a time are further
/// than it; one that runs and was not started is started.
pub proof fn law_place_in_line(entries: Seq<QueueEntry>, i: int, max: int)
    requires
        0 <= i < entries.len(),
        max > 0,
        in_line(entries[i]),
    ensures
        runs(entries[i], queue_action(entries, i, max)) <==> further(
            entries,
            i,
            entries.len() as int,
        ) < max,
        runs(entries[i], queue_action(entries, i, max)) && !entries[i].started ==> queue_action(
            entries,
            i,
            max,
        ) == QueueAction::Start,
        queue_action(entries, i, max) == QueueAction::Start ==> !entries[i].started,
{
    lemma_further(entries, i, entries.len() as int);
}

proof fn lemma_further_grows(entries: Seq<QueueEntry>, i: int, k: int, n: int)
    requires
        0 <= i < entries.len(),
        0 <= k < entries.len(),
        0 <= n <= entries.len(),
        in_line(entries[i]),
        entries[i].progress > entries[k].progress,
    ensures
        further(entries, i, n) <= further(entries, k, n),
    decreases n,
{
    if n > 0 {
        lemma_further_grows(entries, i, k, n - 1);
    }
}

/// Of two torrents in line the one that is further runs if the other does.
pub proof fn law_further_first(entries: Seq<QueueEntry>, i: int, k: int, max: int)
    requires
        0 <= i < entries.len(),
        0 <= k < entries.len(),
        max > 0,
        in_line(entries[i]),
        in_line(entries[k]),
        entries[i].progress > entries[k].progress,
        runs(entries[k], queue_action(entries, k, max)),
    ensures
        runs(entries[i], queue_action(entries, i, max)),
{
    law_place_in_line(entries, i, max);
    law_place_in_line(entries, k, max);
    lemma_further_grows(entries, i, k, entries.len() as int);
}

/// What is complete is never held back, and what the user has paused stays as
/// it is. Without a limit nothing is held back.
pub proof fn law_others_left_alone(entries: Seq<QueueEntry>, i: int, max: int)
    requires
        0 <= i < entries.len(),
        max >= 0,
    ensures
        entries[i].complete ==> runs(entries[i], queue_action(entries, i, max)),
        !entries[i].complete && entries[i].paused && !entries[i].queue_paused ==> queue_action(
            entries,
            i,
            max,
        ) == QueueAction::Keep,
        max == 0 ==> runs(entries[i], queue_action(entries, i, max)),
        max == 0 && !entries[i].queue_paused ==> queue_action(entries, i, max) == QueueAction::Keep,
        entries[i].complete && !entries[i].queue_paused ==> queue_action(entries, i, max)
            == QueueAction::Keep,
        max == 0 && entries[i].queue_paused ==> queue_action(entries, i, max)
            == if entries[i].started {
            QueueAction::Resume
        } else {
            QueueAction::Start
        },
{
}

} // verus!
