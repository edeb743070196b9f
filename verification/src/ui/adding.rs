//! The dialog in which the user says what is to be downloaded of a torrent.

use crate::pending::{checked_priorities, PendingTorrent};
use crate::types::FilePriority;
use vstd::prelude::*;

verus! {

/// The torrents that wait, the first of which is shown, with a check for each
/// of its files and the directory it goes to.
#[derive(Debug, Clone)]
pub struct AddDialog {
    pub queue: Vec<PendingTorrent>,
    pub checks: Vec<bool>,
    pub path: String,
}

/// A number of equal checks.
pub open spec fn all_checks(n: nat, value: bool) -> Seq<bool> {
    Seq::new(n, |i: int| value)
}

fn equal_checks(n: usize, value: bool) -> (r: Vec<bool>)
    ensures
        r@ == all_checks(n as nat, value),
{
    let mut out: Vec<bool> = Vec::new();
    while out.len() < n
        invariant
            out.len() <= n,
            forall|i: int| 0 <= i < out.len() ==> out@[i] == value,
        decreases n - out.len(),
    {
        out.push(value);
    }
    assert(out@ =~= all_checks(n as nat, value));
    out
}

impl AddDialog {
    /// There is a check for each file of the torrent that is shown.
    pub open spec fn wf(&self) -> bool {
        self.checks@.len() == if self.queue@.len() > 0 {
            self.queue@[0].files@.len()
        } else {
            0
        }
    }

    /// The torrent that is shown was not touched yet: all of its files are
    /// checked, and it goes where it suggests.
    pub open spec fn untouched(&self) -> bool {
        if self.queue@.len() > 0 {
            &&& self.checks@ == all_checks(self.queue@[0].files@.len(), true)
            &&& self.path@ == self.queue@[0].suggested_dir@
        } else {
            &&& self.checks@ == all_checks(0, true)
            &&& self.path@ == Seq::<char>::empty()
        }
    }

    fn show_first(&mut self)
        ensures
            final(self).queue == old(self).queue,
            final(self).wf(),
            final(self).untouched(),
    {
        if self.queue.len() > 0 {
            self.checks = equal_checks(self.queue[0].files.len(), true);
            self.path = self.queue[0].suggested_dir.clone();
        } else {
            self.checks = equal_checks(0, true);
            self.path = String::new();
            assert(self.path@ =~= Seq::<char>::empty());
        }
    }

    /// A dialog for torrents that wait.
    pub fn new(pending: Vec<PendingTorrent>) -> (r: AddDialog)
        ensures
            r.wf(),
            r.queue == pending,
            r.untouched(),
    {
        let mut r = AddDialog { queue: pending, checks: Vec::new(), path: String::new() };
        r.show_first();
        r
    }

    /// Whether a torrent is shown.
    pub fn is_open(&self) -> (r: bool)
        ensures
            r == (self.queue@.len() > 0),
    {
        self.queue.len() > 0
    }

    /// Lets more torrents wait, after the others. What is shown stays, with
    /// what the user did to it; if nothing was shown, the first one is.
    pub fn offer(&mut self, more: Vec<PendingTorrent>)
        requires
            old(self).wf(),
        ensures
            final(self).wf(),
            final(self).queue@ == old(self).queue@ + more@,
            old(self).queue@.len() > 0 ==> final(self).checks == old(self).checks
                && final(self).path == old(self).path,
            old(self).queue@.len() == 0 ==> final(self).untouched(),
    {
        let open = self.queue.len() > 0;
        let mut more = more;
        self.queue.append(&mut more);
        if !open {
            self.show_first();
        }
    }

    /// Goes on to the next torrent and says whether there is one.
    pub fn advance(&mut self) -> (r: bool)
        requires
            old(self).wf(),
        ensures
            final(self).wf(),
            final(self).queue@ == if old(self).queue@.len() > 0 {
                old(self).queue@.skip(1)
            } else {
                old(self).queue@
            },
            final(self).untouched(),
            r == (final(self).queue@.len() > 0),
    {
        if self.queue.len() > 0 {
            let _ = self.queue.remove(0);
            assert(self.queue@ =~= old(self).queue@.skip(1));
        }
        self.show_first();
        self.queue.len() > 0
    }

    /// Checks a file or takes its check away. A file that does not exist is
    /// ignored.
    pub fn check(&mut self, index: usize, value: bool)
        requires
            old(self).wf(),
        ensures
            final(self).wf(),
            final(self).checks@ == if index < old(self).checks@.len() {
                old(self).checks@.update(index as int, value)
            } else {
                old(self).checks@
            },
            final(self).queue == old(self).queue,
            final(self).path == old(self).path,
    {
        if index < self.checks.len() {
            self.checks.set(index, value);
        }
    }

    /// Checks all files of the torrent that is shown, or none.
    pub fn check_all(&mut self, value: bool)
        requires
            old(self).wf(),
        ensures
            final(self).wf(),
            final(self).checks@ == all_checks(old(self).checks@.len(), value),
            final(self).queue == old(self).queue,
            final(self).path == old(self).path,
    {
        self.checks = equal_checks(self.checks.len(), value);
    }

    /// The priorities that the checks stand for.
    pub fn priorities(&self) -> (r: Vec<FilePriority>)
        ensures
            r@ == Seq::new(
                self.checks@.len(),
                |i: int|
                    if self.checks@[i] {
                        FilePriority::Normal
                    } else {
                        FilePriority::Skip
                    },
            ),
    {
        checked_priorities(&self.checks)
    }
}

} // verus!
