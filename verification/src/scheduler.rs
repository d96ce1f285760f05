//! The reindex scheduler's decision core: a two-state machine driven by a
//! timer tick, the revision comparison that gates a rebuild, and the
//! rebuild step itself. The timer, the source fetches and the error
//! logging live at the boundary; a failed cycle leaves the committed index
//! untouched and the machine idle for the next tick.

use vstd::prelude::*;

use crate::index::{doc_built_from, doc_wf, kept_pages, Search};
use crate::page::Page;

verus! {

/// Waiting on the timer, or inside a reindex cycle.
#[derive(Clone, Copy, Debug, PartialEq, Eq, Structural)]
pub enum SchedulerState {
    Idle,
    Reindexing,
}

/// The scheduler: its state and the tick interval in seconds.
#[derive(Clone, Copy, Debug)]
pub struct Reindexer {
    pub state: SchedulerState,
    pub interval_secs: u64,
}

impl Reindexer {
    /// A fresh scheduler: idle, with the default one-hour interval.
    pub fn new() -> (r: Reindexer)
        ensures
            r.state == SchedulerState::Idle,
            r.interval_secs == 3600,
    {
        Reindexer { state: SchedulerState::Idle, interval_secs: 3600 }
    }

    /// The same scheduler with another tick interval.
    pub fn with_interval(self, interval_secs: u64) -> (r: Reindexer)
        ensures
            r.state == self.state,
            r.interval_secs == interval_secs,
    {
        Reindexer { state: self.state, interval_secs }
    }

    /// Timer fired: enter a reindex cycle.
    pub fn on_tick(&mut self)
        ensures
            final(self).state == SchedulerState::Reindexing,
            final(self).interval_secs == old(self).interval_secs,
    {
        self.state = SchedulerState::Reindexing;
    }

    /// The source's latest revision arrived: decide. A stale index keeps
    /// the cycle going; otherwise the cycle is a no-op and the machine
    /// goes back to waiting.
    pub fn on_revision(&mut self, search: &Search, latest_revision: u32) -> (r: bool)
        ensures
            r == (search.revision < latest_revision),
            r ==> final(self).state == SchedulerState::Reindexing,
            !r ==> final(self).state == SchedulerState::Idle,
            final(self).interval_secs == old(self).interval_secs,
    {
        let stale = search.requires_reindex(latest_revision);
        if !stale {
            self.state = SchedulerState::Idle;
        } else {
            self.state = SchedulerState::Reindexing;
        }
        stale
    }

    /// The fetched page set arrived: rebuild and swap the index, advance
    /// its revision, report the new page count, and go back to waiting.
    pub fn on_pages(&mut self, search: &mut Search, pages: &Vec<Page>, revision: u32) -> (r: usize)
        requires
            forall|k: int| 0 <= k < pages@.len() ==> (#[trigger] pages@[k]).wf(),
        ensures
            final(search).revision == revision,
            final(search).docs@.len() == kept_pages(pages@).len(),
            final(search).docs@.len() <= pages@.len(),
            forall|k: int|
                0 <= k < final(search).docs@.len() ==> doc_wf(#[trigger] final(search).docs@[k])
                    && doc_built_from(final(search).docs@[k], kept_pages(pages@)[k]),
            r == final(search).docs@.len(),
            final(self).state == SchedulerState::Idle,
            final(self).interval_secs == old(self).interval_secs,
    {
        search.reindex_pages(pages, revision);
        self.state = SchedulerState::Idle;
        search.page_count()
    }

    /// An error ended the cycle: nothing was committed; wait for the next
    /// tick.
    pub fn on_error(&mut self)
        ensures
            final(self).state == SchedulerState::Idle,
            final(self).interval_secs == old(self).interval_secs,
    {
        self.state = SchedulerState::Idle;
    }
}

/// Revision monotonicity: once the stored revision stands at `r2`, no
/// revision at or below `r2` requires a reindex, and any strictly newer
/// one does.
pub proof fn lemma_revision_monotonic(s: Search, r1: u32, r2: u32)
    requires
        s.revision == r2,
        r1 <= r2,
    ensures
        !(s.revision < r1),
        r2 < 0xFFFF_FFFFu32 ==> s.revision < (r2 + 1) as u32,
{
}

} // verus!
