//! Bookkeeping of the definition files that the registration stage loads:
//! how many wait, how many are loading, and how many are done.

use std::collections::VecDeque;

use vstd::prelude::*;

use crate::modding::registry::{ModInfo, ModLoadState};
use crate::modding::types::DefHandle;

verus! {

/// How many definition files wait to be loaded, are loading, and are done,
/// over all kinds of definitions.
#[derive(Debug, Default, Clone, Copy, PartialEq, Eq, Structural)]
pub struct LoadCounters {
    pub pending: usize,
    pub active: usize,
    pub complete: usize,
}

impl LoadCounters {
    /// All counters at zero.
    pub fn new() -> (r: LoadCounters)
        ensures
            r == (LoadCounters { pending: 0, active: 0, complete: 0 }),
    {
        LoadCounters { pending: 0, active: 0, complete: 0 }
    }

    /// The number of files in all.
    pub open spec fn total(&self) -> int {
        self.pending + self.active + self.complete
    }

    /// Counts `count` more files as waiting.
    pub fn add_pending(&mut self, count: usize)
        requires
            old(self).pending + count <= usize::MAX,
        ensures
            *final(self) == (LoadCounters { pending: (old(self).pending + count) as usize, ..*old(self) }),
    {
        self.pending = self.pending + count;
    }

    /// Counts a load as finished.
    pub fn finish_one(&mut self)
        requires
            old(self).active > 0,
            old(self).complete < usize::MAX,
        ensures
            final(self).pending == old(self).pending,
            final(self).active == old(self).active - 1,
            final(self).complete == old(self).complete + 1,
            final(self).total() == old(self).total(),
    {
        self.active = self.active - 1;
        self.complete = self.complete + 1;
    }

    /// The share of files done, in percent; 100 when there are none.
    pub fn percent(&self) -> (r: usize)
        requires
            self.total() <= usize::MAX,
            self.complete * 100 <= usize::MAX,
        ensures
            self.total() == 0 ==> r == 100,
            self.total() > 0 ==> r == self.complete * 100 / self.total(),
    {
        let total = self.pending + self.active + self.complete;
        match (self.complete * 100).checked_div(total) {
            Some(p) => p,
            None => 100,
        }
    }

    /// The registration stage is over when nothing waits and nothing loads:
    /// the next state is `Resolve`.
    pub fn next_state(&self) -> (r: Option<ModLoadState>)
        ensures
            r == if self.pending == 0 && self.active == 0 {
                Some(ModLoadState::Resolve)
            } else {
                None::<ModLoadState>
            },
    {
        if self.pending == 0 && self.active == 0 {
            Some(ModLoadState::Resolve)
        } else {
            None
        }
    }
}

/// Takes the next files to load off the front of `queue`, as many as the
/// limit on concurrent loads leaves room for, and counts them as loading.
pub fn take_batch(
    queue: &mut VecDeque<(DefHandle<ModInfo>, String)>,
    counters: &mut LoadCounters,
    max_concurrent_io: usize,
) -> (r: Vec<(DefHandle<ModInfo>, String)>)
    requires
        old(counters).pending >= old(queue)@.len(),
        old(counters).active + old(queue)@.len() <= usize::MAX,
    ensures
        r@.len() == if old(counters).active < max_concurrent_io {
            vstd::math::min(max_concurrent_io - old(counters).active, old(queue)@.len() as int)
        } else {
            0
        },
        r@ == old(queue)@.take(r@.len() as int),
        final(queue)@ == old(queue)@.skip(r@.len() as int),
        final(counters).pending == old(counters).pending - r@.len(),
        final(counters).active == old(counters).active + r@.len(),
        final(counters).complete == old(counters).complete,
{
    let mut r: Vec<(DefHandle<ModInfo>, String)> = Vec::new();
    let ghost q0 = queue@;
    while counters.active < max_concurrent_io && queue.len() > 0
        invariant
            q0 == old(queue)@,
            r@ == q0.take(r@.len() as int),
            queue@ == q0.skip(r@.len() as int),
            r@.len() <= q0.len(),
            counters.pending == old(counters).pending - r@.len(),
            counters.active == old(counters).active + r@.len(),
            counters.complete == old(counters).complete,
            old(counters).pending >= q0.len(),
            old(counters).active + q0.len() <= usize::MAX,
            old(counters).active < max_concurrent_io ==> r@.len() <= max_concurrent_io
                - old(counters).active,
            old(counters).active >= max_concurrent_io ==> r@.len() == 0,
        decreases queue@.len(),
    {
        let item = match queue.pop_front() {
            Some(x) => x,
            None => {
                assert(false);
                return r;
            },
        };
        proof {
            assert(item == q0[r@.len() as int]);
        }
        r.push(item);
        counters.pending = counters.pending - 1;
        counters.active = counters.active + 1;
        proof {
            assert(r@ =~= q0.take(r@.len() as int));
            assert(queue@ =~= q0.skip(r@.len() as int));
        }
    }
    r
}

} // verus!
