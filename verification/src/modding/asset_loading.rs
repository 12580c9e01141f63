//! The decisions of the asset loading stage: which tile sprites finished
//! loading, which failed, and when the stage is over.

use vstd::prelude::*;

use crate::modding::registry::ModLoadState;
use crate::modding::types::DefHandle;
use crate::world::tile::TileDef;

verus! {

/// Where the load of one sprite stands.
#[derive(Debug, Clone, Copy, PartialEq, Eq, Structural)]
pub enum LoadStatus {
    /// Not loaded yet, or loading.
    Loading,
    Loaded,
    Failed,
}

/// The sprites that finished loading and that failed, and the next state.
#[derive(Debug)]
pub struct LoadReport {
    pub complete: Vec<DefHandle<TileDef>>,
    pub failed: Vec<DefHandle<TileDef>>,
    pub next_state: Option<ModLoadState>,
}

/// The handles of the entries of `statuses` with status `want`, in order.
pub open spec fn with_status(
    statuses: Seq<(DefHandle<TileDef>, LoadStatus)>,
    want: LoadStatus,
) -> Seq<DefHandle<TileDef>>
    decreases statuses.len(),
{
    if statuses.len() == 0 {
        Seq::empty()
    } else {
        let rest = with_status(statuses.drop_last(), want);
        if statuses.last().1 == want {
            rest.push(statuses.last().0)
        } else {
            rest
        }
    }
}

/// Sorts the sprites still waiting by where their loads stand. Loaded ones
/// are complete, failed ones are dropped, and once none is loading the next
/// state is `Finalize`.
pub fn sort_loads(statuses: &Vec<(DefHandle<TileDef>, LoadStatus)>) -> (r: LoadReport)
    ensures
        r.complete@ == with_status(statuses@, LoadStatus::Loaded),
        r.failed@ == with_status(statuses@, LoadStatus::Failed),
        r.next_state == if forall|k: int|
            0 <= k < statuses@.len() ==> (#[trigger] statuses@[k]).1 != LoadStatus::Loading {
            Some(ModLoadState::Finalize)
        } else {
            None::<ModLoadState>
        },
{
    let mut complete: Vec<DefHandle<TileDef>> = Vec::new();
    let mut failed: Vec<DefHandle<TileDef>> = Vec::new();
    let mut waiting = false;
    let mut k: usize = 0;
    while k < statuses.len()
        invariant
            k <= statuses@.len(),
            complete@ == with_status(statuses@.take(k as int), LoadStatus::Loaded),
            failed@ == with_status(statuses@.take(k as int), LoadStatus::Failed),
            waiting == exists|j: int|
                0 <= j < k && (#[trigger] statuses@[j]).1 == LoadStatus::Loading,
        decreases statuses@.len() - k,
    {
        proof {
            assert(statuses@.take(k + 1).drop_last() =~= statuses@.take(k as int));
        }
        let (handle, status) = statuses[k];
        match status {
            LoadStatus::Loading => {
                waiting = true;
            },
            LoadStatus::Loaded => {
                complete.push(handle);
            },
            LoadStatus::Failed => {
                failed.push(handle);
            },
        }
        k = k + 1;
    }
    proof {
        assert(statuses@.take(k as int) =~= statuses@);
    }
    let next_state = if waiting {
        None
    } else {
        Some(ModLoadState::Finalize)
    };
    LoadReport { complete, failed, next_state }
}

} // verus!
