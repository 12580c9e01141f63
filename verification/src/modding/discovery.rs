//! What discovering a mod does to the registry and to the settings.

use vstd::prelude::*;

use crate::Config;
use crate::modding::registry::{ModInfo, ModRegistry};
use crate::modding::types::{DefId, find_id, id_views};

verus! {

/// Registers a discovered mod under its id. A mod that the settings list as
/// disabled is disabled; a mod that they list neither way is added to the
/// enabled ones.
pub fn register_discovered(mods: &mut ModRegistry, config: &mut Config, mod_info: ModInfo)
    requires
        old(mods).wf(),
        !old(mods).ids_view().contains(mod_info.meta().id@) ==> old(mods).size() < u32::MAX,
    ensures
        final(mods).wf(),
        final(mods).order() == old(mods).order(),
        ({
            let id = mod_info.meta().id@;
            let listed_disabled = id_views(old(config).disabled_mods@).contains(id);
            let listed_enabled = id_views(old(config).enabled_mods@).contains(id);
            &&& old(mods).ids_view().contains(id) ==> {
                &&& final(mods).ids_view() == old(mods).ids_view()
                &&& exists|k: int|
                    old(mods).has_id_at(id, k) && final(mods).mods() == old(mods).mods().update(
                        k,
                        mod_info,
                    ) && final(mods).enabled_view() == if listed_disabled {
                        old(mods).enabled_view().update(k, false)
                    } else {
                        old(mods).enabled_view()
                    }
            }
            &&& !old(mods).ids_view().contains(id) ==> {
                &&& final(mods).ids_view() == old(mods).ids_view().push(id)
                &&& final(mods).mods() == old(mods).mods().push(mod_info)
                &&& final(mods).enabled_view() == old(mods).enabled_view().push(!listed_disabled)
            }
            &&& final(config).disabled_mods@ == old(config).disabled_mods@
            &&& id_views(final(config).enabled_mods@) == if !listed_disabled && !listed_enabled {
                id_views(old(config).enabled_mods@).push(id)
            } else {
                id_views(old(config).enabled_mods@)
            }
            &&& final(config).mods_dir == old(config).mods_dir
            &&& final(config).max_concurrent_io == old(config).max_concurrent_io
        }),
{
    let id: DefId = mod_info.id().clone();
    let ghost info = mod_info;
    let handle = mods.register(id.clone(), mod_info);
    let ghost registered = *mods;
    proof {
        registered.lemma_wf();
    }
    if find_id(&config.disabled_mods, id.as_str()).is_some() {
        mods.disable(&id);
        proof {
            if old(mods).ids_view().contains(id@) {
                let k = handle@ - 1;
                assert(registered.has_id_at(id@, k));
                assert(old(mods).has_id_at(id@, k) && mods.mods() == old(mods).mods().update(
                    k,
                    info,
                ) && mods.enabled_view() == old(mods).enabled_view().update(k, false));
            } else {
                assert(registered.has_id_at(id@, old(mods).size()));
                assert(final(mods).enabled_view() =~= old(mods).enabled_view().push(false));
            }
        }
    } else if find_id(&config.enabled_mods, id.as_str()).is_none() {
        let ghost before = config.enabled_mods@;
        config.enabled_mods.push(id);
        proof {
            assert(id_views(config.enabled_mods@) =~= id_views(before).push(info.meta().id@));
            if old(mods).ids_view().contains(id@) {
                let k = handle@ - 1;
                assert(old(mods).has_id_at(id@, k) && mods.mods() == old(mods).mods().update(
                    k,
                    info,
                ) && mods.enabled_view() == old(mods).enabled_view());
            }
        }
    } else {
        proof {
            if old(mods).ids_view().contains(id@) {
                let k = handle@ - 1;
                assert(old(mods).has_id_at(id@, k) && mods.mods() == old(mods).mods().update(
                    k,
                    info,
                ) && mods.enabled_view() == old(mods).enabled_view());
            }
        }
    }
}

} // verus!
