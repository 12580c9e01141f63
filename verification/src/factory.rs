//! Machines and recipes, and the resolution of the ids they name to handles.

use vstd::prelude::*;

use crate::item::ItemDef;
use crate::modding::types::{DefHandle, DefId, Registry};

verus! {

/// A kind of machine: the kinds of recipes it runs.
#[derive(Debug)]
pub struct MachineDef {
    pub recipe_kinds: Vec<DefId>,
}

impl MachineDef {
    /// The definition read from a mod's file, registered under the id of the
    /// mod joined with the id in the file.
    pub fn from_raw(mod_id: &DefId, id: DefId, recipe_kinds: Vec<DefId>) -> (r: (
        DefId,
        MachineDef,
    ))
        ensures
            r.0@ == mod_id@ + seq![':', ':'] + id@,
            r.1.recipe_kinds@ == recipe_kinds@,
    {
        (mod_id.join(id), MachineDef { recipe_kinds })
    }
}

/// A machine definition with its recipe kinds resolved to handles.
#[derive(Debug)]
pub struct MachineDefResolved {
    pub recipe_kinds: Vec<DefHandle<RecipeKindDef>>,
}

/// A machine placed in the world, and the recipe it runs.
#[derive(Debug)]
pub struct Machine {
    pub handle: DefHandle<MachineDef>,
    pub recipe: DefHandle<RecipeDef>,
}

/// A kind of recipe.
#[derive(Debug)]
pub struct RecipeKindDef {}

impl RecipeKindDef {
    /// The definition read from a mod's file, registered under the id of the
    /// mod joined with the id in the file.
    pub fn from_raw(mod_id: &DefId, id: DefId) -> (r: (DefId, RecipeKindDef))
        ensures
            r.0@ == mod_id@ + seq![':', ':'] + id@,
    {
        (mod_id.join(id), RecipeKindDef {})
    }
}

/// A recipe: its kind, the items it takes and makes with their counts, and
/// the IEEE-754 bits of the time it takes, in seconds.
#[derive(Debug)]
pub struct RecipeDef {
    pub kind: DefId,
    pub inputs: Vec<(DefId, usize)>,
    pub outputs: Vec<(DefId, usize)>,
    pub time_bits: u32,
}

/// A recipe with its kind and items resolved to handles.
#[derive(Debug)]
pub struct ResolvedRecipe {
    pub kind: DefHandle<RecipeKindDef>,
    pub inputs: Vec<(DefHandle<ItemDef>, usize)>,
    pub outputs: Vec<(DefHandle<ItemDef>, usize)>,
    pub time_bits: u32,
}

/// The handle `h` names the entry registered under `id` in `ids`.
pub open spec fn names(ids: Seq<Seq<char>>, h: int, id: Seq<char>) -> bool {
    0 < h <= ids.len() && ids[h - 1] == id
}

/// `resolved` holds, entry by entry, the handles of the ids of `entries` and
/// their counts.
pub open spec fn entries_resolved(
    ids: Seq<Seq<char>>,
    entries: Seq<(DefId, usize)>,
    resolved: Seq<(DefHandle<ItemDef>, usize)>,
) -> bool {
    &&& resolved.len() == entries.len()
    &&& forall|k: int|
        0 <= k < entries.len() ==> names(ids, (#[trigger] resolved[k]).0@ as int, entries[k].0@)
            && resolved[k].1 == entries[k].1
}

/// Every id of `entries` is registered in `ids`.
pub open spec fn all_registered(ids: Seq<Seq<char>>, entries: Seq<(DefId, usize)>) -> bool {
    forall|k: int| 0 <= k < entries.len() ==> ids.contains((#[trigger] entries[k]).0@)
}

/// The handles of the items that `entries` name, with their counts; `None`
/// when one of them is not registered.
fn resolve_entries(items: &Registry<ItemDef>, entries: &Vec<(DefId, usize)>) -> (r: Option<
    Vec<(DefHandle<ItemDef>, usize)>,
>)
    requires
        items.wf(),
    ensures
        r is Some <==> all_registered(items.ids_view(), entries@),
        r matches Some(v) ==> entries_resolved(items.ids_view(), entries@, v@),
{
    let mut out: Vec<(DefHandle<ItemDef>, usize)> = Vec::new();
    let mut k: usize = 0;
    while k < entries.len()
        invariant
            items.wf(),
            k <= entries@.len(),
            out@.len() == k,
            forall|j: int| 0 <= j < k ==> items.ids_view().contains((#[trigger] entries@[j]).0@),
            forall|j: int|
                0 <= j < k ==> names(items.ids_view(), (#[trigger] out@[j]).0@ as int, entries@[j].0@)
                    && out@[j].1 == entries@[j].1,
        decreases entries@.len() - k,
    {
        let (id, count) = (&entries[k].0, entries[k].1);
        match items.get_handle(id.as_str()) {
            Some(h) => {
                out.push((h, count));
            },
            None => {
                return None;
            },
        }
        k = k + 1;
    }
    Some(out)
}

impl RecipeDef {
    /// The definition read from a mod's file, registered under the id of the
    /// mod joined with the id in the file.
    pub fn from_raw(
        mod_id: &DefId,
        id: DefId,
        kind: DefId,
        inputs: Vec<(DefId, usize)>,
        outputs: Vec<(DefId, usize)>,
        time_bits: u32,
    ) -> (r: (DefId, RecipeDef))
        ensures
            r.0@ == mod_id@ + seq![':', ':'] + id@,
            r.1.kind == kind,
            r.1.inputs@ == inputs@,
            r.1.outputs@ == outputs@,
            r.1.time_bits == time_bits,
    {
        (mod_id.join(id), RecipeDef { kind, inputs, outputs, time_bits })
    }

    /// The recipe with its kind and items resolved; `None` when one of them
    /// is not registered.
    pub fn resolve(&self, recipe_kinds: &Registry<RecipeKindDef>, items: &Registry<ItemDef>) -> (r:
        Option<ResolvedRecipe>)
        requires
            recipe_kinds.wf(),
            items.wf(),
        ensures
            r is Some <==> recipe_kinds.ids_view().contains(self.kind@) && all_registered(
                items.ids_view(),
                self.inputs@,
            ) && all_registered(items.ids_view(), self.outputs@),
            r matches Some(res) ==> {
                &&& names(recipe_kinds.ids_view(), res.kind@ as int, self.kind@)
                &&& entries_resolved(items.ids_view(), self.inputs@, res.inputs@)
                &&& entries_resolved(items.ids_view(), self.outputs@, res.outputs@)
                &&& res.time_bits == self.time_bits
            },
    {
        let kind = match recipe_kinds.get_handle(self.kind.as_str()) {
            Some(h) => h,
            None => {
                return None;
            },
        };
        let inputs = match resolve_entries(items, &self.inputs) {
            Some(v) => v,
            None => {
                return None;
            },
        };
        let outputs = match resolve_entries(items, &self.outputs) {
            Some(v) => v,
            None => {
                return None;
            },
        };
        Some(ResolvedRecipe { kind, inputs, outputs, time_bits: self.time_bits })
    }
}

/// Resolved definitions by the handle of the definition they came from;
/// `None` where resolution failed.
#[derive(Debug)]
pub struct ResolvedRegistry<R> {
    definitions: Vec<Option<R>>,
}

impl<R> ResolvedRegistry<R> {
    /// The resolved definitions, in handle order.
    pub closed spec fn entries(&self) -> Seq<Option<R>> {
        self.definitions@
    }

    pub fn new(defs: Vec<Option<R>>) -> (r: ResolvedRegistry<R>)
        ensures
            r.entries() == defs@,
    {
        ResolvedRegistry { definitions: defs }
    }

    /// The resolved definition with the given handle.
    pub fn get(&self, handle: DefHandle<R>) -> (r: Option<&R>)
        ensures
            r == if handle@ - 1 < self.entries().len() {
                match self.entries()[handle@ - 1] {
                    Some(d) => Some(&d),
                    None => None::<&R>,
                }
            } else {
                None::<&R>
            },
    {
        let i = handle.to_index();
        if i < self.definitions.len() {
            self.definitions[i].as_ref()
        } else {
            None
        }
    }
}

/// Resolves every registered recipe, in handle order.
pub fn resolve_recipes(
    registry: &Registry<RecipeDef>,
    recipe_kinds: &Registry<RecipeKindDef>,
    items: &Registry<ItemDef>,
) -> (r: ResolvedRegistry<ResolvedRecipe>)
    requires
        registry.wf(),
        recipe_kinds.wf(),
        items.wf(),
    ensures
        r.entries().len() == registry.defs().len(),
        forall|k: int|
            0 <= k < registry.defs().len() ==> {
                let def = registry.defs()[k];
                &&& (#[trigger] r.entries()[k]) is Some <==> recipe_kinds.ids_view().contains(
                    def.kind@,
                ) && all_registered(items.ids_view(), def.inputs@) && all_registered(
                    items.ids_view(),
                    def.outputs@,
                )
                &&& r.entries()[k] matches Some(res) ==> {
                    &&& names(recipe_kinds.ids_view(), res.kind@ as int, def.kind@)
                    &&& entries_resolved(items.ids_view(), def.inputs@, res.inputs@)
                    &&& entries_resolved(items.ids_view(), def.outputs@, res.outputs@)
                    &&& res.time_bits == def.time_bits
                }
            },
{
    let defs = registry.iter();
    let mut out: Vec<Option<ResolvedRecipe>> = Vec::new();
    let mut k: usize = 0;
    while k < defs.len()
        invariant
            recipe_kinds.wf(),
            items.wf(),
            defs@ == registry.defs(),
            k <= defs@.len(),
            out@.len() == k,
            forall|j: int|
                0 <= j < k ==> {
                    let def = registry.defs()[j];
                    &&& (#[trigger] out@[j]) is Some <==> recipe_kinds.ids_view().contains(
                        def.kind@,
                    ) && all_registered(items.ids_view(), def.inputs@) && all_registered(
                        items.ids_view(),
                        def.outputs@,
                    )
                    &&& out@[j] matches Some(res) ==> {
                        &&& names(recipe_kinds.ids_view(), res.kind@ as int, def.kind@)
                        &&& entries_resolved(items.ids_view(), def.inputs@, res.inputs@)
                        &&& entries_resolved(items.ids_view(), def.outputs@, res.outputs@)
                        &&& res.time_bits == def.time_bits
                    }
                },
        decreases defs@.len() - k,
    {
        let resolved = defs[k].resolve(recipe_kinds, items);
        out.push(resolved);
        k = k + 1;
    }
    ResolvedRegistry::new(out)
}

} // verus!
