//! The registry of discovered mods, each enabled or disabled.

use vstd::prelude::*;

use crate::modding::validation::joined;
use crate::modding::types::{
    DefHandle, DefId, find_id, id_views, ids_distinct, keyed_by_id, keyed_entries, keys_distinct,
};

verus! {

/// The stages of loading mods.
#[derive(Debug, Default, Clone, Copy, PartialEq, Eq, Structural, Hash)]
pub enum ModLoadState {
    /// Discover and load mod metadata from mods folder.
    #[default]
    Discover,
    /// Validate dependencies and determine mod load order.
    Validate,
    /// Register definitions into registries.
    Register,
    /// Resolve ids to handles in definitions.
    Resolve,
    /// Load assets and create spritemaps.
    LoadAssets,
    /// Finalize mod loading and check registries.
    Finalize,
}

/// What a mod's `mod.toml` declares: its id, name, version, author, and the
/// version requirements on the mods it depends on.
#[derive(Debug, Clone)]
pub struct ModMetadata {
    pub id: DefId,
    pub name: String,
    pub version: String,
    pub author: String,
    pub dependencies: Vec<(DefId, String)>,
    pub optional_dependencies: Vec<(DefId, String)>,
}

impl ModMetadata {
    /// The metadata from the fields of a parsed `mod.toml`; an absent
    /// dependency table counts as an empty one. Each table holds an id once:
    /// an id given twice keeps its first place and the requirement given last.
    pub fn from_raw(
        id: DefId,
        name: String,
        version: String,
        author: String,
        dependencies: Option<Vec<(DefId, String)>>,
        optional_dependencies: Option<Vec<(DefId, String)>>,
    ) -> (r: ModMetadata)
        ensures
            r.id == id,
            r.name@ == name@,
            r.version@ == version@,
            r.author@ == author@,
            r.dependencies@ == keyed_entries(
                match dependencies {
                    Some(d) => d@,
                    None => Seq::empty(),
                },
            ),
            r.optional_dependencies@ == keyed_entries(
                match optional_dependencies {
                    Some(d) => d@,
                    None => Seq::empty(),
                },
            ),
            keys_distinct(r.dependencies@),
            keys_distinct(r.optional_dependencies@),
    {
        let dependencies = match dependencies {
            Some(d) => d,
            None => Vec::new(),
        };
        let optional_dependencies = match optional_dependencies {
            Some(d) => d,
            None => Vec::new(),
        };
        ModMetadata {
            id,
            name,
            version,
            author,
            dependencies: keyed_by_id(dependencies),
            optional_dependencies: keyed_by_id(optional_dependencies),
        }
    }
}

/// A discovered mod: where it lies and what it declares.
#[derive(Debug, Clone)]
pub struct ModInfo {
    path: String,
    metadata: ModMetadata,
}

impl ModInfo {
    /// The directory of the mod.
    pub closed spec fn path_view(&self) -> Seq<char> {
        self.path@
    }

    /// The metadata of the mod.
    pub closed spec fn meta(&self) -> ModMetadata {
        self.metadata
    }

    /// The mod at `path` with the given metadata. Each dependency table
    /// holds an id once: an id given twice keeps its first place and the
    /// requirement given last.
    pub fn new(path: String, metadata: ModMetadata) -> (r: ModInfo)
        ensures
            r.path_view() == path@,
            r.meta().id == metadata.id,
            r.meta().name == metadata.name,
            r.meta().version == metadata.version,
            r.meta().author == metadata.author,
            r.meta().dependencies@ == keyed_entries(metadata.dependencies@),
            r.meta().optional_dependencies@ == keyed_entries(metadata.optional_dependencies@),
            keys_distinct(r.meta().dependencies@),
            keys_distinct(r.meta().optional_dependencies@),
    {
        let ModMetadata { id, name, version, author, dependencies, optional_dependencies } =
            metadata;
        let metadata = ModMetadata {
            id,
            name,
            version,
            author,
            dependencies: keyed_by_id(dependencies),
            optional_dependencies: keyed_by_id(optional_dependencies),
        };
        ModInfo { path, metadata }
    }

    pub fn path(&self) -> (r: &str)
        ensures
            r@ == self.path_view(),
    {
        self.path.as_str()
    }

    pub fn id(&self) -> (r: &DefId)
        ensures
            *r == self.meta().id,
    {
        &self.metadata.id
    }

    pub fn name(&self) -> (r: &str)
        ensures
            r@ == self.meta().name@,
    {
        self.metadata.name.as_str()
    }

    pub fn version(&self) -> (r: &str)
        ensures
            r@ == self.meta().version@,
    {
        self.metadata.version.as_str()
    }

    pub fn author(&self) -> (r: &str)
        ensures
            r@ == self.meta().author@,
    {
        self.metadata.author.as_str()
    }

    /// The required dependencies: mod ids with version requirements.
    pub fn dependencies(&self) -> (r: &Vec<(DefId, String)>)
        ensures
            *r == self.meta().dependencies,
    {
        &self.metadata.dependencies
    }

    /// The optional dependencies: mod ids with version requirements.
    pub fn optional_dependencies(&self) -> (r: &Vec<(DefId, String)>)
        ensures
            *r == self.meta().optional_dependencies,
    {
        &self.metadata.optional_dependencies
    }
}

/// The number of entries of `flags` equal to `want`.
pub open spec fn count_flag(flags: Seq<bool>, want: bool) -> nat
    decreases flags.len(),
{
    if flags.len() == 0 {
        0
    } else {
        count_flag(flags.drop_last(), want) + if flags.last() == want { 1nat } else { 0nat }
    }
}

/// The positions of `flags` whose entry is `want`, in increasing order; all
/// positions when `want` is `None`.
pub open spec fn positions(flags: Seq<bool>, want: Option<bool>) -> Seq<int>
    decreases flags.len(),
{
    if flags.len() == 0 {
        Seq::empty()
    } else {
        let p = positions(flags.drop_last(), want);
        if want is None || flags.last() == want->0 {
            p.push(flags.len() - 1)
        } else {
            p
        }
    }
}

/// The registry of discovered mods. A mod's handle is its position plus one;
/// each mod is either enabled or disabled.
pub struct ModRegistry {
    mods: Vec<ModInfo>,
    ids: Vec<DefId>,
    enabled: Vec<bool>,
    pub load_order: Vec<DefHandle<ModInfo>>,
}

impl ModRegistry {
    /// The mods, in handle order.
    pub closed spec fn mods(&self) -> Seq<ModInfo> {
        self.mods@
    }

    /// The ids under which the mods were registered, in handle order.
    pub closed spec fn ids_view(&self) -> Seq<Seq<char>> {
        id_views(self.ids@)
    }

    /// Whether each mod is enabled, in handle order.
    pub closed spec fn enabled_view(&self) -> Seq<bool> {
        self.enabled@
    }

    /// The load order: handles of the mods in the order they load.
    pub closed spec fn order(&self) -> Seq<DefHandle<ModInfo>> {
        self.load_order@
    }

    /// One id and one flag per mod, no id twice, and every handle fits in 32 bits.
    pub closed spec fn wf(&self) -> bool {
        &&& self.mods@.len() == self.ids@.len()
        &&& self.enabled@.len() == self.ids@.len()
        &&& ids_distinct(id_views(self.ids@))
        &&& self.ids@.len() <= u32::MAX
    }

    /// What `wf` promises: one mod and one flag per id, no id twice, and
    /// at most `u32::MAX` mods.
    pub proof fn lemma_wf(&self)
        requires
            self.wf(),
        ensures
            self.mods().len() == self.size(),
            self.enabled_view().len() == self.size(),
            ids_distinct(self.ids_view()),
            self.size() <= u32::MAX,
    {
    }

    /// The number of mods.
    pub open spec fn size(&self) -> int {
        self.ids_view().len() as int
    }

    /// The position of the mod registered under `id`, when there is one.
    pub open spec fn has_id_at(&self, id: Seq<char>, k: int) -> bool {
        0 <= k < self.size() && self.ids_view()[k] == id
    }

    pub fn new() -> (r: ModRegistry)
        ensures
            r.wf(),
            r.size() == 0,
            r.mods().len() == 0,
            r.enabled_view().len() == 0,
            r.order().len() == 0,
    {
        let r = ModRegistry {
            mods: Vec::new(),
            ids: Vec::new(),
            enabled: Vec::new(),
            load_order: Vec::new(),
        };
        assert(r.ids_view() =~= Seq::<Seq<char>>::empty());
        r
    }

    /// Registers a mod under `id` and returns its handle. A new mod is
    /// enabled; a mod already registered under `id` is replaced and keeps its
    /// handle and its state.
    pub fn register(&mut self, id: DefId, mod_info: ModInfo) -> (r: DefHandle<ModInfo>)
        requires
            old(self).wf(),
            !old(self).ids_view().contains(id@) ==> old(self).size() < u32::MAX,
        ensures
            final(self).wf(),
            final(self).order() == old(self).order(),
            0 < r@ <= final(self).size(),
            final(self).ids_view()[r@ - 1] == id@,
            final(self).mods()[r@ - 1] == mod_info,
            old(self).ids_view().contains(id@) ==> {
                &&& final(self).ids_view() == old(self).ids_view()
                &&& final(self).enabled_view() == old(self).enabled_view()
                &&& 0 < r@ <= old(self).size()
                &&& old(self).ids_view()[r@ - 1] == id@
                &&& final(self).mods() == old(self).mods().update(r@ - 1, mod_info)
            },
            !old(self).ids_view().contains(id@) ==> {
                &&& final(self).ids_view() == old(self).ids_view().push(id@)
                &&& final(self).enabled_view() == old(self).enabled_view().push(true)
                &&& final(self).mods() == old(self).mods().push(mod_info)
                &&& r@ == old(self).size() + 1
            },
    {
        match find_id(&self.ids, id.as_str()) {
            Some(k) => {
                self.mods.set(k, mod_info);
                assert(self.ids_view()[k as int] == id@);
                DefHandle::from_index(k)
            },
            None => {
                let n = self.mods.len();
                let handle = DefHandle::from_index(n);
                self.mods.push(mod_info);
                self.ids.push(id);
                self.enabled.push(true);
                proof {
                    assert(self.ids_view() =~= old(self).ids_view().push(id@));
                }
                handle
            },
        }
    }

    /// Enables the mod registered under `id`, if there is one.
    pub fn enable(&mut self, id: &DefId)
        requires
            old(self).wf(),
        ensures
            final(self).wf(),
            final(self).mods() == old(self).mods(),
            final(self).ids_view() == old(self).ids_view(),
            final(self).order() == old(self).order(),
            forall|k: int|
                old(self).has_id_at(id@, k) ==> final(self).enabled_view() == old(
                    self,
                ).enabled_view().update(k, true),
            !old(self).ids_view().contains(id@) ==> final(self).enabled_view() == old(
                self,
            ).enabled_view(),
    {
        self.set_state(id, true)
    }

    /// Disables the mod registered under `id`, if there is one.
    pub fn disable(&mut self, id: &DefId)
        requires
            old(self).wf(),
        ensures
            final(self).wf(),
            final(self).mods() == old(self).mods(),
            final(self).ids_view() == old(self).ids_view(),
            final(self).order() == old(self).order(),
            forall|k: int|
                old(self).has_id_at(id@, k) ==> final(self).enabled_view() == old(
                    self,
                ).enabled_view().update(k, false),
            !old(self).ids_view().contains(id@) ==> final(self).enabled_view() == old(
                self,
            ).enabled_view(),
    {
        self.set_state(id, false)
    }

    fn set_state(&mut self, id: &DefId, state: bool)
        requires
            old(self).wf(),
        ensures
            final(self).wf(),
            final(self).mods() == old(self).mods(),
            final(self).ids_view() == old(self).ids_view(),
            final(self).order() == old(self).order(),
            forall|k: int|
                old(self).has_id_at(id@, k) ==> final(self).enabled_view() == old(
                    self,
                ).enabled_view().update(k, state),
            !old(self).ids_view().contains(id@) ==> final(self).enabled_view() == old(
                self,
            ).enabled_view(),
    {
        match find_id(&self.ids, id.as_str()) {
            Some(k) => {
                self.enabled.set(k, state);
                proof {
                    assert forall|j: int| old(self).has_id_at(id@, j) implies j == k by {
                        assert(old(self).ids_view()[j] == old(self).ids_view()[k as int]);
                    }
                }
            },
            None => {},
        }
    }

    /// Replaces the load order.
    pub fn set_load_order(&mut self, order: Vec<DefHandle<ModInfo>>)
        requires
            old(self).wf(),
        ensures
            final(self).wf(),
            final(self).mods() == old(self).mods(),
            final(self).ids_view() == old(self).ids_view(),
            final(self).enabled_view() == old(self).enabled_view(),
            final(self).order() == order@,
    {
        self.load_order = order;
    }

    pub fn clear(&mut self)
        ensures
            final(self).wf(),
            final(self).size() == 0,
            final(self).mods().len() == 0,
            final(self).enabled_view().len() == 0,
            final(self).order().len() == 0,
    {
        self.mods.clear();
        self.ids.clear();
        self.enabled.clear();
        self.load_order.clear();
        assert(self.ids_view() =~= Seq::<Seq<char>>::empty());
    }

    /// The number of mods.
    pub fn len(&self) -> (r: usize)
        requires
            self.wf(),
        ensures
            r == self.size(),
    {
        self.ids.len()
    }

    fn count_state(&self, state: bool) -> (r: usize)
        requires
            self.wf(),
        ensures
            r == count_flag(self.enabled_view(), state),
    {
        let mut n: usize = 0;
        let mut i: usize = 0;
        while i < self.enabled.len()
            invariant
                self.wf(),
                i <= self.enabled@.len(),
                n == count_flag(self.enabled@.subrange(0, i as int), state),
                n <= i,
            decreases self.enabled@.len() - i,
        {
            proof {
                assert(self.enabled@.subrange(0, i + 1).drop_last() =~= self.enabled@.subrange(
                    0,
                    i as int,
                ));
            }
            if self.enabled[i] == state {
                n = n + 1;
            }
            i = i + 1;
        }
        assert(self.enabled@.subrange(0, i as int) =~= self.enabled@);
        n
    }

    /// The number of disabled mods.
    pub fn len_disabled(&self) -> (r: usize)
        requires
            self.wf(),
        ensures
            r == count_flag(self.enabled_view(), false),
    {
        self.count_state(false)
    }

    /// The number of enabled mods.
    pub fn len_enabled(&self) -> (r: usize)
        requires
            self.wf(),
        ensures
            r == count_flag(self.enabled_view(), true),
    {
        self.count_state(true)
    }

    fn handle_in_state(&self, id: &DefId, state: bool) -> (r: Option<DefHandle<ModInfo>>)
        requires
            self.wf(),
        ensures
            r is Some <==> exists|k: int| self.has_id_at(id@, k) && self.enabled_view()[k] == state,
            r matches Some(h) ==> self.has_id_at(id@, h@ - 1) && self.enabled_view()[h@ - 1]
                == state,
    {
        match find_id(&self.ids, id.as_str()) {
            Some(k) => {
                assert(self.has_id_at(id@, k as int));
                if self.enabled[k] == state {
                    assert(self.has_id_at(id@, k as int) && self.enabled_view()[k as int] == state);
                    Some(DefHandle::from_index(k))
                } else {
                    proof {
                        assert forall|j: int| !(self.has_id_at(id@, j) && self.enabled_view()[j] == state) by {
                            if self.has_id_at(id@, j) {
                                assert(self.ids_view()[j] == self.ids_view()[k as int]);
                            }
                        }
                    }
                    None
                }
            },
            None => {
                proof {
                    assert forall|j: int| !self.has_id_at(id@, j) by {
                        if self.has_id_at(id@, j) {
                            assert(self.ids_view()[j] == id@);
                        }
                    }
                }
                None
            },
        }
    }

    /// The handle of the disabled mod registered under `id`.
    pub fn get_handle_disabled(&self, id: &DefId) -> (r: Option<DefHandle<ModInfo>>)
        requires
            self.wf(),
        ensures
            r is Some <==> exists|k: int| self.has_id_at(id@, k) && !self.enabled_view()[k],
            r matches Some(h) ==> self.has_id_at(id@, h@ - 1) && !self.enabled_view()[h@ - 1],
    {
        self.handle_in_state(id, false)
    }

    /// The handle of the enabled mod registered under `id`.
    pub fn get_handle_enabled(&self, id: &DefId) -> (r: Option<DefHandle<ModInfo>>)
        requires
            self.wf(),
        ensures
            r is Some <==> exists|k: int| self.has_id_at(id@, k) && self.enabled_view()[k],
            r matches Some(h) ==> self.has_id_at(id@, h@ - 1) && self.enabled_view()[h@ - 1],
    {
        self.handle_in_state(id, true)
    }

    /// The handle of the mod registered under `id`, enabled or not.
    pub fn lookup(&self, id: &DefId) -> (r: Option<DefHandle<ModInfo>>)
        requires
            self.wf(),
        ensures
            r is Some <==> self.ids_view().contains(id@),
            r matches Some(h) ==> self.has_id_at(id@, h@ - 1),
    {
        match find_id(&self.ids, id.as_str()) {
            Some(k) => Some(DefHandle::from_index(k)),
            None => None,
        }
    }

    /// The id under which the mod with the given handle was registered.
    pub fn get_id(&self, handle: DefHandle<ModInfo>) -> (r: Option<&DefId>)
        requires
            self.wf(),
        ensures
            handle@ - 1 < self.size() ==> r is Some && r->0@ == self.ids_view()[handle@ - 1],
            handle@ - 1 >= self.size() ==> r is None,
    {
        let i = handle.to_index();
        if i < self.ids.len() {
            Some(&self.ids[i])
        } else {
            None
        }
    }

    /// The mod with the given handle.
    pub fn get(&self, handle: DefHandle<ModInfo>) -> (r: Option<&ModInfo>)
        requires
            self.wf(),
        ensures
            handle@ - 1 < self.size() ==> r is Some && *r->0 == self.mods()[handle@ - 1],
            handle@ - 1 >= self.size() ==> r is None,
    {
        let i = handle.to_index();
        if i < self.mods.len() {
            Some(&self.mods[i])
        } else {
            None
        }
    }

    /// The mod with the given handle, to change in place; nothing else in the
    /// registry changes.
    pub fn get_mut(&mut self, handle: DefHandle<ModInfo>) -> (r: Option<&mut ModInfo>)
        requires
            old(self).wf(),
        ensures
            final(self).wf(),
            final(self).ids_view() == old(self).ids_view(),
            final(self).enabled_view() == old(self).enabled_view(),
            final(self).order() == old(self).order(),
            handle@ - 1 < old(self).size() ==> (r matches Some(m) && *m == old(self).mods()[handle@
                - 1] && final(self).mods() == old(self).mods().update(handle@ - 1, *final(m))),
            handle@ - 1 >= old(self).size() ==> r is None && final(self).mods() == old(
                self,
            ).mods(),
    {
        let i = handle.to_index();
        if i < self.mods.len() {
            Some(&mut self.mods[i])
        } else {
            None
        }
    }

    /// Whether the mod with the given handle is enabled; `false` for a handle
    /// past the end.
    pub fn is_enabled(&self, handle: DefHandle<ModInfo>) -> (r: bool)
        requires
            self.wf(),
        ensures
            r == (handle@ - 1 < self.size() && self.enabled_view()[handle@ - 1]),
    {
        let i = handle.to_index();
        i < self.enabled.len() && self.enabled[i]
    }

    /// The mod registered under `id`, enabled or not.
    pub fn get_by_id(&self, id: &DefId) -> (r: Option<&ModInfo>)
        requires
            self.wf(),
        ensures
            r is Some <==> self.ids_view().contains(id@),
            r matches Some(m) ==> exists|k: int| self.has_id_at(id@, k) && *m == self.mods()[k],
    {
        match self.lookup(id) {
            Some(h) => self.get(h),
            None => None,
        }
    }

    /// The disabled mod registered under `id`.
    pub fn get_disabled_by_id(&self, id: &DefId) -> (r: Option<&ModInfo>)
        requires
            self.wf(),
        ensures
            r is Some <==> exists|k: int| self.has_id_at(id@, k) && !self.enabled_view()[k],
            r matches Some(m) ==> exists|k: int|
                self.has_id_at(id@, k) && !self.enabled_view()[k] && *m == self.mods()[k],
    {
        match self.get_handle_disabled(id) {
            Some(h) => self.get(h),
            None => None,
        }
    }

    /// The disabled mod registered under `id`, to change in place; nothing
    /// else in the registry changes.
    pub fn get_disabled_by_id_mut(&mut self, id: &DefId) -> (r: Option<&mut ModInfo>)
        requires
            old(self).wf(),
        ensures
            final(self).wf(),
            final(self).ids_view() == old(self).ids_view(),
            final(self).enabled_view() == old(self).enabled_view(),
            final(self).order() == old(self).order(),
            r is Some <==> exists|k: int| old(self).has_id_at(id@, k) && !old(self).enabled_view()[k],
            r is None ==> final(self).mods() == old(self).mods(),
            r matches Some(m) ==> exists|k: int|
                old(self).has_id_at(id@, k) && !old(self).enabled_view()[k] && *m == old(
                    self,
                ).mods()[k] && final(self).mods() == old(self).mods().update(k, *final(m)),
    {
        match self.get_handle_disabled(id) {
            Some(h) => self.get_mut(h),
            None => None,
        }
    }

    /// The enabled mod registered under `id`, to change in place; nothing
    /// else in the registry changes.
    pub fn get_enabled_by_id_mut(&mut self, id: &DefId) -> (r: Option<&mut ModInfo>)
        requires
            old(self).wf(),
        ensures
            final(self).wf(),
            final(self).ids_view() == old(self).ids_view(),
            final(self).enabled_view() == old(self).enabled_view(),
            final(self).order() == old(self).order(),
            r is Some <==> exists|k: int| old(self).has_id_at(id@, k) && old(self).enabled_view()[k],
            r is None ==> final(self).mods() == old(self).mods(),
            r matches Some(m) ==> exists|k: int|
                old(self).has_id_at(id@, k) && old(self).enabled_view()[k] && *m == old(
                    self,
                ).mods()[k] && final(self).mods() == old(self).mods().update(k, *final(m)),
    {
        match self.get_handle_enabled(id) {
            Some(h) => self.get_mut(h),
            None => None,
        }
    }

    /// The enabled mod registered under `id`.
    pub fn get_enabled_by_id(&self, id: &DefId) -> (r: Option<&ModInfo>)
        requires
            self.wf(),
        ensures
            r is Some <==> exists|k: int| self.has_id_at(id@, k) && self.enabled_view()[k],
            r matches Some(m) ==> exists|k: int|
                self.has_id_at(id@, k) && self.enabled_view()[k] && *m == self.mods()[k],
    {
        match self.get_handle_enabled(id) {
            Some(h) => self.get(h),
            None => None,
        }
    }

    pub fn contains(&self, handle: DefHandle<ModInfo>) -> (r: bool)
        requires
            self.wf(),
        ensures
            r == (handle@ - 1 < self.size()),
    {
        self.mods.len() > handle.to_index()
    }

    pub fn disabled_contains_id(&self, id: &DefId) -> (r: bool)
        requires
            self.wf(),
        ensures
            r == exists|k: int| self.has_id_at(id@, k) && !self.enabled_view()[k],
    {
        self.get_handle_disabled(id).is_some()
    }

    pub fn enabled_contains_id(&self, id: &DefId) -> (r: bool)
        requires
            self.wf(),
        ensures
            r == exists|k: int| self.has_id_at(id@, k) && self.enabled_view()[k],
    {
        self.get_handle_enabled(id).is_some()
    }
}

impl ModRegistry {
    /// The positions of the mods in the given state (all mods for `None`),
    /// in handle order.
    fn select(&self, want: Option<bool>) -> (r: Vec<usize>)
        requires
            self.wf(),
        ensures
            r@.len() == positions(self.enabled_view(), want).len(),
            forall|k: int|
                0 <= k < r@.len() ==> #[trigger] r@[k] as int == positions(self.enabled_view(), want)[k]
                    && r@[k] < self.size(),
    {
        let mut r: Vec<usize> = Vec::new();
        let mut i: usize = 0;
        while i < self.enabled.len()
            invariant
                self.wf(),
                i <= self.enabled@.len(),
                r@.len() == positions(self.enabled@.take(i as int), want).len(),
                forall|k: int|
                    0 <= k < r@.len() ==> #[trigger] r@[k] as int == positions(
                        self.enabled@.take(i as int),
                        want,
                    )[k] && r@[k] < i,
            decreases self.enabled@.len() - i,
        {
            proof {
                assert(self.enabled@.take(i + 1).drop_last() =~= self.enabled@.take(i as int));
            }
            let keep = match want {
                None => true,
                Some(state) => self.enabled[i] == state,
            };
            if keep {
                r.push(i);
            }
            i = i + 1;
        }
        proof {
            assert(self.enabled@.take(i as int) =~= self.enabled@);
        }
        r
    }

    fn mods_in(&self, want: Option<bool>) -> (r: Vec<&ModInfo>)
        requires
            self.wf(),
        ensures
            r@.len() == positions(self.enabled_view(), want).len(),
            forall|k: int|
                0 <= k < r@.len() ==> *(#[trigger] r@[k]) == self.mods()[positions(
                    self.enabled_view(),
                    want,
                )[k]],
    {
        let sel = self.select(want);
        let mut r: Vec<&ModInfo> = Vec::new();
        let mut k: usize = 0;
        while k < sel.len()
            invariant
                self.wf(),
                k <= sel@.len(),
                sel@.len() == positions(self.enabled_view(), want).len(),
                forall|j: int|
                    0 <= j < sel@.len() ==> #[trigger] sel@[j] as int == positions(
                        self.enabled_view(),
                        want,
                    )[j] && sel@[j] < self.size(),
                r@.len() == k,
                forall|j: int|
                    0 <= j < k ==> *(#[trigger] r@[j]) == self.mods()[positions(
                        self.enabled_view(),
                        want,
                    )[j]],
            decreases sel@.len() - k,
        {
            r.push(&self.mods[sel[k]]);
            k = k + 1;
        }
        r
    }

    fn ids_and_mods_in(&self, want: Option<bool>) -> (r: Vec<(&DefId, &ModInfo)>)
        requires
            self.wf(),
        ensures
            r@.len() == positions(self.enabled_view(), want).len(),
            forall|k: int|
                0 <= k < r@.len() ==> {
                    let p = positions(self.enabled_view(), want)[k];
                    &&& (#[trigger] r@[k]).0@ == self.ids_view()[p]
                    &&& *r@[k].1 == self.mods()[p]
                },
    {
        let sel = self.select(want);
        let mut r: Vec<(&DefId, &ModInfo)> = Vec::new();
        let mut k: usize = 0;
        while k < sel.len()
            invariant
                self.wf(),
                k <= sel@.len(),
                sel@.len() == positions(self.enabled_view(), want).len(),
                forall|j: int|
                    0 <= j < sel@.len() ==> #[trigger] sel@[j] as int == positions(
                        self.enabled_view(),
                        want,
                    )[j] && sel@[j] < self.size(),
                r@.len() == k,
                forall|j: int|
                    0 <= j < k ==> {
                        let p = positions(self.enabled_view(), want)[j];
                        &&& (#[trigger] r@[j]).0@ == self.ids_view()[p]
                        &&& *r@[j].1 == self.mods()[p]
                    },
            decreases sel@.len() - k,
        {
            let i = sel[k];
            r.push((&self.ids[i], &self.mods[i]));
            k = k + 1;
        }
        r
    }

    fn handles_and_mods_in(&self, want: Option<bool>) -> (r: Vec<(DefHandle<ModInfo>, &ModInfo)>)
        requires
            self.wf(),
        ensures
            r@.len() == positions(self.enabled_view(), want).len(),
            forall|k: int|
                0 <= k < r@.len() ==> {
                    let p = positions(self.enabled_view(), want)[k];
                    &&& (#[trigger] r@[k]).0@ == p + 1
                    &&& *r@[k].1 == self.mods()[p]
                },
    {
        let sel = self.select(want);
        let mut r: Vec<(DefHandle<ModInfo>, &ModInfo)> = Vec::new();
        let mut k: usize = 0;
        while k < sel.len()
            invariant
                self.wf(),
                k <= sel@.len(),
                sel@.len() == positions(self.enabled_view(), want).len(),
                forall|j: int|
                    0 <= j < sel@.len() ==> #[trigger] sel@[j] as int == positions(
                        self.enabled_view(),
                        want,
                    )[j] && sel@[j] < self.size(),
                r@.len() == k,
                forall|j: int|
                    0 <= j < k ==> {
                        let p = positions(self.enabled_view(), want)[j];
                        &&& (#[trigger] r@[j]).0@ == p + 1
                        &&& *r@[j].1 == self.mods()[p]
                    },
            decreases sel@.len() - k,
        {
            let i = sel[k];
            r.push((DefHandle::from_index(i), &self.mods[i]));
            k = k + 1;
        }
        r
    }

    fn entries_in(&self, want: Option<bool>) -> (r: Vec<(DefHandle<ModInfo>, &DefId, &ModInfo)>)
        requires
            self.wf(),
        ensures
            r@.len() == positions(self.enabled_view(), want).len(),
            forall|k: int|
                0 <= k < r@.len() ==> {
                    let p = positions(self.enabled_view(), want)[k];
                    &&& (#[trigger] r@[k]).0@ == p + 1
                    &&& r@[k].1@ == self.ids_view()[p]
                    &&& *r@[k].2 == self.mods()[p]
                },
    {
        let sel = self.select(want);
        let mut r: Vec<(DefHandle<ModInfo>, &DefId, &ModInfo)> = Vec::new();
        let mut k: usize = 0;
        while k < sel.len()
            invariant
                self.wf(),
                k <= sel@.len(),
                sel@.len() == positions(self.enabled_view(), want).len(),
                forall|j: int|
                    0 <= j < sel@.len() ==> #[trigger] sel@[j] as int == positions(
                        self.enabled_view(),
                        want,
                    )[j] && sel@[j] < self.size(),
                r@.len() == k,
                forall|j: int|
                    0 <= j < k ==> {
                        let p = positions(self.enabled_view(), want)[j];
                        &&& (#[trigger] r@[j]).0@ == p + 1
                        &&& r@[j].1@ == self.ids_view()[p]
                        &&& *r@[j].2 == self.mods()[p]
                    },
            decreases sel@.len() - k,
        {
            let i = sel[k];
            r.push((DefHandle::from_index(i), &self.ids[i], &self.mods[i]));
            k = k + 1;
        }
        r
    }

    /// The mods, in handle order.
    pub fn iter(&self) -> (r: Vec<&ModInfo>)
        requires
            self.wf(),
        ensures
            r@.len() == positions(self.enabled_view(), None::<bool>).len(),
            forall|k: int|
                0 <= k < r@.len() ==> *(#[trigger] r@[k]) == self.mods()[positions(
                    self.enabled_view(),
                    None::<bool>,
                )[k]],
    {
        self.mods_in(None::<bool>)
    }

    /// The mods that are disabled, in handle order.
    pub fn iter_disabled(&self) -> (r: Vec<&ModInfo>)
        requires
            self.wf(),
        ensures
            r@.len() == positions(self.enabled_view(), Some(false)).len(),
            forall|k: int|
                0 <= k < r@.len() ==> *(#[trigger] r@[k]) == self.mods()[positions(
                    self.enabled_view(),
                    Some(false),
                )[k]],
    {
        self.mods_in(Some(false))
    }

    /// The mods that are enabled, in handle order.
    pub fn iter_enabled(&self) -> (r: Vec<&ModInfo>)
        requires
            self.wf(),
        ensures
            r@.len() == positions(self.enabled_view(), Some(true)).len(),
            forall|k: int|
                0 <= k < r@.len() ==> *(#[trigger] r@[k]) == self.mods()[positions(
                    self.enabled_view(),
                    Some(true),
                )[k]],
    {
        self.mods_in(Some(true))
    }

    /// The mods with their ids, in handle order.
    pub fn iter_with_id(&self) -> (r: Vec<(&DefId, &ModInfo)>)
        requires
            self.wf(),
        ensures
            r@.len() == positions(self.enabled_view(), None::<bool>).len(),
            forall|k: int|
                0 <= k < r@.len() ==> {
                    let p = positions(self.enabled_view(), None::<bool>)[k];
                    &&& (#[trigger] r@[k]).0@ == self.ids_view()[p]
                    &&& *r@[k].1 == self.mods()[p]
                },
    {
        self.ids_and_mods_in(None::<bool>)
    }

    /// The mods with their ids that are disabled, in handle order.
    pub fn iter_disabled_with_id(&self) -> (r: Vec<(&DefId, &ModInfo)>)
        requires
            self.wf(),
        ensures
            r@.len() == positions(self.enabled_view(), Some(false)).len(),
            forall|k: int|
                0 <= k < r@.len() ==> {
                    let p = positions(self.enabled_view(), Some(false))[k];
                    &&& (#[trigger] r@[k]).0@ == self.ids_view()[p]
                    &&& *r@[k].1 == self.mods()[p]
                },
    {
        self.ids_and_mods_in(Some(false))
    }

    /// The mods with their ids that are enabled, in handle order.
    pub fn iter_enabled_with_id(&self) -> (r: Vec<(&DefId, &ModInfo)>)
        requires
            self.wf(),
        ensures
            r@.len() == positions(self.enabled_view(), Some(true)).len(),
            forall|k: int|
                0 <= k < r@.len() ==> {
                    let p = positions(self.enabled_view(), Some(true))[k];
                    &&& (#[trigger] r@[k]).0@ == self.ids_view()[p]
                    &&& *r@[k].1 == self.mods()[p]
                },
    {
        self.ids_and_mods_in(Some(true))
    }

    /// The mods with their handles, in handle order.
    pub fn iter_with_handle(&self) -> (r: Vec<(DefHandle<ModInfo>, &ModInfo)>)
        requires
            self.wf(),
        ensures
            r@.len() == positions(self.enabled_view(), None::<bool>).len(),
            forall|k: int|
                0 <= k < r@.len() ==> {
                    let p = positions(self.enabled_view(), None::<bool>)[k];
                    &&& (#[trigger] r@[k]).0@ == p + 1
                    &&& *r@[k].1 == self.mods()[p]
                },
    {
        self.handles_and_mods_in(None::<bool>)
    }

    /// The mods with their handles that are disabled, in handle order.
    pub fn iter_disabled_with_handle(&self) -> (r: Vec<(DefHandle<ModInfo>, &ModInfo)>)
        requires
            self.wf(),
        ensures
            r@.len() == positions(self.enabled_view(), Some(false)).len(),
            forall|k: int|
                0 <= k < r@.len() ==> {
                    let p = positions(self.enabled_view(), Some(false))[k];
                    &&& (#[trigger] r@[k]).0@ == p + 1
                    &&& *r@[k].1 == self.mods()[p]
                },
    {
        self.handles_and_mods_in(Some(false))
    }

    /// The mods with their handles that are enabled, in handle order.
    pub fn iter_enabled_with_handle(&self) -> (r: Vec<(DefHandle<ModInfo>, &ModInfo)>)
        requires
            self.wf(),
        ensures
            r@.len() == positions(self.enabled_view(), Some(true)).len(),
            forall|k: int|
                0 <= k < r@.len() ==> {
                    let p = positions(self.enabled_view(), Some(true))[k];
                    &&& (#[trigger] r@[k]).0@ == p + 1
                    &&& *r@[k].1 == self.mods()[p]
                },
    {
        self.handles_and_mods_in(Some(true))
    }

    /// The mods with their handles and ids, in handle order.
    pub fn iter_with_id_handle(&self) -> (r: Vec<(DefHandle<ModInfo>, &DefId, &ModInfo)>)
        requires
            self.wf(),
        ensures
            r@.len() == positions(self.enabled_view(), None::<bool>).len(),
            forall|k: int|
                0 <= k < r@.len() ==> {
                    let p = positions(self.enabled_view(), None::<bool>)[k];
                    &&& (#[trigger] r@[k]).0@ == p + 1
                    &&& r@[k].1@ == self.ids_view()[p]
                    &&& *r@[k].2 == self.mods()[p]
                },
    {
        self.entries_in(None::<bool>)
    }

    /// The mods with their handles and ids that are disabled, in handle order.
    pub fn iter_disabled_with_id_handle(&self) -> (r: Vec<(DefHandle<ModInfo>, &DefId, &ModInfo)>)
        requires
            self.wf(),
        ensures
            r@.len() == positions(self.enabled_view(), Some(false)).len(),
            forall|k: int|
                0 <= k < r@.len() ==> {
                    let p = positions(self.enabled_view(), Some(false))[k];
                    &&& (#[trigger] r@[k]).0@ == p + 1
                    &&& r@[k].1@ == self.ids_view()[p]
                    &&& *r@[k].2 == self.mods()[p]
                },
    {
        self.entries_in(Some(false))
    }

    /// The mods with their handles and ids that are enabled, in handle order.
    pub fn iter_enabled_with_id_handle(&self) -> (r: Vec<(DefHandle<ModInfo>, &DefId, &ModInfo)>)
        requires
            self.wf(),
        ensures
            r@.len() == positions(self.enabled_view(), Some(true)).len(),
            forall|k: int|
                0 <= k < r@.len() ==> {
                    let p = positions(self.enabled_view(), Some(true))[k];
                    &&& (#[trigger] r@[k]).0@ == p + 1
                    &&& r@[k].1@ == self.ids_view()[p]
                    &&& *r@[k].2 == self.mods()[p]
                },
    {
        self.entries_in(Some(true))
    }
}

/// What a lookup gives back of a registration: once `register(id, mod_info)`
/// has returned the handle `registered`, the handle that `lookup(id)` finds
/// is that same handle, and `get` of it gives `mod_info`.
pub proof fn law_lookup_after_register(
    reg: ModRegistry,
    id: Seq<char>,
    mod_info: ModInfo,
    registered: int,
    found: int,
)
    requires
        reg.wf(),
        0 < registered <= reg.size(),
        reg.ids_view()[registered - 1] == id,
        reg.mods()[registered - 1] == mod_info,
        reg.has_id_at(id, found - 1),
    ensures
        found == registered,
        reg.mods()[found - 1] == mod_info,
{
}

impl Default for ModRegistry {
    fn default() -> (r: ModRegistry)
        ensures
            r.wf(),
            r.size() == 0,
            r.mods().len() == 0,
            r.enabled_view().len() == 0,
            r.order().len() == 0,
    {
        ModRegistry::new()
    }
}

/// A dependency list written as `id requirement` pairs separated by commas.
pub open spec fn dependency_text(entries: Seq<(DefId, String)>) -> Seq<char> {
    joined(entries.map_values(|e: (DefId, String)| e.0@ + seq![' '] + e.1@), seq![',', ' '])
}

/// How a mod is described: name, version and author, its dependency lists
/// when they are not empty, and its path under the mods directory.
pub open spec fn mod_text(m: ModInfo, relative_path: Seq<char>) -> Seq<char> {
    let meta = m.meta();
    let head = meta.name@ + seq![' '] + meta.version@ + seq![' ', 'b', 'y', ' '] + meta.author@;
    let deps = if meta.dependencies@.len() != 0 {
        "; dependencies: "@ + dependency_text(meta.dependencies@)
    } else {
        Seq::empty()
    };
    let optional = if meta.optional_dependencies@.len() != 0 {
        "; optional dependencies: "@ + dependency_text(meta.optional_dependencies@)
    } else {
        Seq::empty()
    };
    head + deps + optional + "; path: mods/"@ + relative_path + seq![';']
}

fn push_dependencies(s: &mut String, entries: &Vec<(DefId, String)>)
    ensures
        final(s)@ == old(s)@ + dependency_text(entries@),
{
    let ghost start = s@;
    let ghost parts = entries@.map_values(|e: (DefId, String)| e.0@ + seq![' '] + e.1@);
    let mut k: usize = 0;
    while k < entries.len()
        invariant
            k <= entries@.len(),
            start == old(s)@,
            parts == entries@.map_values(|e: (DefId, String)| e.0@ + seq![' '] + e.1@),
            s@ == start + joined(parts.take(k as int), seq![',', ' ']),
        decreases entries@.len() - k,
    {
        proof {
            assert(parts.take(k + 1).drop_last() =~= parts.take(k as int));
            reveal_strlit(", ");
            reveal_strlit(" ");
        }
        if k > 0 {
            s.append(", ");
        }
        s.append(entries[k].0.as_str());
        s.append(" ");
        s.append(entries[k].1.as_str());
        proof {
            if k == 0 {
                assert(parts.take(1) =~= seq![parts[0]]);
            }
        }
        k = k + 1;
    }
    proof {
        assert(parts.take(k as int) =~= parts);
    }
}

impl ModInfo {
    /// The mod described as `name version by author`, then its dependency
    /// lists when they are not empty, then its path, given relative to the
    /// mods directory.
    pub fn describe(&self, relative_path: &str) -> (r: String)
        ensures
            r@ == mod_text(*self, relative_path@),
    {
        let mut s = String::from_str(self.name());
        s.append(" ");
        s.append(self.version());
        s.append(" by ");
        s.append(self.author());
        proof {
            reveal_strlit(" ");
            reveal_strlit(" by ");
        }
        if self.dependencies().len() != 0 {
            s.append("; dependencies: ");
            push_dependencies(&mut s, self.dependencies());
        }
        if self.optional_dependencies().len() != 0 {
            s.append("; optional dependencies: ");
            push_dependencies(&mut s, self.optional_dependencies());
        }
        s.append("; path: mods/");
        s.append(relative_path);
        s.append(";");
        proof {
            reveal_strlit(";");
        }
        s
    }
}

} // verus!
