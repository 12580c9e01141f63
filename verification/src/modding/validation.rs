//! Validation of mod dependencies: version requirements, circular
//! dependencies, and the load order.

use vstd::prelude::*;

use crate::modding::load_order::{
    lemma_count_le,
    dependency_counts_fit, handle_positions, is_load_order, topological_sort,
};
use crate::modding::registry::{ModInfo, ModLoadState, ModRegistry, count_flag};
use crate::modding::types::{DefHandle, DefId, ids_distinct};
use crate::modding::version::{
    check_requirement, requirement_matches, requirement_parses, version_parses,
};

verus! {

// ---------------------------------------------------------------------------
// The dependency graph of the enabled mods
// ---------------------------------------------------------------------------

/// A mod's dependencies, required ones first, then optional ones.
pub open spec fn dep_entries(m: ModInfo) -> Seq<(DefId, String)> {
    m.meta().dependencies@ + m.meta().optional_dependencies@
}

/// The mod at position `a` depends on the mod at position `b`: both are
/// enabled, and a dependency of `a`, required or optional, names the id of `b`.
pub open spec fn depends(reg: ModRegistry, a: int, b: int) -> bool {
    &&& 0 <= a < reg.size()
    &&& 0 <= b < reg.size()
    &&& reg.enabled_view()[a]
    &&& reg.enabled_view()[b]
    &&& exists|k: int|
        0 <= k < dep_entries(reg.mods()[a]).len() && (#[trigger] dep_entries(reg.mods()[a])[k]).0@
            == reg.ids_view()[b]
}

/// `c` is a cycle of the dependency graph: each mod depends on the next, and
/// the last on the first.
pub open spec fn is_cycle(reg: ModRegistry, c: Seq<int>) -> bool {
    &&& c.len() > 0
    &&& forall|k: int| #![trigger c[k]] 0 <= k < c.len() - 1 ==> depends(reg, c[k], c[k + 1])
    &&& depends(reg, c[c.len() - 1], c[0])
}

/// No enabled mod depends on itself, directly or through others.
pub open spec fn acyclic(reg: ModRegistry) -> bool {
    forall|c: Seq<int>| !is_cycle(reg, c)
}

/// Every required dependency of an enabled mod names a registered mod.
pub open spec fn required_deps_registered(reg: ModRegistry) -> bool {
    forall|a: int, k: int|
        0 <= a < reg.size() && reg.enabled_view()[a] && 0 <= k
            < reg.mods()[a].meta().dependencies@.len() ==> reg.ids_view().contains(
            (#[trigger] reg.mods()[a].meta().dependencies@[k]).0@,
        )
}

/// The ids of the mods at the positions in `c`.
pub open spec fn ids_at(reg: ModRegistry, c: Seq<int>) -> Seq<Seq<char>> {
    c.map_values(|i: int| reg.ids_view()[i])
}

// ---------------------------------------------------------------------------
// Errors
// ---------------------------------------------------------------------------

/// Error that can occur during mod validation.
#[derive(Debug)]
pub enum ModValidationError {
    /// A version constraint is not satisfied.
    VersionMismatch {
        mod_id: DefId,
        dependency_id: DefId,
        required: String,
        found: Option<String>,
    },
    /// Circular dependency detected.
    CircularDependency { cycle: Vec<DefId> },
}

/// What an error says, as plain values.
pub enum ErrorView {
    VersionMismatch {
        mod_id: Seq<char>,
        dependency_id: Seq<char>,
        required: Seq<char>,
        found: Option<Seq<char>>,
    },
    CircularDependency { cycle: Seq<Seq<char>> },
}

impl View for ModValidationError {
    type V = ErrorView;

    open spec fn view(&self) -> ErrorView {
        match self {
            ModValidationError::VersionMismatch { mod_id, dependency_id, required, found } => {
                ErrorView::VersionMismatch {
                    mod_id: mod_id@,
                    dependency_id: dependency_id@,
                    required: required@,
                    found: match found {
                        Some(f) => Some(f@),
                        None => None,
                    },
                }
            },
            ModValidationError::CircularDependency { cycle } => ErrorView::CircularDependency {
                cycle: cycle@.map_values(|d: DefId| d@),
            },
        }
    }
}

/// The ids of the mods that an error involves: the mod whose dependency
/// failed, or the mods of the cycle.
pub open spec fn error_mods(e: ErrorView) -> Seq<Seq<char>> {
    match e {
        ErrorView::VersionMismatch { mod_id, .. } => seq![mod_id],
        ErrorView::CircularDependency { cycle } => cycle,
    }
}

/// The ids of the mods that the errors `es` involve, error by error.
pub open spec fn errors_mods(es: Seq<ErrorView>) -> Seq<Seq<char>>
    decreases es.len(),
{
    if es.len() == 0 {
        Seq::empty()
    } else {
        errors_mods(es.drop_last()) + error_mods(es.last())
    }
}

/// `parts` with `sep` between each two.
pub open spec fn joined(parts: Seq<Seq<char>>, sep: Seq<char>) -> Seq<char>
    decreases parts.len(),
{
    if parts.len() == 0 {
        Seq::empty()
    } else if parts.len() == 1 {
        parts[0]
    } else {
        joined(parts.drop_last(), sep) + sep + parts.last()
    }
}

/// The message of an error.
pub open spec fn error_message(e: ErrorView) -> Seq<char> {
    match e {
        ErrorView::VersionMismatch { mod_id, dependency_id, required, found } => {
            let head = "Mod '"@ + mod_id + "' requires '"@ + dependency_id + "' version '"@
                + required;
            match found {
                None => head + "', but it is not present"@,
                Some(f) => head + "', but found version '"@ + f + "'"@,
            }
        },
        ErrorView::CircularDependency { cycle } => "Circular dependency detected: "@ + joined(
            cycle,
            " -> "@,
        ),
    }
}

impl ModValidationError {
    /// The ids of the mods involved in the error.
    pub fn mods(&self) -> (r: Vec<&DefId>)
        ensures
            r@.map_values(|d: &DefId| d@) == error_mods(self@),
    {
        match self {
            ModValidationError::VersionMismatch { mod_id, .. } => {
                let mut r: Vec<&DefId> = Vec::new();
                r.push(mod_id);
                proof {
                    assert(r@.map_values(|d: &DefId| d@) =~= seq![mod_id@]);
                }
                r
            },
            ModValidationError::CircularDependency { cycle } => {
                let mut r: Vec<&DefId> = Vec::new();
                let mut k: usize = 0;
                while k < cycle.len()
                    invariant
                        k <= cycle@.len(),
                        r@.len() == k,
                        forall|j: int| 0 <= j < k ==> #[trigger] r@[j]@ == cycle@[j]@,
                    decreases cycle@.len() - k,
                {
                    r.push(&cycle[k]);
                    k = k + 1;
                }
                proof {
                    assert(r@.map_values(|d: &DefId| d@) =~= cycle@.map_values(|d: DefId| d@));
                }
                r
            },
        }
    }

    /// The message of the error.
    pub fn to_string(&self) -> (r: String)
        ensures
            r@ == error_message(self@),
    {
        match self {
            ModValidationError::VersionMismatch { mod_id, dependency_id, required, found } => {
                let mut s = String::from_str("Mod '");
                s.append(mod_id.as_str());
                s.append("' requires '");
                s.append(dependency_id.as_str());
                s.append("' version '");
                s.append(required.as_str());
                match found {
                    None => {
                        s.append("', but it is not present");
                    },
                    Some(f) => {
                        s.append("', but found version '");
                        s.append(f.as_str());
                        s.append("'");
                    },
                }
                s
            },
            ModValidationError::CircularDependency { cycle } => {
                let mut s = String::from_str("Circular dependency detected: ");
                let ghost prefix = s@;
                let ghost parts = cycle@.map_values(|d: DefId| d@);
                let mut k: usize = 0;
                while k < cycle.len()
                    invariant
                        k <= cycle@.len(),
                        parts == cycle@.map_values(|d: DefId| d@),
                        s@ == prefix + joined(parts.take(k as int), " -> "@),
                    decreases cycle@.len() - k,
                {
                    proof {
                        assert(parts.take(k + 1).drop_last() =~= parts.take(k as int));
                    }
                    if k > 0 {
                        s.append(" -> ");
                    }
                    s.append(cycle[k].as_str());
                    proof {
                        if k == 0 {
                            assert(parts.take(1) =~= seq![parts[0]]);
                        }
                    }
                    k = k + 1;
                }
                proof {
                    assert(parts.take(k as int) =~= parts);
                }
                s
            },
        }
    }
}

/// `e` reports a cycle of the dependency graph.
pub open spec fn reports_cycle(reg: ModRegistry, e: ModValidationError) -> bool {
    match e {
        ModValidationError::CircularDependency { cycle } => exists|c: Seq<int>|
            #[trigger] is_cycle(reg, c) && cycle@.map_values(|d: DefId| d@) == ids_at(reg, c),
        _ => false,
    }
}

pub open spec fn is_circular(e: ModValidationError) -> bool {
    e is CircularDependency
}

// ---------------------------------------------------------------------------
// Dependency versions
// ---------------------------------------------------------------------------

/// The mismatch of the mod `mod_id` with its dependency entry `e`.
pub open spec fn mismatch(
    mod_id: Seq<char>,
    e: (DefId, String),
    found: Option<Seq<char>>,
) -> ErrorView {
    ErrorView::VersionMismatch { mod_id, dependency_id: e.0@, required: e.1@, found }
}

/// The error that a dependency entry gives, from the version of the enabled
/// mod it names (`None` when no enabled mod has its id) and whether the
/// requirement matches that version (`None` when either does not parse).
pub open spec fn entry_outcome(
    mod_id: Seq<char>,
    e: (DefId, String),
    required: bool,
    dependency_version: Option<Seq<char>>,
    matched: Option<bool>,
) -> Option<ErrorView> {
    match dependency_version {
        None => if required {
            Some(mismatch(mod_id, e, None))
        } else {
            None
        },
        Some(version) => if matched == Some(false) {
            Some(mismatch(mod_id, e, Some(version)))
        } else {
            None
        },
    }
}

/// The version of the enabled mod registered under `id`, if there is one.
pub open spec fn enabled_version(reg: ModRegistry, id: Seq<char>) -> Option<Seq<char>> {
    if exists|k: int| reg.has_id_at(id, k) && reg.enabled_view()[k] {
        let k = choose|k: int| reg.has_id_at(id, k) && reg.enabled_view()[k];
        Some(reg.mods()[k].meta().version@)
    } else {
        None
    }
}

/// In a well-formed registry, the version found for an id is that of the
/// mod registered under it when that mod is enabled; there is none when its
/// mod is disabled or no mod has the id.
pub proof fn law_enabled_version(reg: ModRegistry, id: Seq<char>)
    requires
        reg.wf(),
    ensures
        forall|k: int|
            #[trigger] reg.has_id_at(id, k) ==> enabled_version(reg, id) == (if reg.enabled_view()[k] {
                Some(reg.mods()[k].meta().version@)
            } else {
                None
            }),
        (forall|k: int| !#[trigger] reg.has_id_at(id, k)) ==> enabled_version(reg, id) is None,
{
    reg.lemma_wf();
    assert forall|k: int| #[trigger] reg.has_id_at(id, k) implies enabled_version(reg, id) == (
    if reg.enabled_view()[k] {
        Some(reg.mods()[k].meta().version@)
    } else {
        None
    }) by {
        if exists|c: int| reg.has_id_at(id, c) && reg.enabled_view()[c] {
            let c = choose|c: int| reg.has_id_at(id, c) && reg.enabled_view()[c];
            assert(c == k);
        }
    }
}

/// What `semver` says of a requirement and a version: `None` when either does
/// not parse.
pub open spec fn semver_outcome(requirement: Seq<char>, version: Seq<char>) -> Option<bool> {
    if requirement_parses(requirement) && version_parses(version) {
        Some(requirement_matches(requirement, version))
    } else {
        None
    }
}

/// The errors of the dependency entries `entries` of the mod at position `a`.
pub open spec fn entry_errors(
    reg: ModRegistry,
    a: int,
    entries: Seq<(DefId, String)>,
    required: bool,
) -> Seq<ErrorView>
    decreases entries.len(),
{
    if entries.len() == 0 {
        Seq::empty()
    } else {
        let e = entries.last();
        let version = enabled_version(reg, e.0@);
        let matched = match version {
            Some(v) => semver_outcome(e.1@, v),
            None => None,
        };
        let rest = entry_errors(reg, a, entries.drop_last(), required);
        match entry_outcome(reg.ids_view()[a], e, required, version, matched) {
            Some(err) => rest.push(err),
            None => rest,
        }
    }
}

/// The errors of the mod at position `a`: those of its required
/// dependencies, then those of its optional ones.
pub open spec fn mod_errors(reg: ModRegistry, a: int) -> Seq<ErrorView> {
    let meta = reg.mods()[a].meta();
    entry_errors(reg, a, meta.dependencies@, true) + entry_errors(
        reg,
        a,
        meta.optional_dependencies@,
        false,
    )
}

/// The errors of the enabled mods among the first `count`, in handle order.
pub open spec fn dependency_errors_upto(reg: ModRegistry, count: int) -> Seq<ErrorView>
    decreases count,
{
    if count <= 0 {
        Seq::empty()
    } else {
        let rest = dependency_errors_upto(reg, count - 1);
        if reg.enabled_view()[count - 1] {
            rest + mod_errors(reg, count - 1)
        } else {
            rest
        }
    }
}

/// The errors of all enabled mods, in handle order.
pub open spec fn dependency_errors(reg: ModRegistry) -> Seq<ErrorView> {
    dependency_errors_upto(reg, reg.size())
}

/// The dependency entry `e` holds in `reg`: where no enabled mod has its id,
/// it is optional; where one has, its requirement does not fail to match
/// that mod's version.
pub open spec fn entry_holds(reg: ModRegistry, e: (DefId, String), required: bool) -> bool {
    match enabled_version(reg, e.0@) {
        None => !required,
        Some(v) => semver_outcome(e.1@, v) != Some(false),
    }
}

/// Every required and every optional dependency entry of the mod at
/// position `a` holds in `reg`.
pub open spec fn dependencies_hold(reg: ModRegistry, a: int) -> bool {
    let meta = reg.mods()[a].meta();
    &&& forall|i: int|
        0 <= i < meta.dependencies@.len() ==> entry_holds(
            reg,
            #[trigger] meta.dependencies@[i],
            true,
        )
    &&& forall|i: int|
        0 <= i < meta.optional_dependencies@.len() ==> entry_holds(
            reg,
            #[trigger] meta.optional_dependencies@[i],
            false,
        )
}

/// A dependency entry, required or optional, gives an error exactly when
/// it is required and no enabled mod has its id, or when the mod it names
/// is enabled and its requirement does not match that mod's version. An
/// entry whose mod is enabled and matches gives none. The error names the
/// mod, the dependency, the requirement and the version found.
pub proof fn law_entry_outcome(
    mod_id: Seq<char>,
    e: (DefId, String),
    required: bool,
    dependency_version: Option<Seq<char>>,
    matched: Option<bool>,
)
    ensures
        entry_outcome(mod_id, e, required, dependency_version, matched) is Some <==> (
        dependency_version is None && required) || (dependency_version is Some && matched == Some(
            false,
        )),
        dependency_version is Some && matched == Some(true) ==> entry_outcome(
            mod_id,
            e,
            required,
            dependency_version,
            matched,
        ) is None,
        entry_outcome(mod_id, e, required, dependency_version, matched) is Some ==> entry_outcome(
            mod_id,
            e,
            required,
            dependency_version,
            matched,
        ) == Some(
            ErrorView::VersionMismatch {
                mod_id,
                dependency_id: e.0@,
                required: e.1@,
                found: dependency_version,
            },
        ),
{
}

/// The error of a dependency entry of the mod at position `a` that does not
/// hold: it names the mod, the dependency, the requirement and the version
/// of the enabled mod found under the dependency's id, if any.
pub open spec fn failed_entry(reg: ModRegistry, a: int, e: (DefId, String)) -> ErrorView {
    ErrorView::VersionMismatch {
        mod_id: reg.ids_view()[a],
        dependency_id: e.0@,
        required: e.1@,
        found: enabled_version(reg, e.0@),
    }
}

/// The errors of a list of dependency entries are those of the entries
/// that do not hold, one each, in the order of the list: an entry that
/// holds, required or optional, gives none.
pub proof fn law_entry_errors(
    reg: ModRegistry,
    a: int,
    entries: Seq<(DefId, String)>,
    required: bool,
)
    ensures
        entry_errors(reg, a, entries, required) == entries.filter(
            |e: (DefId, String)| !entry_holds(reg, e, required),
        ).map_values(|e: (DefId, String)| failed_entry(reg, a, e)),
    decreases entries.len(),
{
    let pred = |e: (DefId, String)| !entry_holds(reg, e, required);
    let f = |e: (DefId, String)| failed_entry(reg, a, e);
    if entries.len() == 0 {
        reveal(Seq::filter);
        assert(entries.filter(pred) =~= Seq::<(DefId, String)>::empty());
        assert(entries.filter(pred).map_values(f) =~= Seq::<ErrorView>::empty());
    } else {
        let rest = entries.drop_last();
        law_entry_errors(reg, a, rest, required);
        reveal(Seq::filter);
        let fr = rest.filter(pred);
        if pred(entries.last()) {
            assert(entries.filter(pred) == fr.push(entries.last()));
            assert(fr.push(entries.last()).map_values(f) =~= fr.map_values(f).push(
                f(entries.last()),
            ));
        } else {
            assert(entries.filter(pred) == fr);
        }
    }
}

/// The errors of an enabled mod are those of its required dependency
/// entries that do not hold, in the order they are listed, then those of
/// its optional ones.
pub proof fn law_mod_errors(reg: ModRegistry, a: int)
    ensures
        mod_errors(reg, a) == reg.mods()[a].meta().dependencies@.filter(
            |e: (DefId, String)| !entry_holds(reg, e, true),
        ).map_values(|e: (DefId, String)| failed_entry(reg, a, e))
            + reg.mods()[a].meta().optional_dependencies@.filter(
            |e: (DefId, String)| !entry_holds(reg, e, false),
        ).map_values(|e: (DefId, String)| failed_entry(reg, a, e)),
{
    let meta = reg.mods()[a].meta();
    law_entry_errors(reg, a, meta.dependencies@, true);
    law_entry_errors(reg, a, meta.optional_dependencies@, false);
}

proof fn lemma_entry_errors_empty(
    reg: ModRegistry,
    a: int,
    entries: Seq<(DefId, String)>,
    required: bool,
)
    ensures
        entry_errors(reg, a, entries, required).len() == 0 <==> forall|i: int|
            0 <= i < entries.len() ==> entry_holds(reg, #[trigger] entries[i], required),
    decreases entries.len(),
{
    if entries.len() > 0 {
        let rest = entries.drop_last();
        lemma_entry_errors_empty(reg, a, rest, required);
        if forall|i: int| 0 <= i < entries.len() ==> entry_holds(reg, #[trigger] entries[i], required) {
            assert forall|i: int| 0 <= i < rest.len() implies entry_holds(
                reg,
                #[trigger] rest[i],
                required,
            ) by {
                assert(rest[i] == entries[i]);
            }
            assert(entry_holds(reg, entries[entries.len() - 1], required));
        }
        if entry_errors(reg, a, entries, required).len() == 0 {
            assert forall|i: int| 0 <= i < entries.len() implies entry_holds(
                reg,
                #[trigger] entries[i],
                required,
            ) by {
                if i < rest.len() {
                    assert(rest[i] == entries[i]);
                }
            }
        }
    }
}

proof fn lemma_errors_upto_empty(reg: ModRegistry, count: int)
    requires
        0 <= count,
    ensures
        dependency_errors_upto(reg, count).len() == 0 <==> forall|a: int|
            0 <= a < count && #[trigger] reg.enabled_view()[a] ==> dependencies_hold(reg, a),
    decreases count,
{
    if count > 0 {
        lemma_errors_upto_empty(reg, count - 1);
        let meta = reg.mods()[count - 1].meta();
        lemma_entry_errors_empty(reg, count - 1, meta.dependencies@, true);
        lemma_entry_errors_empty(reg, count - 1, meta.optional_dependencies@, false);
    }
}

/// Dependency validation finds no error exactly when every dependency entry
/// of every enabled mod holds: each required one names an enabled mod, and
/// each one, required or optional, whose mod is enabled does not fail to
/// match that mod's version.
pub proof fn law_dependencies_hold(reg: ModRegistry)
    ensures
        dependency_errors(reg).len() == 0 <==> forall|a: int|
            0 <= a < reg.size() && #[trigger] reg.enabled_view()[a] ==> dependencies_hold(reg, a),
{
    lemma_errors_upto_empty(reg, reg.size());
}

/// The error, if any, that the dependency entry (`dependency_id`,
/// `requirement`) of the mod `mod_id` gives. `dependency_version` is the
/// version of the enabled mod registered under `dependency_id`, `None` when
/// there is none; `matched` is whether the requirement matches it, `None`
/// when either does not parse. A missing required dependency is an error
/// without a version found; a missing optional one is none; a requirement
/// that does not match is an error with the version found.
pub fn dependency_error(
    mod_id: &DefId,
    dependency_id: &DefId,
    requirement: &String,
    required: bool,
    dependency_version: Option<&str>,
    matched: Option<bool>,
) -> (r: Option<ModValidationError>)
    ensures
        r matches Some(e) ==> entry_outcome(
            mod_id@,
            (*dependency_id, *requirement),
            required,
            match dependency_version {
                Some(v) => Some(v@),
                None => None,
            },
            matched,
        ) == Some(e@),
        r is None ==> entry_outcome(
            mod_id@,
            (*dependency_id, *requirement),
            required,
            match dependency_version {
                Some(v) => Some(v@),
                None => None,
            },
            matched,
        ) is None,
        r is Some <==> (dependency_version is None && required) || (dependency_version is Some
            && matched == Some(false)),
{
    match dependency_version {
        None => {
            if required {
                Some(
                    ModValidationError::VersionMismatch {
                        mod_id: mod_id.clone(),
                        dependency_id: dependency_id.clone(),
                        required: requirement.clone(),
                        found: None,
                    },
                )
            } else {
                None
            }
        },
        Some(version) => {
            if matched == Some(false) {
                Some(
                    ModValidationError::VersionMismatch {
                        mod_id: mod_id.clone(),
                        dependency_id: dependency_id.clone(),
                        required: requirement.clone(),
                        found: Some(version.to_owned()),
                    },
                )
            } else {
                None
            }
        },
    }
}

/// Checks the dependency entries `entries` of the enabled mod at position
/// `a`, registered under `mod_id`, and pushes their errors.
fn check_entries(
    registry: &ModRegistry,
    a: usize,
    mod_id: &DefId,
    entries: &Vec<(DefId, String)>,
    required: bool,
    errors: &mut Vec<ModValidationError>,
)
    requires
        registry.wf(),
        0 <= a < registry.size(),
        mod_id@ == registry.ids_view()[a as int],
    ensures
        final(errors)@.map_values(|e: ModValidationError| e@) == old(errors)@.map_values(
            |e: ModValidationError| e@,
        ) + entry_errors(*registry, a as int, entries@, required),
{
    proof {
        registry.lemma_wf();
    }
    let ghost start = errors@.map_values(|e: ModValidationError| e@);
    let mut k: usize = 0;
    while k < entries.len()
        invariant
            registry.wf(),
            ids_distinct(registry.ids_view()),
            0 <= a < registry.size(),
            mod_id@ == registry.ids_view()[a as int],
            k <= entries@.len(),
            start == old(errors)@.map_values(|e: ModValidationError| e@),
            errors@.map_values(|e: ModValidationError| e@) == start + entry_errors(
                *registry,
                a as int,
                entries@.take(k as int),
                required,
            ),
        decreases entries@.len() - k,
    {
        let entry = &entries[k];
        let found = registry.get_enabled_by_id(&entry.0);
        let ghost version_spec = enabled_version(*registry, entry.0@);
        let outcome = match found {
            Some(dep) => {
                let version = dep.version();
                proof {
                    let j = choose|j: int|
                        registry.has_id_at(entry.0@, j) && registry.enabled_view()[j] && *dep
                            == registry.mods()[j];
                    let c = choose|c: int| registry.has_id_at(entry.0@, c) && registry.enabled_view()[c];
                    assert(registry.ids_view()[c] == registry.ids_view()[j]);
                    assert(version_spec == Some(version@));
                }
                let matched = check_requirement(entry.1.as_str(), version);
                dependency_error(mod_id, &entry.0, &entry.1, required, Some(version), matched)
            },
            None => {
                dependency_error(mod_id, &entry.0, &entry.1, required, None, None)
            },
        };
        let ghost before = errors@;
        match outcome {
            Some(e) => {
                errors.push(e);
                proof {
                    assert(errors@.map_values(|e: ModValidationError| e@) =~= before.map_values(
                        |e: ModValidationError| e@,
                    ).push(e@));
                }
            },
            None => {},
        }
        proof {
            assert(entries@.take(k + 1).drop_last() =~= entries@.take(k as int));
            assert(entries@.take(k + 1).last() == *entry);
        }
        k = k + 1;
    }
    proof {
        assert(entries@.take(k as int) =~= entries@);
    }
}

/// Checks that every dependency of every enabled mod is present and enabled
/// (required ones) and that its version satisfies the requirement (required
/// and optional ones). The errors come mod by mod in handle order, required
/// dependencies first.
pub fn validate_dependencies(registry: &ModRegistry) -> (r: Result<(), Vec<ModValidationError>>)
    requires
        registry.wf(),
    ensures
        r is Ok <==> dependency_errors(*registry).len() == 0,
        r is Ok <==> forall|a: int|
            0 <= a < registry.size() && #[trigger] registry.enabled_view()[a] ==> dependencies_hold(
                *registry,
                a,
            ),
        r matches Err(errors) ==> errors@.map_values(|e: ModValidationError| e@)
            == dependency_errors(*registry),
{
    proof {
        registry.lemma_wf();
        law_dependencies_hold(*registry);
    }
    let n = registry.len();
    let mut errors: Vec<ModValidationError> = Vec::new();
    let mut a: usize = 0;
    while a < n
        invariant
            registry.wf(),
            n == registry.size(),
            registry.size() <= u32::MAX,
            a <= n,
            errors@.map_values(|e: ModValidationError| e@) == dependency_errors_upto(
                *registry,
                a as int,
            ),
        decreases n - a,
    {
        let handle = DefHandle::<ModInfo>::from_index(a);
        proof {
            assert(handle@ == a + 1);
        }
        if registry.is_enabled(handle) {
            let mod_info = match registry.get(handle) {
                Some(m) => m,
                None => {
                    assert(false);
                    return Ok(());
                },
            };
            let mod_id = match registry.get_id(handle) {
                Some(id) => id,
                None => {
                    assert(false);
                    return Ok(());
                },
            };
            let ghost e0 = errors@.map_values(|e: ModValidationError| e@);
            check_entries(registry, a, mod_id, mod_info.dependencies(), true, &mut errors);
            check_entries(
                registry,
                a,
                mod_id,
                mod_info.optional_dependencies(),
                false,
                &mut errors,
            );
            proof {
                assert(errors@.map_values(|e: ModValidationError| e@) =~= e0 + mod_errors(
                    *registry,
                    a as int,
                ));
            }
        }
        a = a + 1;
    }
    if errors.len() == 0 {
        proof {
            assert(errors@.map_values(|e: ModValidationError| e@).len() == 0);
        }
        Ok(())
    } else {
        Err(errors)
    }
}

// ---------------------------------------------------------------------------
// Cycle detection
// ---------------------------------------------------------------------------

/// The mod at position `x` has been visited and its search has finished.
pub open spec fn finished(visited: Seq<bool>, rec: Seq<bool>, x: int) -> bool {
    visited[x] && !rec[x]
}

/// Every dependency of a finished mod has finished.
pub open spec fn finished_closed(reg: ModRegistry, visited: Seq<bool>, rec: Seq<bool>) -> bool {
    forall|u: int, v: int|
        #[trigger] depends(reg, u, v) && finished(visited, rec, u) ==> finished(visited, rec, v)
}

/// No cycle passes through a finished mod.
pub open spec fn no_cycle_finished(reg: ModRegistry, visited: Seq<bool>, rec: Seq<bool>) -> bool {
    forall|c: Seq<int>, k: int|
        #[trigger] is_cycle(reg, c) && 0 <= k < c.len() ==> !finished(visited, rec, #[trigger] c[k])
}

/// `path` follows dependency edges.
pub open spec fn is_chain(reg: ModRegistry, path: Seq<usize>) -> bool {
    forall|k: int|
        #![trigger path[k]]
        0 <= k < path.len() - 1 ==> depends(reg, path[k] as int, path[k + 1] as int)
}

proof fn lemma_count_mono(s1: Seq<bool>, s2: Seq<bool>)
    requires
        s1.len() == s2.len(),
        forall|i: int| 0 <= i < s1.len() && s1[i] ==> s2[i],
    ensures
        count_flag(s2, false) <= count_flag(s1, false),
    decreases s1.len(),
{
    if s1.len() > 0 {
        lemma_count_mono(s1.drop_last(), s2.drop_last());
    }
}

proof fn lemma_count_strict(s1: Seq<bool>, s2: Seq<bool>, w: int)
    requires
        s1.len() == s2.len(),
        forall|i: int| 0 <= i < s1.len() && s1[i] ==> s2[i],
        0 <= w < s1.len(),
        !s1[w],
        s2[w],
    ensures
        count_flag(s2, false) < count_flag(s1, false),
    decreases s1.len(),
{
    if w == s1.len() - 1 {
        lemma_count_mono(s1.drop_last(), s2.drop_last());
    } else {
        lemma_count_strict(s1.drop_last(), s2.drop_last(), w);
    }
}

/// The position of `x` in `path`.
fn position(path: &Vec<usize>, x: usize) -> (r: usize)
    requires
        path@.contains(x),
    ensures
        r < path@.len(),
        path@[r as int] == x,
        r == first_index(path@, x),
{
    let mut i: usize = 0;
    while i < path.len()
        invariant
            path@.contains(x),
            i <= path@.len(),
            forall|j: int| 0 <= j < i ==> path@[j] != x,
        decreases path@.len() - i,
    {
        if path[i] == x {
            proof {
                let p = path@;
                assert(0 <= i < p.len() && p[i as int] == x && forall|j: int|
                    0 <= j < i ==> p[j] != x);
                let f = first_index(p, x);
                if f != i as int {
                    if f < i {
                        assert(p[f] != x);
                    } else {
                        assert(p[i as int] != x);
                    }
                }
            }
            return i;
        }
        i = i + 1;
    }
    proof {
        let j = choose|j: int| 0 <= j < path@.len() && path@[j] == x;
        assert(path@[j] != x);
    }
    0
}

/// The ids of the mods at `path[start..]`, as a circular-dependency error.
fn cycle_error(registry: &ModRegistry, path: &Vec<usize>, start: usize) -> (r: ModValidationError)
    requires
        registry.wf(),
        start <= path@.len(),
        forall|k: int| 0 <= k < path@.len() ==> #[trigger] path@[k] < registry.size(),
    ensures
        r matches ModValidationError::CircularDependency { cycle } && cycle@.map_values(
            |d: DefId| d@,
        ) == ids_at(*registry, path@.subrange(start as int, path@.len() as int).map_values(
            |x: usize| x as int,
        )),
{
    proof {
        registry.lemma_wf();
    }
    let mut cycle: Vec<DefId> = Vec::new();
    let mut k: usize = start;
    let ghost c = path@.subrange(start as int, path@.len() as int).map_values(|x: usize| x as int);
    while k < path.len()
        invariant
            registry.wf(),
            start <= k <= path@.len(),
            forall|j: int| 0 <= j < path@.len() ==> #[trigger] path@[j] < registry.size(),
            c == path@.subrange(start as int, path@.len() as int).map_values(|x: usize| x as int),
            registry.size() <= u32::MAX,
            cycle@.len() == k - start,
            forall|j: int| 0 <= j < k - start ==> #[trigger] cycle@[j]@ == registry.ids_view()[c[j]],
        decreases path@.len() - k,
    {
        let h = DefHandle::<ModInfo>::from_index(path[k]);
        match registry.get_id(h) {
            Some(id) => {
                cycle.push(id.clone());
            },
            None => {
                assert(false);
            },
        }
        k = k + 1;
    }
    assert(cycle@.map_values(|d: DefId| d@) =~= ids_at(*registry, c));
    ModValidationError::CircularDependency { cycle }
}

/// What holds of the search state while no cycle has been reported yet.
pub open spec fn clean_state(reg: ModRegistry, visited: Seq<bool>, rec: Seq<bool>) -> bool {
    &&& finished_closed(reg, visited, rec)
    &&& no_cycle_finished(reg, visited, rec)
}

/// What holds of the search state at all times.
pub open spec fn search_state(
    reg: ModRegistry,
    visited: Seq<bool>,
    rec: Seq<bool>,
    path: Seq<usize>,
    errors: Seq<ModValidationError>,
) -> bool {
    &&& visited.len() == reg.size()
    &&& rec.len() == reg.size()
    &&& forall|k: int| 0 <= k < path.len() ==> #[trigger] path[k] < reg.size()
    &&& forall|x: int| 0 <= x < reg.size() ==> (rec[x] <==> path.contains(x as usize))
    &&& forall|x: int| 0 <= x < reg.size() && rec[x] ==> visited[x]
    &&& forall|k: int| 0 <= k < errors.len() ==> is_circular(#[trigger] errors[k])
    &&& errors.len() > 0 ==> reports_cycle(reg, errors[0])
    &&& path.no_duplicates()
    &&& forall|k: int| 0 <= k < errors.len() ==> (#[trigger] error_ids(errors[k])).no_duplicates()
}

/// `entries` are the required or the optional dependencies of the mod `m`.
pub open spec fn entries_of(m: ModInfo, entries: Seq<(DefId, String)>) -> bool {
    entries == m.meta().dependencies@ || entries == m.meta().optional_dependencies@
}

// ---------------------------------------------------------------------------
// The search, step by step
// ---------------------------------------------------------------------------

/// The ids that a circular-dependency error names; none for other errors.
pub open spec fn error_ids(e: ModValidationError) -> Seq<Seq<char>> {
    match e {
        ModValidationError::CircularDependency { cycle } => cycle@.map_values(|d: DefId| d@),
        _ => Seq::empty(),
    }
}

/// The ids that each error names.
pub open spec fn errors_ids(es: Seq<ModValidationError>) -> Seq<Seq<Seq<char>>> {
    es.map_values(|e: ModValidationError| error_ids(e))
}

/// The state of the search: the visited mods, the mods on the search path,
/// the search path, and the cycles reported so far (as the ids they name).
pub type SearchState = (Seq<bool>, Seq<bool>, Seq<usize>, Seq<Seq<Seq<char>>>);

/// The state before any search.
pub open spec fn initial_search(reg: ModRegistry) -> SearchState {
    (
        Seq::new(reg.size() as nat, |i: int| false),
        Seq::new(reg.size() as nat, |i: int| false),
        Seq::empty(),
        Seq::empty(),
    )
}

/// The position of the mod registered under `id`, if there is one.
pub open spec fn position_of(reg: ModRegistry, id: Seq<char>) -> Option<int> {
    if reg.ids_view().contains(id) {
        Some(choose|k: int| 0 <= k < reg.size() && reg.ids_view()[k] == id)
    } else {
        None
    }
}

/// The first position of `x` in `path`.
pub open spec fn first_index(path: Seq<usize>, x: usize) -> int {
    choose|i: int| 0 <= i < path.len() && path[i] == x && forall|j: int| 0 <= j < i ==> path[j] != x
}

/// The state after reporting, as a cycle, the search path from the first
/// occurrence of the mod at position `t`.
pub open spec fn report(reg: ModRegistry, st: SearchState, t: int) -> SearchState {
    let c = st.2.subrange(first_index(st.2, t as usize), st.2.len() as int).map_values(
        |x: usize| x as int,
    );
    (st.0, st.1, st.2, st.3.push(ids_at(reg, c)))
}

/// The search through the dependency entries `entries[k..]` of the mod at
/// position `id`: the state after it, and whether it reported a cycle. An
/// entry naming no registered mod or a disabled mod is passed over; an
/// unvisited mod is searched; a mod on the search path is reported with the
/// path from it, which ends the search. `fuel` bounds the depth of the
/// definition.
pub open spec fn search_visit(
    reg: ModRegistry,
    st: SearchState,
    id: int,
    entries: Seq<(DefId, String)>,
    k: int,
    fuel: nat,
) -> (SearchState, bool)
    decreases fuel,
{
    if fuel == 0 || k < 0 || k >= entries.len() {
        (st, false)
    } else {
        match position_of(reg, entries[k].0@) {
            None => search_visit(reg, st, id, entries, k + 1, (fuel - 1) as nat),
            Some(t) => if !reg.enabled_view()[t] {
                search_visit(reg, st, id, entries, k + 1, (fuel - 1) as nat)
            } else if !st.0[t] {
                if search_dfs(reg, st, t, (fuel - 1) as nat).1 {
                    search_dfs(reg, st, t, (fuel - 1) as nat)
                } else {
                    search_visit(
                        reg,
                        search_dfs(reg, st, t, (fuel - 1) as nat).0,
                        id,
                        entries,
                        k + 1,
                        (fuel - 1) as nat,
                    )
                }
            } else if st.1[t] {
                (report(reg, st, t), true)
            } else {
                search_visit(reg, st, id, entries, k + 1, (fuel - 1) as nat)
            },
        }
    }
}

/// The search from the mod at position `id`: it is marked visited and pushed
/// on the path, then its required and its optional dependencies are searched
/// in turn. When neither reported a cycle it leaves the path again; when one
/// did, the search stops with the path and the marks as they are.
pub open spec fn search_dfs(reg: ModRegistry, st: SearchState, id: int, fuel: nat) -> (
    SearchState,
    bool,
)
    decreases fuel,
{
    if fuel == 0 {
        (st, false)
    } else {
        let st1 = (st.0.update(id, true), st.1.update(id, true), st.2.push(id as usize), st.3);
        let m = reg.mods()[id];
        let (st2, f1) = search_visit(
            reg,
            st1,
            id,
            m.meta().dependencies@,
            0,
            (fuel - 1) as nat,
        );
        if f1 {
            (st2, true)
        } else {
            let (st3, f2) = search_visit(
                reg,
                st2,
                id,
                m.meta().optional_dependencies@,
                0,
                (fuel - 1) as nat,
            );
            if f2 {
                (st3, true)
            } else {
                ((st3.0, st3.1.update(id, false), st3.2.drop_last(), st3.3), false)
            }
        }
    }
}

/// `search_visit`, behind a name that proofs unfold only where they need to.
#[verifier::opaque]
pub open spec fn visit_result(
    reg: ModRegistry,
    st: SearchState,
    id: int,
    entries: Seq<(DefId, String)>,
    k: int,
    fuel: nat,
) -> (SearchState, bool) {
    search_visit(reg, st, id, entries, k, fuel)
}

/// `search_dfs`, behind a name that proofs unfold only where they need to.
#[verifier::opaque]
pub open spec fn dfs_result(reg: ModRegistry, st: SearchState, id: int, fuel: nat) -> (
    SearchState,
    bool,
) {
    search_dfs(reg, st, id, fuel)
}

/// The searches from the enabled mods not yet visited, from position `i` on,
/// in handle order.
pub open spec fn search_from(reg: ModRegistry, st: SearchState, i: int, fuel: nat) -> SearchState
    decreases reg.size() - i,
{
    if i < 0 || i >= reg.size() {
        st
    } else {
        let st2 = if reg.enabled_view()[i] && !st.0[i] {
            dfs_result(reg, st, i, fuel).0
        } else {
            st
        };
        search_from(reg, st2, i + 1, fuel)
    }
}

/// The number of dependency entries of the mods `ms`, required and optional.
pub open spec fn entry_total(ms: Seq<ModInfo>) -> nat
    decreases ms.len(),
{
    if ms.len() == 0 {
        0
    } else {
        entry_total(ms.drop_last()) + ms.last().meta().dependencies@.len()
            + ms.last().meta().optional_dependencies@.len()
    }
}

/// A depth that the search never exceeds.
pub open spec fn search_fuel(reg: ModRegistry) -> nat {
    ((entry_total(reg.mods()) + 2) * (reg.size() + 1)) as nat
}

/// What the searches of `detect_cycles` report, in order: the ids of each
/// reported cycle.
pub open spec fn found_cycles(reg: ModRegistry) -> Seq<Seq<Seq<char>>> {
    search_from(reg, initial_search(reg), 0, search_fuel(reg)).3
}

/// The fuel that a search from a state with `visited` may need.
#[verifier::opaque]
pub open spec fn fuel_need(reg: ModRegistry, visited: Seq<bool>) -> int {
    ((entry_total(reg.mods()) + 2) * count_flag(visited, false)) as int
}

proof fn lemma_entry_total(ms: Seq<ModInfo>, i: int)
    requires
        0 <= i < ms.len(),
    ensures
        ms[i].meta().dependencies@.len() + ms[i].meta().optional_dependencies@.len()
            <= entry_total(ms),
    decreases ms.len(),
{
    if i < ms.len() - 1 {
        lemma_entry_total(ms.drop_last(), i);
    }
}

proof fn lemma_fuel_step(e: int, u1: int, u0: int)
    requires
        0 <= e,
        0 <= u1 <= u0,
    ensures
        (e + 2) * u1 <= (e + 2) * u0,
{
    assert((e + 2) * u1 <= (e + 2) * u0) by (nonlinear_arith)
        requires
            0 <= e,
            0 <= u1 <= u0,
    ;
}

/// One step of `search_visit`.
proof fn lemma_visit_unfold(
    reg: ModRegistry,
    st: SearchState,
    id: int,
    entries: Seq<(DefId, String)>,
    k: int,
    fuel: nat,
)
    ensures
        fuel == 0 || k < 0 || k >= entries.len() ==> visit_result(reg, st, id, entries, k, fuel) == (
        st,
        false,
        ),
        fuel > 0 && 0 <= k < entries.len() ==> visit_result(reg, st, id, entries, k, fuel)
            == match position_of(reg, entries[k].0@) {
            None => visit_result(reg, st, id, entries, k + 1, (fuel - 1) as nat),
            Some(t) => if !reg.enabled_view()[t] {
                visit_result(reg, st, id, entries, k + 1, (fuel - 1) as nat)
            } else if !st.0[t] {
                if dfs_result(reg, st, t, (fuel - 1) as nat).1 {
                    dfs_result(reg, st, t, (fuel - 1) as nat)
                } else {
                    visit_result(
                        reg,
                        dfs_result(reg, st, t, (fuel - 1) as nat).0,
                        id,
                        entries,
                        k + 1,
                        (fuel - 1) as nat,
                    )
                }
            } else if st.1[t] {
                (report(reg, st, t), true)
            } else {
                visit_result(reg, st, id, entries, k + 1, (fuel - 1) as nat)
            },
        },
{
    reveal(visit_result);
    reveal(dfs_result);
    if fuel > 0 && 0 <= k < entries.len() {
        let f1 = (fuel - 1) as nat;
        if position_of(reg, entries[k].0@) is None {
            assert(search_visit(reg, st, id, entries, k, fuel) == search_visit(
                reg,
                st,
                id,
                entries,
                k + 1,
                f1,
            ));
        } else {
            let t = position_of(reg, entries[k].0@)->0;
            if !reg.enabled_view()[t] {
                assert(search_visit(reg, st, id, entries, k, fuel) == search_visit(
                    reg,
                    st,
                    id,
                    entries,
                    k + 1,
                    f1,
                ));
            } else if !st.0[t] {
                if search_dfs(reg, st, t, f1).1 {
                    assert(search_visit(reg, st, id, entries, k, fuel) == search_dfs(reg, st, t, f1));
                } else {
                    assert(search_visit(reg, st, id, entries, k, fuel) == search_visit(
                        reg,
                        search_dfs(reg, st, t, f1).0,
                        id,
                        entries,
                        k + 1,
                        f1,
                    ));
                }
            } else if st.1[t] {
                assert(search_visit(reg, st, id, entries, k, fuel) == (report(reg, st, t), true));
            } else {
                assert(search_visit(reg, st, id, entries, k, fuel) == search_visit(
                    reg,
                    st,
                    id,
                    entries,
                    k + 1,
                    f1,
                ));
            }
        }
    }
}

/// A step of `search_visit` that passes over the entry.
proof fn lemma_step_skip(
    reg: ModRegistry,
    st: SearchState,
    id: int,
    entries: Seq<(DefId, String)>,
    k: int,
    fuel: nat,
)
    requires
        fuel > 0,
        0 <= k < entries.len(),
        match position_of(reg, entries[k].0@) {
            None => true,
            Some(t) => !reg.enabled_view()[t] || (st.0[t] && !st.1[t]),
        },
    ensures
        visit_result(reg, st, id, entries, k, fuel) == visit_result(
            reg,
            st,
            id,
            entries,
            k + 1,
            (fuel - 1) as nat,
        ),
{
    lemma_visit_unfold(reg, st, id, entries, k, fuel);
}

/// A step of `search_visit` that searches from an unvisited mod.
proof fn lemma_step_dfs(
    reg: ModRegistry,
    st: SearchState,
    id: int,
    entries: Seq<(DefId, String)>,
    k: int,
    fuel: nat,
    t: int,
)
    requires
        fuel > 0,
        0 <= k < entries.len(),
        position_of(reg, entries[k].0@) == Some(t),
        reg.enabled_view()[t],
        !st.0[t],
    ensures
        dfs_result(reg, st, t, (fuel - 1) as nat).1 ==> visit_result(reg, st, id, entries, k, fuel)
            == dfs_result(reg, st, t, (fuel - 1) as nat),
        !dfs_result(reg, st, t, (fuel - 1) as nat).1 ==> visit_result(
            reg,
            st,
            id,
            entries,
            k,
            fuel,
        ) == visit_result(
            reg,
            dfs_result(reg, st, t, (fuel - 1) as nat).0,
            id,
            entries,
            k + 1,
            (fuel - 1) as nat,
        ),
{
    lemma_visit_unfold(reg, st, id, entries, k, fuel);
}

/// A step of `search_visit` that meets a mod on the search path.
proof fn lemma_step_report(
    reg: ModRegistry,
    st: SearchState,
    id: int,
    entries: Seq<(DefId, String)>,
    k: int,
    fuel: nat,
    t: int,
)
    requires
        fuel > 0,
        0 <= k < entries.len(),
        position_of(reg, entries[k].0@) == Some(t),
        reg.enabled_view()[t],
        st.0[t],
        st.1[t],
    ensures
        visit_result(reg, st, id, entries, k, fuel) == (report(reg, st, t), true),
{
    lemma_visit_unfold(reg, st, id, entries, k, fuel);
}

/// The parts of a search state read off the exec search.
proof fn lemma_search_view(
    visited: Seq<bool>,
    rec: Seq<bool>,
    path: Seq<usize>,
    errors: Seq<ModValidationError>,
)
    ensures
        search_view(visited, rec, path, errors).0 == visited,
        search_view(visited, rec, path, errors).1 == rec,
        search_view(visited, rec, path, errors).2 == path,
        search_view(visited, rec, path, errors).3 == errors_ids(errors),
{
    reveal(search_view);
}

/// One step of `search_dfs`.
proof fn lemma_dfs_unfold(reg: ModRegistry, st: SearchState, id: int, fuel: nat)
    requires
        fuel > 0,
    ensures
        ({
            let st1 = (st.0.update(id, true), st.1.update(id, true), st.2.push(id as usize), st.3);
            let m = reg.mods()[id];
            let f1 = (fuel - 1) as nat;
            let a = visit_result(reg, st1, id, m.meta().dependencies@, 0, f1);
            let b = visit_result(reg, a.0, id, m.meta().optional_dependencies@, 0, f1);
            dfs_result(reg, st, id, fuel) == if a.1 {
                a
            } else if b.1 {
                b
            } else {
                ((b.0.0, b.0.1.update(id, false), b.0.2.drop_last(), b.0.3), false)
            }
        }),
{
    reveal(visit_result);
    reveal(dfs_result);
}

/// No search needs negative fuel.
proof fn lemma_need_nonneg(reg: ModRegistry, v: Seq<bool>)
    ensures
        0 <= fuel_need(reg, v),
{
    reveal(fuel_need);
    lemma_fuel_step(entry_total(reg.mods()) as int, 0, count_flag(v, false) as int);
}

/// Fewer unvisited mods need no more fuel.
proof fn lemma_need_mono(reg: ModRegistry, v1: Seq<bool>, v0: Seq<bool>)
    requires
        count_flag(v1, false) <= count_flag(v0, false),
    ensures
        fuel_need(reg, v1) <= fuel_need(reg, v0),
{
    reveal(fuel_need);
    lemma_fuel_step(
        entry_total(reg.mods()) as int,
        count_flag(v1, false) as int,
        count_flag(v0, false) as int,
    );
}

/// Visiting one more mod frees fuel for the search of its dependencies.
proof fn lemma_need_dfs(reg: ModRegistry, v1: Seq<bool>, v0: Seq<bool>)
    requires
        count_flag(v1, false) < count_flag(v0, false),
    ensures
        fuel_need(reg, v1) + entry_total(reg.mods()) + 2 <= fuel_need(reg, v0),
        0 <= fuel_need(reg, v1),
{
    reveal(fuel_need);
    lemma_fuel_dfs(
        entry_total(reg.mods()) as int,
        count_flag(v1, false) as int,
        count_flag(v0, false) as int,
    );
}

/// The fuel of `detect_cycles` is enough for any search state.
proof fn lemma_need_bound(reg: ModRegistry, v: Seq<bool>)
    requires
        v.len() == reg.size(),
    ensures
        fuel_need(reg, v) <= search_fuel(reg),
{
    reveal(fuel_need);
    lemma_count_le(v, false);
    lemma_fuel_step(entry_total(reg.mods()) as int, count_flag(v, false) as int, reg.size() + 1);
}

proof fn lemma_fuel_dfs(e: int, u1: int, u0: int)
    requires
        0 <= e,
        0 <= u1 < u0,
    ensures
        (e + 2) * u1 + e + 2 <= (e + 2) * u0,
        0 <= (e + 2) * u1,
{
    assert((e + 2) * u1 + e + 2 <= (e + 2) * u0 && 0 <= (e + 2) * u1) by (nonlinear_arith)
        requires
            0 <= e,
            0 <= u1 < u0,
    ;
}

/// The search state as the values of the exec search hold it.
#[verifier::opaque]
pub open spec fn search_view(
    visited: Seq<bool>,
    rec: Seq<bool>,
    path: Seq<usize>,
    errors: Seq<ModValidationError>,
) -> SearchState {
    (visited, rec, path, errors_ids(errors))
}

/// What holds before a dependency entry `entries[k]` of the mod at position
/// `id` is visited.
pub open spec fn entry_pre(
    reg: ModRegistry,
    id: int,
    entries: Seq<(DefId, String)>,
    k: int,
    required: bool,
    fk: nat,
    v0: Seq<bool>,
    r0: Seq<bool>,
    p0: Seq<usize>,
    e0: Seq<ModValidationError>,
) -> bool {
    &&& reg.wf()
    &&& required_deps_registered(reg)
    &&& 0 <= id < reg.size()
    &&& reg.enabled_view()[id]
    &&& entries_of(reg.mods()[id], entries)
    &&& required ==> forall|j: int|
        0 <= j < entries.len() ==> reg.ids_view().contains((#[trigger] entries[j]).0@)
    &&& 0 <= k < entries.len()
    &&& search_state(reg, v0, r0, p0, e0)
    &&& v0[id]
    &&& p0.len() > 0
    &&& p0[p0.len() - 1] == id
    &&& e0.len() == 0 ==> is_chain(reg, p0) && clean_state(reg, v0, r0)
    &&& fk >= fuel_need(reg, v0) + (entries.len() - k) + 1
}

/// What holds after a dependency entry `entries[k]` of the mod at position
/// `id` was visited, with `r` whether a cycle was reported.
pub open spec fn entry_post(
    reg: ModRegistry,
    id: int,
    entries: Seq<(DefId, String)>,
    k: int,
    fk: nat,
    v0: Seq<bool>,
    r0: Seq<bool>,
    p0: Seq<usize>,
    e0: Seq<ModValidationError>,
    v1: Seq<bool>,
    r1: Seq<bool>,
    p1: Seq<usize>,
    e1: Seq<ModValidationError>,
    r: bool,
) -> bool {
    &&& search_state(reg, v1, r1, p1, e1)
    &&& forall|x: int| 0 <= x < reg.size() && v0[x] ==> v1[x]
    &&& fuel_need(reg, v1) <= fuel_need(reg, v0)
    &&& e1.len() >= e0.len()
    &&& forall|j: int| 0 <= j < e0.len() ==> e1[j] == e0[j]
    &&& r ==> e1.len() > 0
    &&& r ==> (search_view(v1, r1, p1, e1), true) == visit_result(
        reg,
        search_view(v0, r0, p0, e0),
        id,
        entries,
        k,
        fk,
    )
    &&& !r ==> {
        &&& e1 == e0
        &&& p1 == p0
        &&& r1 == r0
        &&& visit_result(reg, search_view(v0, r0, p0, e0), id, entries, k, fk) == visit_result(
            reg,
            search_view(v1, r1, p1, e1),
            id,
            entries,
            k + 1,
            (fk - 1) as nat,
        )
    }
    &&& !r && e0.len() == 0 ==> {
        &&& clean_state(reg, v1, r1)
        &&& forall|v: int|
            0 <= v < reg.size() && reg.enabled_view()[v] && entries[k].0@ == reg.ids_view()[v]
                ==> finished(v1, r1, v)
    }
}

/// Visits the dependency entry `entries[k]` of the mod at position `id`,
/// which is on top of `path`. Returns `true` when a cycle was reported.
fn visit_entry(
    id: usize,
    entries: &Vec<(DefId, String)>,
    k: usize,
    required: bool,
    registry: &ModRegistry,
    visited: &mut Vec<bool>,
    rec_stack: &mut Vec<bool>,
    path: &mut Vec<usize>,
    errors: &mut Vec<ModValidationError>,
    Ghost(fk): Ghost<nat>,
) -> (r: bool)
    requires
        entry_pre(
            *registry,
            id as int,
            entries@,
            k as int,
            required,
            fk,
            old(visited)@,
            old(rec_stack)@,
            old(path)@,
            old(errors)@,
        ),
    ensures
        entry_post(
            *registry,
            id as int,
            entries@,
            k as int,
            fk,
            old(visited)@,
            old(rec_stack)@,
            old(path)@,
            old(errors)@,
            final(visited)@,
            final(rec_stack)@,
            final(path)@,
            final(errors)@,
            r,
        ),
    decreases count_flag(old(visited)@, false), 1int, 0int,
{
    proof {
        registry.lemma_wf();
    }
    let ghost n = registry.size();
    let ghost cur = search_view(visited@, rec_stack@, path@, errors@);
    proof {
        lemma_need_nonneg(*registry, visited@);
        lemma_search_view(visited@, rec_stack@, path@, errors@);
    }
    let dep_id = &entries[k].0;
    let dep_handle = match registry.lookup(dep_id) {
        Some(h) => h,
        None => {
            if required {
                assert(registry.ids_view().contains(entries@[k as int].0@));
                assert(false);
            }
            proof {
                assert(position_of(*registry, entries@[k as int].0@) is None);
                lemma_step_skip(*registry, cur, id as int, entries@, k as int, fk);
                assert forall|v: int|
                    0 <= v < n && registry.enabled_view()[v] && entries@[k as int].0@
                        == registry.ids_view()[v] implies finished(visited@, rec_stack@, v) by {
                    assert(registry.ids_view().contains(entries@[k as int].0@));
                }
            }
            return false;
        },
    };
    let dep = dep_handle.to_index();
    proof {
        assert(entries@[k as int].0@ == registry.ids_view()[dep as int]);
        assert forall|v: int|
            0 <= v < n && registry.ids_view()[v] == entries@[k as int].0@ implies v == dep by {
            assert(registry.ids_view()[v] == registry.ids_view()[dep as int]);
        }
        assert(registry.ids_view().contains(entries@[k as int].0@));
        assert(position_of(*registry, entries@[k as int].0@) == Some(dep as int));
    }
    if !registry.is_enabled(dep_handle) {
        proof {
            lemma_step_skip(*registry, cur, id as int, entries@, k as int, fk);
        }
        return false;
    }
    if !visited[dep] {
        visit_unvisited(id, entries, k, required, dep, registry, visited, rec_stack, path, errors, Ghost(fk))
    } else if rec_stack[dep] {
        report_cycle(id, entries, k, required, dep, registry, visited, rec_stack, path, errors, Ghost(fk))
    } else {
        proof {
            lemma_step_skip(*registry, cur, id as int, entries@, k as int, fk);
        }
        false
    }
}

/// The entry `entries[k]` names the enabled, unvisited mod at position
/// `dep`: searches from it.
#[verifier::spinoff_prover]
fn visit_unvisited(
    id: usize,
    entries: &Vec<(DefId, String)>,
    k: usize,
    required: bool,
    dep: usize,
    registry: &ModRegistry,
    visited: &mut Vec<bool>,
    rec_stack: &mut Vec<bool>,
    path: &mut Vec<usize>,
    errors: &mut Vec<ModValidationError>,
    Ghost(fk): Ghost<nat>,
) -> (r: bool)
    requires
        entry_pre(
            *registry,
            id as int,
            entries@,
            k as int,
            required,
            fk,
            old(visited)@,
            old(rec_stack)@,
            old(path)@,
            old(errors)@,
        ),
        dep < registry.size(),
        position_of(*registry, entries@[k as int].0@) == Some(dep as int),
        registry.ids_view()[dep as int] == entries@[k as int].0@,
        registry.enabled_view()[dep as int],
        !old(visited)@[dep as int],
    ensures
        entry_post(
            *registry,
            id as int,
            entries@,
            k as int,
            fk,
            old(visited)@,
            old(rec_stack)@,
            old(path)@,
            old(errors)@,
            final(visited)@,
            final(rec_stack)@,
            final(path)@,
            final(errors)@,
            r,
        ),
    decreases count_flag(old(visited)@, false), 0int, 1int,
{
    proof {
        registry.lemma_wf();
    }
    let ghost n = registry.size();
    let ghost m = registry.mods()[id as int];
    let ghost prev = visited@;
    let ghost cur = search_view(visited@, rec_stack@, path@, errors@);
    proof {
        lemma_need_nonneg(*registry, visited@);
        lemma_search_view(visited@, rec_stack@, path@, errors@);
        if entries@ == m.meta().dependencies@ {
            assert(dep_entries(m)[k as int] == entries@[k as int]);
        } else {
            assert(dep_entries(m)[m.meta().dependencies@.len() + k] == entries@[k as int]);
        }
        assert(depends(*registry, id as int, dep as int));
        assert forall|v: int|
            0 <= v < n && registry.ids_view()[v] == entries@[k as int].0@ implies v == dep by {
            assert(registry.ids_view()[v] == registry.ids_view()[dep as int]);
        }
    }
    let found = dfs(dep, registry, visited, rec_stack, path, errors, Ghost((fk - 1) as nat));
    proof {
        lemma_count_mono(prev, visited@);
        lemma_need_mono(*registry, visited@, prev);
        lemma_step_dfs(*registry, cur, id as int, entries@, k as int, fk, dep as int);
    }
    found
}

/// The entry `entries[k]` names the mod at position `dep`, which is on the
/// search path: reports the path from it as a cycle.
#[verifier::spinoff_prover]
#[verifier::rlimit(100)]
fn report_cycle(
    id: usize,
    entries: &Vec<(DefId, String)>,
    k: usize,
    required: bool,
    dep: usize,
    registry: &ModRegistry,
    visited: &mut Vec<bool>,
    rec_stack: &mut Vec<bool>,
    path: &mut Vec<usize>,
    errors: &mut Vec<ModValidationError>,
    Ghost(fk): Ghost<nat>,
) -> (r: bool)
    requires
        entry_pre(
            *registry,
            id as int,
            entries@,
            k as int,
            required,
            fk,
            old(visited)@,
            old(rec_stack)@,
            old(path)@,
            old(errors)@,
        ),
        dep < registry.size(),
        position_of(*registry, entries@[k as int].0@) == Some(dep as int),
        registry.enabled_view()[dep as int],
        old(visited)@[dep as int],
        old(rec_stack)@[dep as int],
    ensures
        entry_post(
            *registry,
            id as int,
            entries@,
            k as int,
            fk,
            old(visited)@,
            old(rec_stack)@,
            old(path)@,
            old(errors)@,
            final(visited)@,
            final(rec_stack)@,
            final(path)@,
            final(errors)@,
            r,
        ),
        r,
{
    proof {
        registry.lemma_wf();
    }
    let ghost clean = errors@.len() == 0;
    let ghost m = registry.mods()[id as int];
    let ghost cur = search_view(visited@, rec_stack@, path@, errors@);
    proof {
        lemma_need_nonneg(*registry, visited@);
        lemma_search_view(visited@, rec_stack@, path@, errors@);
        assert(path@.contains(dep));
    }
    let start = position(path, dep);
    proof {
        if clean {
            if entries@ == m.meta().dependencies@ {
                assert(dep_entries(m)[k as int] == entries@[k as int]);
            } else {
                assert(dep_entries(m)[m.meta().dependencies@.len() + k] == entries@[k as int]);
            }
            assert(registry.ids_view()[dep as int] == entries@[k as int].0@);
            assert(depends(*registry, id as int, dep as int));
            let c = path@.subrange(start as int, path@.len() as int).map_values(
                |x: usize| x as int,
            );
            assert(is_cycle(*registry, c)) by {
                assert forall|j: int| #![trigger c[j]] 0 <= j < c.len() - 1 implies depends(
                    *registry,
                    c[j],
                    c[j + 1],
                ) by {
                    assert(path@[start + j] == c[j]);
                    assert(path@[start + j + 1] == c[j + 1]);
                }
            }
        }
    }
    let e = cycle_error(registry, path, start);
    let ghost before_errors = errors@;
    let ghost c = path@.subrange(start as int, path@.len() as int).map_values(|x: usize| x as int);
    errors.push(e);
    proof {
        assert(error_ids(e) == ids_at(*registry, c));
        assert(errors_ids(errors@) =~= errors_ids(before_errors).push(ids_at(*registry, c)));
        assert(cur.2 == path@);
        assert(report(*registry, cur, dep as int) == (
            cur.0,
            cur.1,
            cur.2,
            cur.3.push(ids_at(*registry, c)),
        ));
        lemma_step_report(*registry, cur, id as int, entries@, k as int, fk, dep as int);
        lemma_search_view(visited@, rec_stack@, path@, errors@);
        assert(search_view(visited@, rec_stack@, path@, errors@) == report(
            *registry,
            cur,
            dep as int,
        ));
        assert forall|j: int| 0 <= j < errors@.len() implies is_circular(#[trigger] errors@[j]) by {
            if j < before_errors.len() {
                assert(errors@[j] == before_errors[j]);
            }
        }
        if clean {
            assert(errors@[0] == e);
            assert(reports_cycle(*registry, e));
        } else {
            assert(errors@[0] == old(errors)@[0]);
        }
    }
    true
}

/// Visits the mods named by `entries`, dependencies of the mod at position
/// `id`, which is on top of `path`. Returns `true` when a cycle was reported.
#[verifier::rlimit(100)]
#[verifier::spinoff_prover]
fn visit_deps(
    id: usize,
    entries: &Vec<(DefId, String)>,
    required: bool,
    registry: &ModRegistry,
    visited: &mut Vec<bool>,
    rec_stack: &mut Vec<bool>,
    path: &mut Vec<usize>,
    errors: &mut Vec<ModValidationError>,
    Ghost(fuel): Ghost<nat>,
) -> (r: bool)
    requires
        registry.wf(),
        required_deps_registered(*registry),
        id < registry.size(),
        registry.enabled_view()[id as int],
        entries_of(registry.mods()[id as int], entries@),
        required ==> forall|j: int|
            0 <= j < entries@.len() ==> registry.ids_view().contains((#[trigger] entries@[j]).0@),
        search_state(*registry, old(visited)@, old(rec_stack)@, old(path)@, old(errors)@),
        old(visited)@[id as int],
        old(path)@.len() > 0,
        old(path)@[old(path)@.len() - 1] == id,
        old(errors)@.len() == 0 ==> is_chain(*registry, old(path)@) && clean_state(
            *registry,
            old(visited)@,
            old(rec_stack)@,
        ),
        fuel >= fuel_need(*registry, old(visited)@) + entries@.len() + 1,
    ensures
        (search_view(final(visited)@, final(rec_stack)@, final(path)@, final(errors)@), r)
            == visit_result(
            *registry,
            search_view(old(visited)@, old(rec_stack)@, old(path)@, old(errors)@),
            id as int,
            entries@,
            0,
            fuel,
        ),
        search_state(*registry, final(visited)@, final(rec_stack)@, final(path)@, final(errors)@),
        forall|x: int| 0 <= x < registry.size() && old(visited)@[x] ==> final(visited)@[x],
        final(errors)@.len() >= old(errors)@.len(),
        forall|k: int| 0 <= k < old(errors)@.len() ==> final(errors)@[k] == old(errors)@[k],
        r ==> final(errors)@.len() > 0,
        !r ==> {
            &&& final(errors)@ == old(errors)@
            &&& final(path)@ == old(path)@
            &&& final(rec_stack)@ == old(rec_stack)@
        },
        !r && old(errors)@.len() == 0 ==> {
            &&& clean_state(*registry, final(visited)@, final(rec_stack)@)
            &&& forall|v: int|
                0 <= v < registry.size() && registry.enabled_view()[v] && (exists|j: int|
                    0 <= j < entries@.len() && (#[trigger] entries@[j]).0@ == registry.ids_view()[v])
                    ==> finished(final(visited)@, final(rec_stack)@, v)
        },
    decreases count_flag(old(visited)@, false), 1int, 1int,
{
    proof {
        registry.lemma_wf();
    }
    let ghost n = registry.size();
    let ghost clean = errors@.len() == 0;
    let ghost m = registry.mods()[id as int];
    let ghost start_visited = visited@;
    let ghost s0 = search_view(visited@, rec_stack@, path@, errors@);
    let ghost total = entry_total(registry.mods()) as int;
    let mut k: usize = 0;
    while k < entries.len()
        invariant
            registry.wf(),
            required_deps_registered(*registry),
            n == registry.size(),
            id < n,
            registry.enabled_view()[id as int],
            m == registry.mods()[id as int],
            entries_of(m, entries@),
            required ==> forall|j: int|
                0 <= j < entries@.len() ==> registry.ids_view().contains(
                    (#[trigger] entries@[j]).0@,
                ),
            k <= entries@.len(),
            ids_distinct(registry.ids_view()),
            registry.size() <= u32::MAX,
            search_state(*registry, visited@, rec_stack@, path@, errors@),
            visited@[id as int],
            start_visited == old(visited)@,
            clean == (old(errors)@.len() == 0),
            old(path)@.len() > 0,
            old(path)@[old(path)@.len() - 1] == id,
            forall|x: int| 0 <= x < n && start_visited[x] ==> visited@[x],
            count_flag(visited@, false) <= count_flag(start_visited, false),
            path@ == old(path)@,
            rec_stack@ == old(rec_stack)@,
            errors@ == old(errors)@,
            clean ==> errors@.len() == 0,
            clean ==> is_chain(*registry, path@) && clean_state(*registry, visited@, rec_stack@),
            s0 == search_view(old(visited)@, old(rec_stack)@, old(path)@, old(errors)@),
            total == entry_total(registry.mods()),
            visit_result(*registry, s0, id as int, entries@, 0, fuel) == visit_result(
                *registry,
                search_view(visited@, rec_stack@, path@, errors@),
                id as int,
                entries@,
                k as int,
                (fuel - k) as nat,
            ),
            fuel - k >= fuel_need(*registry, visited@) + (entries@.len() - k) + 1,
            clean ==> forall|v: int|
                0 <= v < n && registry.enabled_view()[v] && (exists|j: int|
                    0 <= j < k && (#[trigger] entries@[j]).0@ == registry.ids_view()[v])
                    ==> finished(visited@, rec_stack@, v),
        decreases entries@.len() - k,
    {
        let ghost prev = visited@;
        let ghost fk = (fuel - k) as nat;
        proof {
            lemma_need_nonneg(*registry, visited@);
        }
        let found = visit_entry(
            id,
            entries,
            k,
            required,
            registry,
            visited,
            rec_stack,
            path,
            errors,
            Ghost(fk),
        );
        if found {
            return true;
        }
        proof {
            if clean {
                assert forall|v: int|
                    0 <= v < n && registry.enabled_view()[v] && (exists|j: int|
                        0 <= j < k + 1 && (#[trigger] entries@[j]).0@ == registry.ids_view()[v])
                        implies finished(visited@, rec_stack@, v) by {
                    let j = choose|j: int|
                        0 <= j < k + 1 && (#[trigger] entries@[j]).0@ == registry.ids_view()[v];
                    if j < k {
                        assert(finished(prev, rec_stack@, v));
                    }
                }
            }
            lemma_count_mono(prev, visited@);
        }
        k = k + 1;
    }
    proof {
        lemma_visit_unfold(
            *registry,
            search_view(visited@, rec_stack@, path@, errors@),
            id as int,
            entries@,
            k as int,
            (fuel - k) as nat,
        );
    }
    false
}

proof fn lemma_push(
    reg: ModRegistry,
    visited0: Seq<bool>,
    rec0: Seq<bool>,
    path0: Seq<usize>,
    errors: Seq<ModValidationError>,
    id: usize,
    clean: bool,
)
    requires
        search_state(reg, visited0, rec0, path0, errors),
        reg.size() <= u32::MAX,
        id < reg.size(),
        !visited0[id as int],
        clean ==> errors.len() == 0,
        clean ==> {
            &&& is_chain(reg, path0)
            &&& path0.len() > 0 ==> depends(reg, path0[path0.len() - 1] as int, id as int)
            &&& clean_state(reg, visited0, rec0)
        },
    ensures
        search_state(
            reg,
            visited0.update(id as int, true),
            rec0.update(id as int, true),
            path0.push(id),
            errors,
        ),
        clean ==> is_chain(reg, path0.push(id)) && clean_state(
            reg,
            visited0.update(id as int, true),
            rec0.update(id as int, true),
        ),
{
    let n = reg.size();
    let visited = visited0.update(id as int, true);
    let rec = rec0.update(id as int, true);
    let path = path0.push(id);
    assert forall|x: int| 0 <= x < n implies (rec[x] <==> path.contains(x as usize)) by {
        if x == id {
            assert(path[path.len() - 1] == id);
        } else {
            assert((x as usize) as int == x);
            if path0.contains(x as usize) {
                let j = choose|j: int| 0 <= j < path0.len() && path0[j] == x as usize;
                assert(path[j] == x as usize);
            }
            if path.contains(x as usize) {
                let j = choose|j: int| 0 <= j < path.len() && path[j] == x as usize;
                assert(path[path0.len() as int] == id);
                assert(j != path0.len() as int);
                assert(path0[j] == x as usize);
            }
        }
    }
    assert forall|k: int| 0 <= k < path.len() implies #[trigger] path[k] < n by {
        if k < path0.len() {
            assert(path[k] == path0[k]);
        }
    }
    if clean {
        assert forall|k: int| #![trigger path[k]] 0 <= k < path.len() - 1 implies depends(
            reg,
            path[k] as int,
            path[k + 1] as int,
        ) by {
            if k < path0.len() - 1 {
                assert(path[k] == path0[k]);
                assert(path[k + 1] == path0[k + 1]);
            }
        }
        assert forall|u: int, v: int|
            #[trigger] depends(reg, u, v) && finished(visited, rec, u) implies finished(
            visited,
            rec,
            v,
        ) by {
            assert(finished(visited0, rec0, u));
            assert(finished(visited0, rec0, v));
        }
        assert forall|c: Seq<int>, k: int|
            #[trigger] is_cycle(reg, c) && 0 <= k < c.len() implies !finished(
            visited,
            rec,
            #[trigger] c[k],
        ) by {
            if finished(visited, rec, c[k]) {
                assert(finished(visited0, rec0, c[k]));
            }
        }
    }
}

proof fn lemma_finish(
    reg: ModRegistry,
    visited: Seq<bool>,
    rec: Seq<bool>,
    id: usize,
)
    requires
        visited.len() == reg.size(),
        rec.len() == reg.size(),
        id < reg.size(),
        visited[id as int],
        clean_state(reg, visited, rec),
        forall|v: int| depends(reg, id as int, v) ==> finished(visited, rec, v),
    ensures
        clean_state(reg, visited, rec.update(id as int, false)),
        finished(visited, rec.update(id as int, false), id as int),
{
    let rec2 = rec.update(id as int, false);
    assert forall|u: int, v: int|
        #[trigger] depends(reg, u, v) && finished(visited, rec2, u) implies finished(
        visited,
        rec2,
        v,
    ) by {
        if u == id {
            assert(finished(visited, rec, v));
        } else {
            assert(finished(visited, rec, u));
            assert(finished(visited, rec, v));
        }
    }
    assert forall|c: Seq<int>, k: int|
        #[trigger] is_cycle(reg, c) && 0 <= k < c.len() implies !finished(
        visited,
        rec2,
        #[trigger] c[k],
    ) by {
        if finished(visited, rec2, c[k]) {
            if c[k] == id {
                let k2 = if k == c.len() - 1 { 0 } else { k + 1 };
                assert(depends(reg, c[k], c[k2]));
                assert(finished(visited, rec, c[k2]));
            } else {
                assert(finished(visited, rec, c[k]));
            }
        }
    }
}

proof fn lemma_deps_finished(
    reg: ModRegistry,
    id: usize,
    visited: Seq<bool>,
    rec: Seq<bool>,
    visited2: Seq<bool>,
)
    requires
        reg.wf(),
        id < reg.size(),
        visited.len() == reg.size(),
        visited2.len() == reg.size(),
        forall|x: int| 0 <= x < reg.size() && visited2[x] ==> visited[x],
        forall|v: int|
            0 <= v < reg.size() && reg.enabled_view()[v] && (exists|j: int|
                0 <= j < reg.mods()[id as int].meta().dependencies@.len() && (
                #[trigger] reg.mods()[id as int].meta().dependencies@[j]).0@ == reg.ids_view()[v])
                ==> finished(visited2, rec, v),
        forall|v: int|
            0 <= v < reg.size() && reg.enabled_view()[v] && (exists|j: int|
                0 <= j < reg.mods()[id as int].meta().optional_dependencies@.len() && (
                #[trigger] reg.mods()[id as int].meta().optional_dependencies@[j]).0@
                    == reg.ids_view()[v]) ==> finished(visited, rec, v),
    ensures
        forall|v: int| depends(reg, id as int, v) ==> finished(visited, rec, v),
{
    let m = reg.mods()[id as int];
    let deps = m.meta().dependencies@;
    let optional = m.meta().optional_dependencies@;
    assert forall|v: int| depends(reg, id as int, v) implies finished(visited, rec, v) by {
        let i = choose|i: int|
            0 <= i < dep_entries(m).len() && (#[trigger] dep_entries(m)[i]).0@ == reg.ids_view()[v];
        if i < deps.len() {
            assert(dep_entries(m)[i] == deps[i]);
            assert(finished(visited2, rec, v));
        } else {
            assert(dep_entries(m)[i] == optional[i - deps.len()]);
        }
    }
}

/// Depth-first search from the mod at position `id`. Returns `true` when it
/// found a cycle and pushed an error for it; the search then stops without
/// unwinding `path` and `rec_stack`.
fn dfs(
    id: usize,
    registry: &ModRegistry,
    visited: &mut Vec<bool>,
    rec_stack: &mut Vec<bool>,
    path: &mut Vec<usize>,
    errors: &mut Vec<ModValidationError>,
    Ghost(fuel): Ghost<nat>,
) -> (r: bool)
    requires
        registry.wf(),
        required_deps_registered(*registry),
        id < registry.size(),
        registry.enabled_view()[id as int],
        search_state(*registry, old(visited)@, old(rec_stack)@, old(path)@, old(errors)@),
        !old(visited)@[id as int],
        old(errors)@.len() == 0 ==> {
            &&& is_chain(*registry, old(path)@)
            &&& old(path)@.len() > 0 ==> depends(
                *registry,
                old(path)@[old(path)@.len() - 1] as int,
                id as int,
            )
            &&& clean_state(*registry, old(visited)@, old(rec_stack)@)
        },
        fuel >= fuel_need(*registry, old(visited)@),
    ensures
        (search_view(final(visited)@, final(rec_stack)@, final(path)@, final(errors)@), r)
            == dfs_result(
            *registry,
            search_view(old(visited)@, old(rec_stack)@, old(path)@, old(errors)@),
            id as int,
            fuel,
        ),
        search_state(*registry, final(visited)@, final(rec_stack)@, final(path)@, final(errors)@),
        forall|x: int| 0 <= x < registry.size() && old(visited)@[x] ==> final(visited)@[x],
        final(visited)@[id as int],
        final(errors)@.len() >= old(errors)@.len(),
        forall|k: int| 0 <= k < old(errors)@.len() ==> final(errors)@[k] == old(errors)@[k],
        r ==> final(errors)@.len() > 0,
        !r ==> {
            &&& final(errors)@ == old(errors)@
            &&& final(path)@ == old(path)@
            &&& final(rec_stack)@ == old(rec_stack)@
        },
        !r && old(errors)@.len() == 0 ==> {
            &&& clean_state(*registry, final(visited)@, final(rec_stack)@)
            &&& finished(final(visited)@, final(rec_stack)@, id as int)
        },
    decreases count_flag(old(visited)@, false), 0int, 0int,
{
    proof {
        registry.lemma_wf();
        lemma_push(*registry, visited@, rec_stack@, path@, errors@, id, errors@.len() == 0);
    }
    let ghost clean = errors@.len() == 0;
    visited.set(id, true);
    rec_stack.set(id, true);
    path.push(id);
    let ghost total = entry_total(registry.mods()) as int;
    proof {
        lemma_count_strict(old(visited)@, visited@, id as int);
        lemma_need_dfs(*registry, visited@, old(visited)@);
        lemma_entry_total(registry.mods(), id as int);
    }
    let handle = DefHandle::<ModInfo>::from_index(id);
    let mod_info = match registry.get(handle) {
        Some(m) => m,
        None => {
            assert(false);
            return false;
        },
    };
    let ghost m = registry.mods()[id as int];
    let deps = mod_info.dependencies();
    let optional = mod_info.optional_dependencies();
    proof {
        assert(handle@ == id + 1);
        assert(*mod_info == m);
        assert(deps@ == m.meta().dependencies@);
        assert(optional@ == m.meta().optional_dependencies@);
        assert forall|j: int| 0 <= j < deps@.len() implies registry.ids_view().contains(
            (#[trigger] deps@[j]).0@,
        ) by {
            assert(deps@[j] == registry.mods()[id as int].meta().dependencies@[j]);
        }
    }
    proof {
        lemma_dfs_unfold(
            *registry,
            search_view(old(visited)@, old(rec_stack)@, old(path)@, old(errors)@),
            id as int,
            fuel,
        );
    }
    let ghost v1 = visited@;
    let ghost st1 = search_view(visited@, rec_stack@, path@, errors@);
    proof {
        reveal(search_view);
        assert(st1 == (old(visited)@.update(id as int, true), old(rec_stack)@.update(id as int, true), old(path)@.push(id), errors_ids(old(errors)@)));
    }
    if visit_deps(id, deps, true, registry, visited, rec_stack, path, errors, Ghost((fuel - 1) as nat)) {
        return true;
    }
    let ghost v2 = visited@;
    let ghost st2 = search_view(visited@, rec_stack@, path@, errors@);
    proof {
        lemma_count_mono(v1, v2);
        lemma_need_mono(*registry, v2, v1);
    }
    if visit_deps(id, optional, false, registry, visited, rec_stack, path, errors, Ghost((fuel - 1) as nat)) {
        return true;
    }
    proof {
        if clean {
            lemma_deps_finished(*registry, id, visited@, rec_stack@, v2);
            lemma_finish(*registry, visited@, rec_stack@, id);
        }
        assert(!old(path)@.contains(id)) by {
            assert(!old(rec_stack)@[id as int]);
        }
    }
    path.pop();
    rec_stack.set(id, false);
    proof {
        assert(path@ =~= old(path)@);
        assert(rec_stack@ =~= old(rec_stack)@);
    }
    false
}


/// Searches the dependency graph of the enabled mods for cycles, depth first
/// from each enabled mod in handle order. Each search that meets a mod still
/// on its path reports the path from that mod as a circular dependency and
/// stops there, leaving the path and the marks as they are for the searches
/// that follow; `found_cycles` states the reports of the whole search.
pub fn detect_cycles(registry: &ModRegistry) -> (r: Result<(), Vec<ModValidationError>>)
    requires
        registry.wf(),
        required_deps_registered(*registry),
    ensures
        r is Ok <==> acyclic(*registry),
        r matches Err(errors) ==> {
            &&& errors@.len() > 0
            &&& reports_cycle(*registry, errors@[0])
            &&& forall|k: int| 0 <= k < errors@.len() ==> is_circular(#[trigger] errors@[k])
            &&& errors_ids(errors@) == found_cycles(*registry)
            &&& forall|k: int|
                0 <= k < errors@.len() ==> (#[trigger] error_ids(errors@[k])).no_duplicates()
        },
        r is Ok ==> found_cycles(*registry).len() == 0,
{
    proof {
        registry.lemma_wf();
    }
    let n = registry.len();
    let mut visited: Vec<bool> = Vec::new();
    let mut rec_stack: Vec<bool> = Vec::new();
    let mut path: Vec<usize> = Vec::new();
    let mut errors: Vec<ModValidationError> = Vec::new();
    let mut i: usize = 0;
    while i < n
        invariant
            n == registry.size(),
            i <= n,
            visited@.len() == i,
            rec_stack@.len() == i,
            forall|x: int| 0 <= x < i ==> !(#[trigger] visited@[x]),
            forall|x: int| 0 <= x < i ==> !(#[trigger] rec_stack@[x]),
        decreases n - i,
    {
        visited.push(false);
        rec_stack.push(false);
        i = i + 1;
    }
    proof {
        assert(path@.len() == 0);
        assert forall|x: int| 0 <= x < n implies (rec_stack@[x] <==> path@.contains(x as usize)) by {
            assert(!rec_stack@[x]);
        }
        assert(search_state(*registry, visited@, rec_stack@, path@, errors@));
        assert(is_chain(*registry, path@));
        assert(errors_ids(errors@) =~= Seq::<Seq<Seq<char>>>::empty());
        assert(visited@ =~= initial_search(*registry).0);
        assert(rec_stack@ =~= initial_search(*registry).1);
        assert(search_view(visited@, rec_stack@, path@, errors@) == initial_search(*registry)) by {
            reveal(search_view);
        }
    }
    let ghost fuel = search_fuel(*registry);
    let ghost total = entry_total(registry.mods()) as int;
    let mut i: usize = 0;
    while i < n
        invariant
            registry.wf(),
            required_deps_registered(*registry),
            n == registry.size(),
            registry.size() <= u32::MAX,
            i <= n,
            search_state(*registry, visited@, rec_stack@, path@, errors@),
            fuel == search_fuel(*registry),
            total == entry_total(registry.mods()),
            found_cycles(*registry) == search_from(
                *registry,
                search_view(visited@, rec_stack@, path@, errors@),
                i as int,
                fuel,
            ).3,
            errors@.len() == 0 ==> {
                &&& path@.len() == 0
                &&& clean_state(*registry, visited@, rec_stack@)
                &&& forall|x: int|
                    0 <= x < i && registry.enabled_view()[x] ==> finished(
                        visited@,
                        rec_stack@,
                        x,
                    )
            },
        decreases n - i,
    {
        proof {
            lemma_search_view(visited@, rec_stack@, path@, errors@);
        }
        let handle = DefHandle::<ModInfo>::from_index(i);
        if registry.is_enabled(handle) && !visited[i] {
            proof {
                assert(handle@ == i + 1);
            }
            let ghost v0 = visited@;
            let ghost r0 = rec_stack@;
            proof {
                lemma_need_bound(*registry, visited@);
            }
            dfs(i, registry, &mut visited, &mut rec_stack, &mut path, &mut errors, Ghost(fuel));
            proof {
                if errors@.len() == 0 {
                    assert forall|x: int|
                        0 <= x < i + 1 && registry.enabled_view()[x] implies finished(
                        visited@,
                        rec_stack@,
                        x,
                    ) by {
                        if x < i {
                            assert(finished(v0, r0, x));
                        }
                    }
                }
            }
        } else {
            proof {
                if errors@.len() == 0 {
                    assert forall|x: int|
                        0 <= x < i + 1 && registry.enabled_view()[x] implies finished(
                        visited@,
                        rec_stack@,
                        x,
                    ) by {
                        if x == i {
                            assert(handle@ == i + 1);
                            assert(visited@[x]);
                            assert(!path@.contains(x as usize));
                        }
                    }
                }
            }
        }
        i = i + 1;
    }
    proof {
        lemma_search_view(visited@, rec_stack@, path@, errors@);
    }
    if errors.len() == 0 {
        proof {
            assert forall|c: Seq<int>| !is_cycle(*registry, c) by {
                if is_cycle(*registry, c) {
                    assert(depends(*registry, c[c.len() - 1], c[0]));
                    assert(finished(visited@, rec_stack@, c[0]));
                }
            }
        }
        Ok(())
    } else {
        proof {
            assert(reports_cycle(*registry, errors@[0]));
        }
        Err(errors)
    }
}

// ---------------------------------------------------------------------------
// The validation stage
// ---------------------------------------------------------------------------

/// The flags `enabled` with the mod of every id among `names` turned off.
pub open spec fn without(
    enabled: Seq<bool>,
    ids: Seq<Seq<char>>,
    names: Seq<Seq<char>>,
) -> Seq<bool> {
    Seq::new(enabled.len(), |k: int| enabled[k] && !names.contains(ids[k]))
}

/// The views of a sequence of errors.
pub open spec fn error_views(es: Seq<ModValidationError>) -> Seq<ErrorView> {
    es.map_values(|e: ModValidationError| e@)
}

/// Disables the mods that the errors involve.
pub fn disable_involved(mods: &mut ModRegistry, errors: &Vec<ModValidationError>)
    requires
        old(mods).wf(),
    ensures
        final(mods).wf(),
        final(mods).mods() == old(mods).mods(),
        final(mods).ids_view() == old(mods).ids_view(),
        final(mods).order() == old(mods).order(),
        final(mods).enabled_view() == without(
            old(mods).enabled_view(),
            old(mods).ids_view(),
            errors_mods(error_views(errors@)),
        ),
{
    proof {
        old(mods).lemma_wf();
    }
    let ghost enabled0 = mods.enabled_view();
    let ghost ids = mods.ids_view();
    let mut i: usize = 0;
    while i < errors.len()
        invariant
            mods.wf(),
            mods.mods() == old(mods).mods(),
            mods.ids_view() == ids,
            ids == old(mods).ids_view(),
            mods.order() == old(mods).order(),
            enabled0 == old(mods).enabled_view(),
            enabled0.len() == ids.len(),
            i <= errors@.len(),
            mods.enabled_view() == without(
                enabled0,
                ids,
                errors_mods(error_views(errors@.take(i as int))),
            ),
        decreases errors@.len() - i,
    {
        let segments = errors[i].mods();
        let ghost names0 = errors_mods(error_views(errors@.take(i as int)));
        let ghost segs = segments@.map_values(|d: &DefId| d@);
        let mut j: usize = 0;
        while j < segments.len()
            invariant
                mods.wf(),
                mods.mods() == old(mods).mods(),
                mods.ids_view() == ids,
                mods.order() == old(mods).order(),
                enabled0.len() == ids.len(),
                j <= segments@.len(),
                segs == segments@.map_values(|d: &DefId| d@),
                mods.enabled_view() == without(enabled0, ids, names0 + segs.take(j as int)),
            decreases segments@.len() - j,
        {
            let ghost before = mods.enabled_view();
            let ghost mb = *mods;
            proof {
                mods.lemma_wf();
            }
            mods.disable(segments[j]);
            proof {
                let names = names0 + segs.take(j + 1);
                let old_names = names0 + segs.take(j as int);
                let seg = segs[j as int];
                assert(seg == segments@[j as int]@);
                assert(segs.take(j + 1) =~= segs.take(j as int).push(seg));
                assert(names =~= old_names.push(seg));
                assert forall|k: int| 0 <= k < enabled0.len() implies mods.enabled_view()[k]
                    == (enabled0[k] && !names.contains(ids[k])) by {
                    assert(before[k] == (enabled0[k] && !old_names.contains(ids[k])));
                    if ids[k] == seg {
                        assert(mb.has_id_at(seg, k));
                        assert(mods.enabled_view() == before.update(k, false));
                        assert(names[names.len() - 1] == ids[k]);
                    } else {
                        if ids.contains(seg) {
                            let c = choose|c: int| 0 <= c < ids.len() && ids[c] == seg;
                            assert(mb.has_id_at(seg, c));
                            assert(mods.enabled_view() == before.update(c, false));
                        } else {
                            assert(mods.enabled_view() == before);
                        }
                        if names.contains(ids[k]) {
                            let p = choose|p: int| 0 <= p < names.len() && names[p] == ids[k];
                            assert(p < old_names.len());
                            assert(old_names[p] == ids[k]);
                        }
                        if old_names.contains(ids[k]) {
                            let p = choose|p: int| 0 <= p < old_names.len() && old_names[p] == ids[k];
                            assert(names[p] == ids[k]);
                        }
                    }
                }
                mods.lemma_wf();
                assert(mods.enabled_view() =~= without(enabled0, ids, names));
            }
            j = j + 1;
        }
        proof {
            assert(segs.take(j as int) =~= segs);
            assert(error_views(errors@.take(i + 1)).drop_last() =~= error_views(errors@.take(i as int)));
            assert(error_views(errors@.take(i + 1)).last() == errors@[i as int]@);
        }
        i = i + 1;
    }
    proof {
        assert(errors@.take(i as int) =~= errors@);
    }
}

proof fn lemma_entry_errors_missing(
    reg: ModRegistry,
    a: int,
    entries: Seq<(DefId, String)>,
    k: int,
)
    requires
        0 <= k < entries.len(),
        !reg.ids_view().contains(entries[k].0@),
    ensures
        entry_errors(reg, a, entries, true).contains(mismatch(reg.ids_view()[a], entries[k], None)),
    decreases entries.len(),
{
    let e = entries.last();
    let rest = entry_errors(reg, a, entries.drop_last(), true);
    if k == entries.len() - 1 {
        assert(!exists|j: int| reg.has_id_at(e.0@, j) && reg.enabled_view()[j]) by {
            if exists|j: int| reg.has_id_at(e.0@, j) && reg.enabled_view()[j] {
                let j = choose|j: int| reg.has_id_at(e.0@, j) && reg.enabled_view()[j];
                assert(reg.ids_view()[j] == e.0@);
            }
        }
        assert(entry_errors(reg, a, entries, true) == rest.push(mismatch(reg.ids_view()[a], e, None)));
        assert(rest.push(mismatch(reg.ids_view()[a], e, None))[rest.len() as int] == mismatch(
            reg.ids_view()[a],
            e,
            None,
        ));
    } else {
        assert(entries.drop_last()[k] == entries[k]);
        lemma_entry_errors_missing(reg, a, entries.drop_last(), k);
        let i = choose|i: int| 0 <= i < rest.len() && rest[i] == mismatch(reg.ids_view()[a], entries[k], None);
        let full = entry_errors(reg, a, entries, true);
        assert(full.len() >= rest.len());
        assert(full[i] == rest[i]);
    }
}

proof fn lemma_upto_contains(reg: ModRegistry, count: int, a: int, err: ErrorView)
    requires
        0 <= a < count,
        reg.enabled_view()[a],
        mod_errors(reg, a).contains(err),
    ensures
        dependency_errors_upto(reg, count).contains(err),
    decreases count,
{
    let rest = dependency_errors_upto(reg, count - 1);
    let full = dependency_errors_upto(reg, count);
    if a == count - 1 {
        let i = choose|i: int| 0 <= i < mod_errors(reg, a).len() && mod_errors(reg, a)[i] == err;
        assert(full[rest.len() + i] == err);
    } else {
        lemma_upto_contains(reg, count - 1, a, err);
        let i = choose|i: int| 0 <= i < rest.len() && rest[i] == err;
        if reg.enabled_view()[count - 1] {
            assert(full[i] == err);
        }
    }
}

proof fn lemma_errors_mods_contains(es: Seq<ErrorView>, e: ErrorView, name: Seq<char>)
    requires
        es.contains(e),
        error_mods(e).contains(name),
    ensures
        errors_mods(es).contains(name),
    decreases es.len(),
{
    let head = errors_mods(es.drop_last());
    let full = errors_mods(es);
    if es.last() == e {
        let j = choose|j: int| 0 <= j < error_mods(e).len() && error_mods(e)[j] == name;
        assert(full[head.len() + j] == name);
    } else {
        let i = choose|i: int| 0 <= i < es.len() && es[i] == e;
        assert(es.drop_last()[i] == e);
        lemma_errors_mods_contains(es.drop_last(), e, name);
        let j = choose|j: int| 0 <= j < head.len() && head[j] == name;
        assert(full[j] == name);
    }
}

/// Once the mods that the dependency errors involve are disabled, every
/// required dependency of an enabled mod is registered.
proof fn lemma_required_registered(reg: ModRegistry, mid: ModRegistry)
    requires
        reg.wf(),
        mid.wf(),
        mid.mods() == reg.mods(),
        mid.ids_view() == reg.ids_view(),
        mid.enabled_view() == without(
            reg.enabled_view(),
            reg.ids_view(),
            errors_mods(dependency_errors(reg)),
        ),
    ensures
        required_deps_registered(mid),
{
    reg.lemma_wf();
    assert forall|a: int, k: int|
        0 <= a < mid.size() && mid.enabled_view()[a] && 0 <= k
            < mid.mods()[a].meta().dependencies@.len() implies mid.ids_view().contains(
        (#[trigger] mid.mods()[a].meta().dependencies@[k]).0@,
    ) by {
        let deps = reg.mods()[a].meta().dependencies@;
        if !reg.ids_view().contains(deps[k].0@) {
            let err = mismatch(reg.ids_view()[a], deps[k], None);
            lemma_entry_errors_missing(reg, a, deps, k);
            let i = choose|i: int|
                0 <= i < entry_errors(reg, a, deps, true).len() && entry_errors(reg, a, deps, true)[i]
                    == err;
            assert(mod_errors(reg, a)[i] == err);
            lemma_upto_contains(reg, reg.size(), a, err);
            assert(error_mods(err)[0] == reg.ids_view()[a]);
            lemma_errors_mods_contains(dependency_errors(reg), err, reg.ids_view()[a]);
        }
    }
}

/// Two registries with the same mods, ids and flags have the same
/// dependency graph.
proof fn lemma_same_graph(ra: ModRegistry, rb: ModRegistry)
    requires
        ra.mods() == rb.mods(),
        ra.ids_view() == rb.ids_view(),
        ra.enabled_view() == rb.enabled_view(),
    ensures
        forall|a: int, b: int| depends(ra, a, b) == depends(rb, a, b),
        acyclic(ra) == acyclic(rb),
        forall|s: Seq<int>| is_load_order(ra, s) == is_load_order(rb, s),
{
    assert forall|a: int, b: int| depends(ra, a, b) == depends(rb, a, b) by {}
    assert forall|c: Seq<int>| is_cycle(ra, c) == is_cycle(rb, c) by {}
    assert forall|s: Seq<int>| is_load_order(ra, s) == is_load_order(rb, s) by {
        assert forall|t: Seq<int>, x: int|
            crate::modding::load_order::ready(ra, t, x) == crate::modding::load_order::ready(
                rb,
                t,
                x,
            ) by {}
    }
}

/// What the validation stage reports: the errors of each of its three steps,
/// and the state to move to.
pub struct ValidationOutcome {
    /// Missing dependencies and unmet version requirements.
    pub dependency_errors: Vec<ModValidationError>,
    /// Circular dependencies among the mods left enabled.
    pub cycle_errors: Vec<ModValidationError>,
    /// The failure to order the mods left enabled.
    pub order_errors: Vec<ModValidationError>,
    /// `Register` when a load order was found; no change otherwise.
    pub next_state: Option<ModLoadState>,
}

/// What `detect_cycles` promises of the errors it returns on `reg`.
pub open spec fn cycle_report(reg: ModRegistry, errors: Seq<ModValidationError>) -> bool {
    &&& errors.len() == 0 <==> acyclic(reg)
    &&& errors.len() > 0 ==> reports_cycle(reg, errors[0])
    &&& forall|k: int| 0 <= k < errors.len() ==> is_circular(#[trigger] errors[k])
    &&& errors.len() > 0 ==> errors_ids(errors) == found_cycles(reg)
    &&& forall|k: int| 0 <= k < errors.len() ==> (#[trigger] error_ids(errors[k])).no_duplicates()
}

/// The validation stage: checks the dependencies and disables the mods with
/// errors, then looks for circular dependencies among the mods left enabled
/// and disables the mods of each reported cycle, then orders the mods left
/// enabled. When they can be ordered, the order becomes the load order and
/// the next state is `Register`.
pub fn validate_mods(mods: &mut ModRegistry) -> (r: ValidationOutcome)
    requires
        old(mods).wf(),
        dependency_counts_fit(*old(mods)),
    ensures
        final(mods).wf(),
        final(mods).mods() == old(mods).mods(),
        final(mods).ids_view() == old(mods).ids_view(),
        error_views(r.dependency_errors@) == dependency_errors(*old(mods)),
        exists|mid: ModRegistry|
            {
                &&& mid.wf()
                &&& mid.mods() == old(mods).mods()
                &&& mid.ids_view() == old(mods).ids_view()
                &&& mid.enabled_view() == without(
                    old(mods).enabled_view(),
                    old(mods).ids_view(),
                    errors_mods(dependency_errors(*old(mods))),
                )
                &&& cycle_report(mid, r.cycle_errors@)
                &&& final(mods).enabled_view() == without(
                    mid.enabled_view(),
                    mid.ids_view(),
                    errors_mods(error_views(r.cycle_errors@)),
                )
            },
        acyclic(*final(mods)) ==> {
            &&& r.order_errors@.len() == 0
            &&& r.next_state == Some(ModLoadState::Register)
            &&& is_load_order(*final(mods), handle_positions(final(mods).order()))
            &&& forall|x: int|
                0 <= x < final(mods).size() && final(mods).enabled_view()[x] ==> handle_positions(
                    final(mods).order(),
                ).contains(x)
        },
        !acyclic(*final(mods)) ==> {
            &&& r.order_errors@.len() == 1
            &&& r.order_errors@[0] matches ModValidationError::CircularDependency { cycle }
                && cycle@.len() == 0
            &&& r.next_state is None
            &&& final(mods).order() == old(mods).order()
        },
{
    let dep_errors = match validate_dependencies(mods) {
        Ok(()) => Vec::new(),
        Err(errors) => errors,
    };
    proof {
        if error_views(dep_errors@).len() == 0 {
            assert(error_views(dep_errors@) =~= dependency_errors(*old(mods)));
        }
    }
    disable_involved(mods, &dep_errors);
    let ghost mid = *mods;
    proof {
        lemma_required_registered(*old(mods), mid);
    }
    let cycle_errors = match detect_cycles(mods) {
        Ok(()) => Vec::new(),
        Err(errors) => errors,
    };
    disable_involved(mods, &cycle_errors);
    proof {
        assert(cycle_report(mid, cycle_errors@));
        assert(dependency_counts_fit(*mods));
    }
    match topological_sort(mods) {
        Ok(order) => {
            let ghost before = *mods;
            mods.set_load_order(order);
            proof {
                lemma_same_graph(*mods, before);
            }
            ValidationOutcome {
                dependency_errors: dep_errors,
                cycle_errors,
                order_errors: Vec::new(),
                next_state: Some(ModLoadState::Register),
            }
        },
        Err(order_errors) => {
            ValidationOutcome {
                dependency_errors: dep_errors,
                cycle_errors,
                order_errors,
                next_state: None,
            }
        },
    }
}

} // verus!
