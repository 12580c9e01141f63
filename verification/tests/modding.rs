use necrofactory::Config;
use necrofactory::modding::discovery::register_discovered;
use necrofactory::modding::load_order::topological_sort;
use necrofactory::modding::registry::{ModInfo, ModLoadState, ModMetadata, ModRegistry};
use necrofactory::modding::serialisation::Metadata;
use necrofactory::modding::types::{DefHandle, DefId, Registry};
use necrofactory::modding::validation::{
    ModValidationError, dependency_error, detect_cycles, disable_involved, validate_dependencies,
    validate_mods,
};
use necrofactory::modding::version::{check_requirement, parse_requirement, parse_version};

fn id(s: &str) -> DefId {
    DefId::new(s).unwrap()
}

fn meta(name: &str, version: &str, deps: &[(&str, &str)], optional: &[(&str, &str)]) -> ModMetadata {
    ModMetadata::from_raw(
        id(name),
        format!("{} Name", name),
        version.to_string(),
        "Someone".to_string(),
        Some(deps.iter().map(|(d, v)| (id(d), v.to_string())).collect()),
        Some(optional.iter().map(|(d, v)| (id(d), v.to_string())).collect()),
    )
}

fn registry_of(mods: &[(&str, &str, &[(&str, &str)], &[(&str, &str)])]) -> ModRegistry {
    let mut r = ModRegistry::new();
    for (name, version, deps, optional) in mods {
        r.register(id(name), ModInfo::new(format!("/mods/{}", name), meta(name, version, deps, optional)));
    }
    r
}

#[test]
fn def_id_validation() {
    assert!(DefId::is_valid_id("base"));
    assert!(DefId::is_valid_id("base::stone_2"));
    assert!(!DefId::is_valid_id(""));
    assert!(!DefId::is_valid_id("_base"));
    assert!(!DefId::is_valid_id("base_"));
    assert!(!DefId::is_valid_id("2base"));
    assert!(!DefId::is_valid_id("Base"));
    assert!(!DefId::is_valid_id("base::"));
    assert!(!DefId::is_valid_id("base:stone"));
    assert!(DefId::is_valid_qualified_id("base::stone"));
    assert!(!DefId::is_valid_qualified_id("base"));
    assert!(DefId::new("a-b").is_none());
    assert!(DefId::new_qualified("base").is_none());
    assert_eq!(DefId::new_qualified("a::b").unwrap().as_str(), "a::b");
}

#[test]
fn def_id_join_and_segments() {
    let joined = id("base").join(id("stone::red"));
    assert_eq!(joined.to_string(), "base::stone::red");
    assert!(DefId::is_valid_qualified_id(joined.as_str()));
    assert_eq!(joined.segments(), vec!["base".to_string(), "stone".to_string(), "red".to_string()]);
    assert_eq!(id("x").segments(), vec!["x".to_string()]);
}

#[test]
fn def_handles() {
    let h = DefHandle::<u8>::from_index(4);
    assert_eq!(h.get(), 5);
    assert_eq!(h.to_index(), 4);
    assert_eq!(DefHandle::<u8>::new(1).to_index(), 0);
    assert!(h == DefHandle::<u8>::new(5));
    assert!(h.clone() == h);
}

#[test]
fn registry_register_replace_and_lookup() {
    let mut r: Registry<u32> = Registry::default();
    assert!(r.is_empty());
    let a = r.register(id("a"), 10);
    let b = r.register(id("b"), 20);
    assert_eq!((a.get(), b.get()), (1, 2));
    let a2 = r.register(id("a"), 11);
    assert!(a2 == a);
    assert_eq!(r.len(), 2);
    assert_eq!(r.get(a), Some(&11));
    assert_eq!(r.get_by_id("b"), Some(&20));
    assert!(r.get_handle("c").is_none());
    assert_eq!(r.resolve(b).unwrap().as_str(), "b");
    assert!(r.contains(b));
    assert!(!r.contains(DefHandle::new(3)));
    assert!(r.contains_id("a"));
    assert_eq!(r.iter(), &[11, 20]);
    let with_ids: Vec<(String, u32)> =
        r.iter_with_id().into_iter().map(|(i, v)| (i.to_string(), *v)).collect();
    assert_eq!(with_ids, vec![("a".to_string(), 11), ("b".to_string(), 20)]);
    let handles: Vec<u32> = r.iter_with_handle().into_iter().map(|(h, _)| h.get()).collect();
    assert_eq!(handles, vec![1, 2]);
    assert_eq!(r.iter_with_id_handle().len(), 2);
    r.clear();
    assert_eq!(r.len(), 0);
    assert!(r.get(a).is_none());
}

#[test]
fn mod_registry_states_and_iteration() {
    let mut r = registry_of(&[("a", "1.0.0", &[], &[]), ("b", "1.0.0", &[], &[]), ("c", "1.0.0", &[], &[])]);
    assert_eq!(r.len(), 3);
    assert_eq!(r.len_enabled(), 3);
    r.disable(&id("b"));
    assert_eq!(r.len_enabled(), 2);
    assert_eq!(r.len_disabled(), 1);
    assert!(r.disabled_contains_id(&id("b")));
    assert!(!r.enabled_contains_id(&id("b")));
    assert!(r.get_enabled_by_id(&id("b")).is_none());
    assert_eq!(r.get_disabled_by_id(&id("b")).unwrap().name(), "b Name");
    assert!(r.get_handle_disabled(&id("b")).is_some());
    assert!(r.get_handle_enabled(&id("a")).is_some());
    let enabled: Vec<String> =
        r.iter_enabled_with_id().into_iter().map(|(i, _)| i.to_string()).collect();
    assert_eq!(enabled, vec!["a".to_string(), "c".to_string()]);
    let disabled: Vec<u32> =
        r.iter_disabled_with_handle().into_iter().map(|(h, _)| h.get()).collect();
    assert_eq!(disabled, vec![2]);
    assert_eq!(r.iter().len(), 3);
    assert_eq!(r.iter_enabled().len(), 2);
    assert_eq!(r.iter_disabled().len(), 1);
    assert_eq!(r.iter_with_id().len(), 3);
    assert_eq!(r.iter_disabled_with_id().len(), 1);
    assert_eq!(r.iter_with_handle().len(), 3);
    assert_eq!(r.iter_enabled_with_handle().len(), 2);
    assert_eq!(r.iter_with_id_handle().len(), 3);
    assert_eq!(r.iter_enabled_with_id_handle().len(), 2);
    assert_eq!(r.iter_disabled_with_id_handle()[0].1.to_string(), "b");
    r.enable(&id("b"));
    assert_eq!(r.len_enabled(), 3);
    let h = r.lookup(&id("c")).unwrap();
    assert!(r.is_enabled(h));
    assert_eq!(r.get_id(h).unwrap().to_string(), "c");
    assert_eq!(r.get(h).unwrap().id().to_string(), "c");
    assert!(r.contains(h));
    r.clear();
    assert_eq!(r.len(), 0);
}

#[test]
fn mod_registry_register_keeps_handle_and_state() {
    let mut r = registry_of(&[("a", "1.0.0", &[], &[])]);
    r.disable(&id("a"));
    let h = r.register(id("a"), ModInfo::new("/x".to_string(), meta("a", "2.0.0", &[], &[])));
    assert_eq!(h.get(), 1);
    assert_eq!(r.len(), 1);
    assert!(!r.is_enabled(h));
    assert_eq!(r.get(h).unwrap().version(), "2.0.0");
    assert_eq!(r.get(h).unwrap().path(), "/x");
}

#[test]
fn mod_info_describe() {
    let m = ModInfo::new(
        "/mods/a".to_string(),
        meta("a", "1.2.3", &[("b", "^1.0"), ("c", "*")], &[("d", ">=2")]),
    );
    assert_eq!(
        m.describe("a"),
        "a Name 1.2.3 by Someone; dependencies: b ^1.0, c *; optional dependencies: d >=2; path: mods/a;"
    );
    let plain = ModInfo::new("/mods/p".to_string(), meta("p", "0.1.0", &[], &[]));
    assert_eq!(plain.describe("p"), "p Name 0.1.0 by Someone; path: mods/p;");
    assert_eq!(plain.author(), "Someone");
    assert!(plain.dependencies().is_empty());
    assert!(plain.optional_dependencies().is_empty());
}

#[test]
fn metadata_from_raw_defaults_empty_tables() {
    let m = Metadata::from_raw(
        "a".to_string(),
        "A".to_string(),
        "1.0.0".to_string(),
        "me".to_string(),
        None,
        Some(vec![("b".to_string(), "^1".to_string())]),
    );
    assert!(m.dependencies.is_empty());
    assert_eq!(m.optional_dependencies.len(), 1);
    let mm = ModMetadata::from_raw(id("a"), "A".into(), "1".into(), "me".into(), None, None);
    assert!(mm.dependencies.is_empty() && mm.optional_dependencies.is_empty());
}

#[test]
fn semver_parsing() {
    assert!(parse_version("1.2.3").is_some());
    assert!(parse_version("1.2").is_none());
    assert!(parse_requirement("^1.2").is_some());
    assert!(parse_requirement("@1").is_none());
    assert_eq!(check_requirement("not a req", "1.0.0"), None);
    assert_eq!(check_requirement("^1", "one"), None);
    let q = parse_requirement(">=1.0, <2.0").unwrap();
    assert!(q.matches(&parse_version("1.9.9").unwrap()));
    assert!(!q.matches(&parse_version("2.0.0").unwrap()));
}

#[test]
fn dependency_error_outcomes() {
    let a = id("a");
    let b = id("b");
    let req = "^2.0".to_string();
    let missing = dependency_error(&a, &b, &req, true, None, None).unwrap();
    assert_eq!(missing.to_string(), "Mod 'a' requires 'b' version '^2.0', but it is not present");
    assert!(dependency_error(&a, &b, &req, false, None, None).is_none());
    let wrong = dependency_error(&a, &b, &req, false, Some("1.0.0"), Some(false)).unwrap();
    assert_eq!(wrong.to_string(), "Mod 'a' requires 'b' version '^2.0', but found version '1.0.0'");
    assert!(dependency_error(&a, &b, &req, true, Some("2.1.0"), Some(true)).is_none());
    // A requirement or version that does not parse gives no error.
    assert!(dependency_error(&a, &b, &req, true, Some("x"), None).is_none());
    assert_eq!(wrong.mods().len(), 1);
    assert_eq!(wrong.mods()[0].to_string(), "a");
}

#[test]
fn version_mismatch_is_reported_with_the_version_found() {
    let r = registry_of(&[("a", "1.0.0", &[("b", "^2.0")], &[]), ("b", "1.0.0", &[], &[])]);
    let errors = validate_dependencies(&r).unwrap_err();
    assert_eq!(errors.len(), 1);
    assert_eq!(errors[0].to_string(), "Mod 'a' requires 'b' version '^2.0', but found version '1.0.0'");
}

#[test]
fn optional_version_mismatch_is_reported() {
    let r = registry_of(&[("a", "1.0.0", &[], &[("b", "^2.0")]), ("b", "1.0.0", &[], &[])]);
    let errors = validate_dependencies(&r).unwrap_err();
    assert_eq!(errors.len(), 1);
    assert!(matches!(&errors[0], ModValidationError::VersionMismatch { found: Some(f), .. } if f == "1.0.0"));
}

#[test]
fn disabled_required_dependency_counts_as_missing() {
    let mut r = registry_of(&[("a", "1.0.0", &[("b", "^1.0")], &[]), ("b", "1.0.0", &[], &[])]);
    r.disable(&id("b"));
    let errors = validate_dependencies(&r).unwrap_err();
    assert!(matches!(&errors[0], ModValidationError::VersionMismatch { found: None, .. }));
    // A disabled mod is not checked itself.
    r.disable(&id("a"));
    assert!(validate_dependencies(&r).is_ok());
}

#[test]
fn unparsable_requirement_is_not_an_error() {
    let r = registry_of(&[("a", "1.0.0", &[("b", "not semver")], &[]), ("b", "1.0.0", &[], &[])]);
    assert!(validate_dependencies(&r).is_ok());
}

#[test]
fn errors_come_in_handle_order() {
    let r = registry_of(&[
        ("a", "1.0.0", &[("x", "^1")], &[]),
        ("b", "1.0.0", &[("y", "^1"), ("z", "^1")], &[]),
    ]);
    let errors = validate_dependencies(&r).unwrap_err();
    let deps: Vec<String> = errors
        .iter()
        .map(|e| match e {
            ModValidationError::VersionMismatch { dependency_id, .. } => dependency_id.to_string(),
            _ => String::new(),
        })
        .collect();
    assert_eq!(deps, vec!["x".to_string(), "y".to_string(), "z".to_string()]);
}

#[test]
fn cycle_through_optional_dependency() {
    let r = registry_of(&[("a", "1.0.0", &[], &[("b", "*")]), ("b", "1.0.0", &[("a", "*")], &[])]);
    let errors = detect_cycles(&r).unwrap_err();
    match &errors[0] {
        ModValidationError::CircularDependency { cycle } => {
            let ids: Vec<String> = cycle.iter().map(|d| d.to_string()).collect();
            assert_eq!(ids, vec!["a".to_string(), "b".to_string()]);
        }
        _ => panic!("expected a cycle"),
    }
    assert_eq!(errors[0].to_string(), "Circular dependency detected: a -> b");
    assert_eq!(errors[0].mods().len(), 2);
}

#[test]
fn disabled_mods_break_cycles() {
    let mut r = registry_of(&[("a", "1.0.0", &[("b", "*")], &[]), ("b", "1.0.0", &[("a", "*")], &[])]);
    r.disable(&id("b"));
    assert!(detect_cycles(&r).is_ok());
    let order = topological_sort(&r).unwrap();
    assert_eq!(order.len(), 1);
    assert_eq!(order[0].get(), 1);
}

#[test]
fn load_order_picks_lowest_handle_first() {
    let r = registry_of(&[
        ("c", "1.0.0", &[], &[]),
        ("b", "1.0.0", &[("c", "*")], &[]),
        ("a", "1.0.0", &[], &[]),
    ]);
    let order: Vec<u32> = topological_sort(&r).unwrap().iter().map(|h| h.get()).collect();
    assert_eq!(order, vec![1, 2, 3]);
    let r2 = registry_of(&[
        ("b", "1.0.0", &[("a", "*")], &[]),
        ("a", "1.0.0", &[], &[]),
        ("c", "1.0.0", &[], &[]),
    ]);
    let order2: Vec<u32> = topological_sort(&r2).unwrap().iter().map(|h| h.get()).collect();
    assert_eq!(order2, vec![2, 1, 3]);
}

#[test]
fn validate_mods_success_sets_load_order() {
    let mut r = registry_of(&[("a", "1.0.0", &[("b", "^1.0")], &[]), ("b", "1.0.0", &[], &[])]);
    let outcome = validate_mods(&mut r);
    assert!(outcome.dependency_errors.is_empty());
    assert!(outcome.cycle_errors.is_empty());
    assert!(outcome.order_errors.is_empty());
    assert_eq!(outcome.next_state, Some(ModLoadState::Register));
    let order: Vec<u32> = r.load_order.iter().map(|h| h.get()).collect();
    assert_eq!(order, vec![2, 1]);
}

#[test]
fn validate_mods_disables_mods_with_errors() {
    let mut r = registry_of(&[
        ("a", "1.0.0", &[("missing", "^1.0")], &[]),
        ("b", "1.0.0", &[("c", "*")], &[]),
        ("c", "1.0.0", &[("b", "*")], &[]),
        ("d", "1.0.0", &[], &[]),
    ]);
    let outcome = validate_mods(&mut r);
    assert_eq!(outcome.dependency_errors.len(), 1);
    assert_eq!(outcome.cycle_errors.len(), 1);
    assert!(outcome.order_errors.is_empty());
    assert_eq!(outcome.next_state, Some(ModLoadState::Register));
    assert!(!r.enabled_contains_id(&id("a")));
    assert!(!r.enabled_contains_id(&id("b")));
    assert!(!r.enabled_contains_id(&id("c")));
    let order: Vec<u32> = r.load_order.iter().map(|h| h.get()).collect();
    assert_eq!(order, vec![4]);
}

#[test]
fn disable_involved_disables_each_named_mod() {
    let mut r = registry_of(&[("a", "1.0.0", &[], &[]), ("b", "1.0.0", &[], &[]), ("c", "1.0.0", &[], &[])]);
    let errors = vec![
        ModValidationError::CircularDependency { cycle: vec![id("a"), id("c")] },
        ModValidationError::VersionMismatch {
            mod_id: id("zzz"),
            dependency_id: id("a"),
            required: "*".to_string(),
            found: None,
        },
    ];
    disable_involved(&mut r, &errors);
    assert_eq!(r.len_enabled(), 1);
    assert!(r.enabled_contains_id(&id("b")));
}

#[test]
fn discovering_mods_follows_the_settings() {
    let mut r = ModRegistry::new();
    let mut config = Config::default();
    assert_eq!(config.max_concurrent_io, 10);
    config.disabled_mods.push(id("off"));
    config.enabled_mods.push(id("on"));
    let info = |name: &str| ModInfo::new(format!("/mods/{}", name), meta(name, "1.0.0", &[], &[]));
    register_discovered(&mut r, &mut config, info("off"));
    register_discovered(&mut r, &mut config, info("on"));
    register_discovered(&mut r, &mut config, info("new"));
    assert!(r.disabled_contains_id(&id("off")));
    assert!(r.enabled_contains_id(&id("on")));
    assert!(r.enabled_contains_id(&id("new")));
    let enabled: Vec<String> = config.enabled_mods.iter().map(|d| d.to_string()).collect();
    assert_eq!(enabled, vec!["on".to_string(), "new".to_string()]);
    // Discovering it again adds nothing.
    register_discovered(&mut r, &mut config, info("new"));
    assert_eq!(config.enabled_mods.len(), 2);
    assert_eq!(r.len(), 3);
}

#[test]
fn mod_registry_get_mut_replaces_in_place() {
    let mut r = registry_of(&[("a", "1.0.0", &[], &[]), ("b", "1.0.0", &[], &[])]);
    r.disable(&id("b"));
    let h = r.lookup(&id("a")).unwrap();
    *r.get_mut(h).unwrap() = ModInfo::new("/y".to_string(), meta("a", "3.0.0", &[], &[]));
    assert_eq!(r.get(h).unwrap().version(), "3.0.0");
    assert!(r.get_mut(DefHandle::new(3)).is_none());
    assert!(r.get_disabled_by_id_mut(&id("a")).is_none());
    assert!(r.get_enabled_by_id_mut(&id("b")).is_none());
    *r.get_disabled_by_id_mut(&id("b")).unwrap() =
        ModInfo::new("/z".to_string(), meta("b", "0.1.0", &[], &[]));
    assert_eq!(r.get_by_id(&id("b")).unwrap().path(), "/z");
    assert_eq!(r.get_enabled_by_id_mut(&id("a")).unwrap().path(), "/y");
    assert_eq!(r.len_enabled(), 1);
}

#[test]
fn def_handles_compare_as_their_values() {
    let a = DefHandle::<ModInfo>::new(1);
    let b = DefHandle::<ModInfo>::from_index(1);
    assert!(a < b);
    assert!(b > a);
    assert_eq!(a.partial_cmp(&b), Some(std::cmp::Ordering::Less));
    assert_eq!(b.partial_cmp(&DefHandle::new(2)), Some(std::cmp::Ordering::Equal));
}

#[test]
fn dependency_tables_hold_each_id_once() {
    let m = ModMetadata::from_raw(
        id("a"),
        "A".to_string(),
        "1.0.0".to_string(),
        "Someone".to_string(),
        Some(vec![
            (id("b"), "^1".to_string()),
            (id("c"), "^2".to_string()),
            (id("b"), "^3".to_string()),
        ]),
        None,
    );
    let deps: Vec<(String, String)> =
        m.dependencies.iter().map(|(d, v)| (d.to_string(), v.clone())).collect();
    assert_eq!(deps, vec![("b".to_string(), "^3".to_string()), ("c".to_string(), "^2".to_string())]);
    assert!(m.optional_dependencies.is_empty());

    let mut raw = meta("x", "1.0.0", &[], &[]);
    raw.optional_dependencies = vec![(id("y"), "^1".to_string()), (id("y"), "^2".to_string())];
    let info = ModInfo::new("/x".to_string(), raw);
    assert_eq!(info.optional_dependencies().len(), 1);
    assert_eq!(info.optional_dependencies()[0].1, "^2");

    let text = Metadata::from_raw(
        "a".to_string(),
        "A".to_string(),
        "1.0.0".to_string(),
        "Someone".to_string(),
        Some(vec![("b".to_string(), "^1".to_string()), ("b".to_string(), "^2".to_string())]),
        Some(vec![]),
    );
    assert_eq!(text.dependencies, vec![("b".to_string(), "^2".to_string())]);
}

#[test]
fn registry_reregistering_keeps_the_count() {
    let mut r: Registry<u32> = Registry::new();
    r.register(id("a"), 1);
    r.register(id("b"), 2);
    let h = r.register(id("a"), 3);
    assert_eq!(r.len(), 2);
    assert_eq!(h.get(), 1);
    assert_eq!(r.get(h), Some(&3));
    assert_eq!(r.get_handle("b").unwrap().get(), 2);
}
