use necrofactory::modding::load_order::topological_sort;
use necrofactory::modding::registry::{ModInfo, ModMetadata, ModRegistry};
use necrofactory::modding::types::DefId;
use necrofactory::modding::validation::{
    ModValidationError, detect_cycles, validate_dependencies,
};
use necrofactory::modding::version::check_requirement;

/// Builds a registry of enabled mods, each at version 1.0.0.
fn create_registry(mods: Vec<(&str, Vec<(&str, &str)>, Vec<(&str, &str)>)>) -> ModRegistry {
    let mut registry = ModRegistry::default();
    for (id, deps, optional_deps) in mods {
        let mod_info = ModInfo::new(
            format!("/mod/{}", id),
            ModMetadata {
                id: DefId::new(id).unwrap(),
                name: format!("{} Name", id),
                version: "1.0.0".to_string(),
                author: "Test Author".to_string(),
                dependencies: deps
                    .into_iter()
                    .map(|(dep, ver)| (DefId::new(dep).unwrap(), ver.to_string()))
                    .collect(),
                optional_dependencies: optional_deps
                    .into_iter()
                    .map(|(dep, ver)| (DefId::new(dep).unwrap(), ver.to_string()))
                    .collect(),
            },
        );
        registry.register(DefId::new(id).unwrap(), mod_info);
    }
    registry
}

/// The cycle of the first circular-dependency error, as strings.
fn extract_cycle(errors: &[ModValidationError]) -> Option<Vec<String>> {
    for error in errors {
        if let ModValidationError::CircularDependency { cycle } = error {
            return Some(cycle.iter().map(|s| s.to_string()).collect());
        }
    }
    None
}

fn id(s: &str) -> DefId {
    DefId::new(s).unwrap()
}

#[test]
fn test_validate_dependencies_success() {
    let mut registry = create_registry(vec![
        ("mod_a", vec![("mod_b", "^1.0")], vec![]),
        ("mod_b", vec![], vec![]),
    ]);

    let mod_b_info = registry.get_by_id(&id("mod_b")).unwrap().clone();
    registry.register(id("mod_b"), mod_b_info);

    let result = validate_dependencies(&registry);
    assert!(result.is_ok());
}

#[test]
fn test_validate_dependencies_missing_required() {
    let registry = create_registry(vec![("mod_a", vec![("mod_b", "^1.0")], vec![])]);

    let result = validate_dependencies(&registry);
    assert!(matches!(
        result,
        Err(errors) if errors.len() == 1 && matches!(&errors[0],
            ModValidationError::VersionMismatch { mod_id, dependency_id, required, found: None }
            if mod_id.to_string() == "mod_a" && dependency_id.to_string() == "mod_b" && required == "^1.0"
        )
    ));
}

#[test]
fn test_validate_optional_dependencies_missing() {
    let registry = create_registry(vec![("mod_a", vec![], vec![("mod_b", "^1.0")])]);

    let result = validate_dependencies(&registry);
    assert!(result.is_ok());
}

#[test]
fn test_detect_cycles_no_cycle() {
    let registry = create_registry(vec![
        ("mod_a", vec![("mod_b", "^1.0")], vec![]),
        ("mod_b", vec![("mod_c", "^1.0")], vec![]),
        ("mod_c", vec![], vec![]),
    ]);

    let result = detect_cycles(&registry);
    assert!(result.is_ok());
}

#[test]
fn test_detect_cycles_simple_cycle() {
    let registry = create_registry(vec![
        ("mod_a", vec![("mod_b", "^1.0")], vec![]),
        ("mod_b", vec![("mod_c", "^1.0")], vec![]),
        ("mod_c", vec![("mod_a", "^1.0")], vec![]),
    ]);

    let result = detect_cycles(&registry);
    assert!(matches!(
        result,
        Err(errors) if matches!(extract_cycle(&errors), Some(cycle) if cycle.len() == 3)
    ));
}

#[test]
fn test_detect_cycles_self_reference() {
    let registry = create_registry(vec![("mod_a", vec![("mod_a", "^1.0")], vec![])]);

    let result = detect_cycles(&registry);
    assert!(matches!(
        result,
        Err(errors) if matches!(extract_cycle(&errors), Some(cycle) if cycle.len() == 1)
    ));
}

#[test]
fn test_topological_sort_simple() {
    let registry = create_registry(vec![
        ("mod_c", vec![("mod_a", "^1.0")], vec![]),
        ("mod_b", vec![("mod_a", "^1.0")], vec![]),
        ("mod_a", vec![], vec![]),
    ]);

    let result = topological_sort(&registry);
    assert!(result.is_ok());

    let order = result.unwrap();
    let mod_a_id = registry.lookup(&id("mod_a")).unwrap();
    let mod_b_id = registry.lookup(&id("mod_b")).unwrap();
    let mod_c_id = registry.lookup(&id("mod_c")).unwrap();

    let mod_a_pos = order.iter().position(|&h| h == mod_a_id).unwrap();
    let mod_b_pos = order.iter().position(|&h| h == mod_b_id).unwrap();
    let mod_c_pos = order.iter().position(|&h| h == mod_c_id).unwrap();

    assert!(mod_a_pos < mod_b_pos);
    assert!(mod_a_pos < mod_c_pos);
}

#[test]
fn test_topological_sort_with_cycle() {
    let registry = create_registry(vec![
        ("mod_a", vec![("mod_b", "^1.0")], vec![]),
        ("mod_b", vec![("mod_c", "^1.0")], vec![]),
        ("mod_c", vec![("mod_a", "^1.0")], vec![]),
    ]);

    let result = topological_sort(&registry);
    assert!(matches!(
        result,
        Err(errors) if matches!(errors.first(), Some(ModValidationError::CircularDependency { .. }))
    ));
}

#[test]
fn test_validation_error_display_version_mismatch() {
    let error = ModValidationError::VersionMismatch {
        mod_id: id("mod_a"),
        dependency_id: id("mod_b"),
        required: "^1.0".to_string(),
        found: None,
    };

    let expected = "Mod 'mod_a' requires 'mod_b' version '^1.0', but it is not present";
    assert_eq!(error.to_string(), expected);

    let error_with_found = ModValidationError::VersionMismatch {
        mod_id: id("mod_a"),
        dependency_id: id("mod_b"),
        required: "^2.0".to_string(),
        found: Some("1.0.0".to_string()),
    };

    let expected = "Mod 'mod_a' requires 'mod_b' version '^2.0', but found version '1.0.0'";
    assert_eq!(error_with_found.to_string(), expected);
}

#[test]
fn test_validation_error_display_circular_dependency() {
    let error = ModValidationError::CircularDependency {
        cycle: vec![id("a"), id("b"), id("c")],
    };

    let expected = "Circular dependency detected: a -> b -> c";
    assert_eq!(error.to_string(), expected);
}

#[test]
fn test_complex_dependency_graph() {
    // A -> B, C
    // B -> D
    // C -> D, E
    // D -> E
    // E -> (none)
    let registry = create_registry(vec![
        ("mod_a", vec![("mod_b", "^1.0"), ("mod_c", "^1.0")], vec![]),
        ("mod_b", vec![("mod_d", "^1.0")], vec![]),
        ("mod_c", vec![("mod_d", "^1.0"), ("mod_e", "^1.0")], vec![]),
        ("mod_d", vec![("mod_e", "^1.0")], vec![]),
        ("mod_e", vec![], vec![]),
    ]);

    assert!(detect_cycles(&registry).is_ok());
    assert!(validate_dependencies(&registry).is_ok());

    let order = topological_sort(&registry).unwrap();
    let e_id = registry.lookup(&id("mod_e")).unwrap();
    let d_id = registry.lookup(&id("mod_d")).unwrap();
    let c_id = registry.lookup(&id("mod_c")).unwrap();
    let b_id = registry.lookup(&id("mod_b")).unwrap();
    let a_id = registry.lookup(&id("mod_a")).unwrap();

    let e_pos = order.iter().position(|&h| h == e_id).unwrap();
    let d_pos = order.iter().position(|&h| h == d_id).unwrap();
    let c_pos = order.iter().position(|&h| h == c_id).unwrap();
    let b_pos = order.iter().position(|&h| h == b_id).unwrap();
    let a_pos = order.iter().position(|&h| h == a_id).unwrap();

    assert!(e_pos < d_pos);
    assert!(e_pos < c_pos);
    assert!(e_pos < b_pos);
    assert!(e_pos < a_pos);

    assert!(d_pos < c_pos);
    assert!(d_pos < a_pos);

    assert!(b_pos < a_pos);
    assert!(c_pos < a_pos);
}

#[test]
fn test_version_requirements() {
    let tests = vec![
        ("1.0.0", "^1.0", true),
        ("1.5.0", "^1.0", true),
        ("2.0.0", "^1.0", false),
        ("1.0.0", "~1.0", true),
        ("1.0.5", "~1.0", true),
        ("1.1.0", "~1.0", false),
        ("1.0.0", ">=1.0.0", true),
        ("2.0.0", ">=1.0.0", true),
        ("0.9.0", ">=1.0.0", false),
        ("1.0.0", "<2.0.0", true),
        ("1.5.0", "<2.0.0", true),
        ("2.0.0", "<2.0.0", false),
    ];

    for (version, req, should_match) in tests {
        assert_eq!(
            check_requirement(req, version),
            Some(should_match),
            "Version {} with requirement {} should {} match",
            version,
            req,
            if should_match { "match" } else { "not match" }
        );
    }
}

/// The cycles of all circular-dependency errors, as strings.
fn all_cycles(errors: &[ModValidationError]) -> Vec<Vec<String>> {
    errors
        .iter()
        .filter_map(|error| match error {
            ModValidationError::CircularDependency { cycle } => {
                Some(cycle.iter().map(|s| s.to_string()).collect())
            }
            _ => None,
        })
        .collect()
}

#[test]
fn detect_cycles_later_search_keeps_the_path_of_a_reported_cycle() {
    let registry = create_registry(vec![
        ("mod_a", vec![("mod_b", "^1.0")], vec![]),
        ("mod_b", vec![("mod_a", "^1.0")], vec![]),
        ("mod_c", vec![("mod_a", "^1.0")], vec![]),
    ]);
    let errors = detect_cycles(&registry).unwrap_err();
    assert_eq!(
        all_cycles(&errors),
        vec![
            vec!["mod_a".to_string(), "mod_b".to_string()],
            vec!["mod_a".to_string(), "mod_b".to_string(), "mod_c".to_string()],
        ]
    );
}

#[test]
fn detect_cycles_reports_each_mod_of_a_cycle_once() {
    let registry = create_registry(vec![
        ("mod_a", vec![("mod_b", "^1.0")], vec![]),
        ("mod_b", vec![("mod_c", "^1.0")], vec![]),
        ("mod_c", vec![("mod_a", "^1.0")], vec![]),
    ]);
    let errors = detect_cycles(&registry).unwrap_err();
    assert_eq!(
        all_cycles(&errors),
        vec![vec!["mod_a".to_string(), "mod_b".to_string(), "mod_c".to_string()]]
    );
}
