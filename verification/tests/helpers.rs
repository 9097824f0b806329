//! Path helpers, unit configuration and analysis options.

use callgraph::cargo::{CargoConfig, WorkspaceAnalyzer};
use callgraph::utils::{extract_crate_name, format_module_path, is_example_module,
    is_test_module};
use callgraph::workspace::AnalysisConfig;

#[test]
fn module_paths_join_with_double_colons() {
    let parts = vec!["a".to_string(), "b".to_string(), "c".to_string()];
    assert_eq!(format_module_path(&parts), "a::b::c");
    let empty: Vec<String> = vec![];
    assert_eq!(format_module_path(&empty), "");
    let one = vec!["solo".to_string()];
    assert_eq!(format_module_path(&one), "solo");
}

#[test]
fn crate_name_is_the_leading_segment() {
    assert_eq!(extract_crate_name("alpha::beta::gamma"), "alpha");
    assert_eq!(extract_crate_name("plain"), "plain");
    assert_eq!(extract_crate_name(""), "");
    assert_eq!(extract_crate_name("::x"), "");
}

#[test]
fn test_module_names_are_recognized() {
    assert!(is_test_module("crate::tests::helpers"));
    assert!(is_test_module("test_runner"));
    assert!(is_test_module("parser_test"));
    assert!(!is_test_module("testimony_reader"));
    assert!(!is_test_module("attested"));
}

#[test]
fn example_module_names_are_recognized() {
    assert!(is_example_module("examples"));
    assert!(is_example_module("example_basic"));
    assert!(is_example_module("render_example"));
    assert!(!is_example_module("exemplar"));
}

#[test]
fn manifest_facts_become_a_unit_configuration() {
    let cfg = CargoConfig::from_manifest(
        "/w/app",
        Some("app".to_string()),
        false,
        true,
        true,
        vec!["petgraph".to_string()],
    );
    assert_eq!(cfg.name, "app");
    assert_eq!(cfg.src_path, "/w/app/src");
    assert_eq!(
        cfg.entry_points,
        vec!["/w/app/src/main.rs".to_string(), "/w/app/src/lib.rs".to_string()]
    );
    assert!(!cfg.is_workspace);
    assert_eq!(cfg.dependencies, vec!["petgraph".to_string()]);
}

#[test]
fn missing_package_name_falls_back_to_unknown() {
    let cfg = CargoConfig::from_manifest("/w/x", None, true, false, true, vec![]);
    assert_eq!(cfg.name, "unknown");
    assert!(cfg.is_workspace);
    assert_eq!(cfg.entry_points, vec!["/w/x/src/lib.rs".to_string()]);
}

#[test]
fn workspace_flattens_member_entry_points() {
    let a = CargoConfig::from_manifest("/w/a", Some("a".to_string()), false, true, false, vec![]);
    let b = CargoConfig::from_manifest("/w/b", Some("b".to_string()), false, false, true, vec![]);
    let ws = WorkspaceAnalyzer::new("/w".to_string(), vec![a, b]);
    assert!(ws.is_workspace());
    assert_eq!(
        ws.get_entry_points(),
        vec!["/w/a/src/main.rs".to_string(), "/w/b/src/lib.rs".to_string()]
    );
}

#[test]
fn single_member_is_not_a_workspace() {
    let a = CargoConfig::from_manifest("/w/a", Some("a".to_string()), false, true, false, vec![]);
    let ws = WorkspaceAnalyzer::new("/w".to_string(), vec![a]);
    assert!(!ws.is_workspace());
}

#[test]
fn default_options_start_from_main() {
    let cfg = AnalysisConfig::default();
    assert!(!cfg.include_tests);
    assert!(!cfg.include_examples);
    assert!(cfg.max_depth.is_none());
    assert!(!cfg.include_external_crates);
    assert_eq!(cfg.start_functions, vec!["main".to_string()]);
}
