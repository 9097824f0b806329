//! Whole-pipeline scenarios: the merged graph, cross-unit classification,
//! deterministic rendering, and the degenerate color normalization.

use callgraph::ast::{CallSite, ParsedFile, ParsedFn};
use callgraph::graph::{create_call_graph, graph_edge_count, graph_edge_endpoints,
    graph_edge_order, graph_node_count, graph_node_label};
use callgraph::render::render_dot;
use callgraph::visitor::FunctionCallVisitor;
use callgraph::workspace::{analyze_repository, AnalysisConfig, SourceUnit, WorkspaceAnalysis};

fn direct(segs: &[&str]) -> CallSite {
    CallSite::Direct { segments: segs.iter().map(|s| s.to_string()).collect() }
}

fn func(name: &str, calls: Vec<CallSite>) -> ParsedFn {
    ParsedFn { name: name.to_string(), calls }
}

fn unit(name: &str, module_name: &str, fns: Vec<ParsedFn>) -> SourceUnit {
    SourceUnit {
        crate_name: name.to_string(),
        crate_path: format!("/w/{}", name),
        entry_path: format!("/w/{}/src/main.rs", name),
        module_name: module_name.to_string(),
        file: ParsedFile { fns, impls: vec![], mods: vec![] },
    }
}

fn default_config() -> AnalysisConfig {
    AnalysisConfig {
        include_tests: false,
        include_examples: false,
        max_depth: None,
        include_external_crates: false,
        start_functions: vec!["main".to_string()],
    }
}

#[test]
fn combined_graph_of_zero_call_units_is_empty() {
    let units = vec![
        unit("a", "main", vec![func("main", vec![])]),
        unit("b", "main", vec![func("main", vec![]), func("helper", vec![])]),
    ];
    let analysis = analyze_repository("/w".to_string(), &units, &default_config());
    let g = analysis.create_combined_graph();
    assert_eq!(graph_node_count(&g), 0);
    assert_eq!(graph_edge_count(&g), 0);
}

#[test]
fn combined_graph_numbers_edges_across_units() {
    let units = vec![
        unit(
            "a",
            "main",
            vec![func("main", vec![direct(&["helper"])]), func("helper", vec![])],
        ),
        unit(
            "b",
            "main",
            vec![func("main", vec![direct(&["work"])]), func("work", vec![])],
        ),
    ];
    let analysis = analyze_repository("/w".to_string(), &units, &default_config());
    let g = analysis.create_combined_graph();
    // both units name their entry `main`, so the node set shares that name
    assert_eq!(graph_node_count(&g), 3);
    assert_eq!(graph_edge_count(&g), 2);
    // the shared counter keeps each unit's internal order, unit by unit
    assert_eq!(graph_edge_order(&g, 0), 1);
    assert_eq!(graph_edge_order(&g, 1), 2);
    let (f0, t0) = {
        let p = graph_edge_endpoints(&g, 0);
        (graph_node_label(&g, p.0), graph_node_label(&g, p.1))
    };
    assert_eq!((f0.as_str(), t0.as_str()), ("main", "helper"));
}

#[test]
fn cross_unit_calls_are_classified_by_leading_segment() {
    // one visitor that knows both units' scopes, so the cross call resolves
    let mut v = FunctionCallVisitor::new();
    let fa = ParsedFile {
        fns: vec![
            func("main", vec![direct(&["b", "helper"]), direct(&["a", "local"])]),
            func("local", vec![]),
        ],
        impls: vec![],
        mods: vec![],
    };
    let fb = ParsedFile { fns: vec![func("helper", vec![])], impls: vec![], mods: vec![] };
    v.process_module("/w/a.rs", "a", &fa);
    v.process_module("/w/b.rs", "b", &fb);
    v.process_function("a::main");
    let analysis = WorkspaceAnalysis {
        root_path: "/w".to_string(),
        visitors: vec![v],
        crate_names: vec![],
    };
    let cross = analysis.get_cross_crate_calls();
    assert_eq!(cross, vec![("a::main".to_string(), "b::helper".to_string())]);
}

#[test]
fn entry_points_are_callers_named_main() {
    let mut v = FunctionCallVisitor::new();
    let fa = ParsedFile {
        fns: vec![func("main", vec![direct(&["app", "helper"])]), func("helper", vec![])],
        impls: vec![],
        mods: vec![],
    };
    v.process_module("/w/app.rs", "app", &fa);
    v.process_function("app::main");
    let analysis = WorkspaceAnalysis {
        root_path: "/w".to_string(),
        visitors: vec![v],
        crate_names: vec![],
    };
    assert_eq!(analysis.get_entry_points(), vec!["app::main".to_string()]);
}

#[test]
fn pipeline_is_deterministic_byte_for_byte() {
    let build = || {
        let units = vec![
            unit(
                "a",
                "main",
                vec![
                    func("main", vec![direct(&["helper"]), direct(&["work"])]),
                    func("helper", vec![direct(&["work"])]),
                    func("work", vec![]),
                ],
            ),
        ];
        let analysis = analyze_repository("/w".to_string(), &units, &default_config());
        let g = analysis.create_combined_graph();
        render_dot(&g)
    };
    let first = build();
    let second = build();
    assert_eq!(first, second);
    assert!(!first.is_empty());
}

#[test]
fn single_edge_graph_renders_with_default_color() {
    // main calls helper, helper calls nothing: 2 nodes, 1 edge, sequence 1;
    // normalizing over a single-edge graph must hit the degenerate case and
    // use the default color, not fail
    let units = vec![
        unit(
            "a",
            "main",
            vec![func("main", vec![direct(&["helper"])]), func("helper", vec![])],
        ),
    ];
    let analysis = analyze_repository("/w".to_string(), &units, &default_config());
    let g = analysis.create_combined_graph();
    assert_eq!(graph_node_count(&g), 2);
    assert_eq!(graph_edge_count(&g), 1);
    assert_eq!(graph_edge_order(&g, 0), 1);
    let text = render_dot(&g);
    let mut expected = String::new();
    expected.push_str("digraph {\n");
    expected.push_str("    node [shape=box];\n\n");
    expected.push_str("    0 [label=\"helper\", color=\"black\", penwidth=2.0];\n");
    expected.push_str("    1 [label=\"main\", color=\"black\", penwidth=2.0];\n");
    expected.push_str("\n");
    expected.push_str("    1 -> 0 [label=\"1\", color=\"black\", fontcolor=\"black\", penwidth=2.0];\n");
    expected.push_str("}\n");
    assert_eq!(text, expected);
}

#[test]
fn render_assigns_colors_and_strips_quotes() {
    let mut v = FunctionCallVisitor::new();
    let f = ParsedFile {
        fns: vec![
            func("main", vec![direct(&["a\"q"]), direct(&["b"])]),
            func("a\"q", vec![]),
            func("b", vec![]),
        ],
        impls: vec![],
        mods: vec![],
    };
    v.process_module("/w/main.rs", "main", &f);
    v.process_function("main");
    assert_eq!(v.function_calls.len(), 2);
    let g = create_call_graph(&v);
    let text = render_dot(&g);
    // sequence 1 of 2 maps to the first palette color, sequence 2 to the last
    assert!(text.contains("    0 [label=\"aq\", color=\"#1e40af\", penwidth=2.0];\n"));
    assert!(text.contains("color=\"#991b1b\""));
    assert!(text.contains("black"));
}

#[test]
fn per_unit_graph_sorts_nodes_lexicographically() {
    let mut v = FunctionCallVisitor::new();
    let f = ParsedFile {
        fns: vec![
            func("zeta", vec![direct(&["alpha"])]),
            func("alpha", vec![]),
        ],
        impls: vec![],
        mods: vec![],
    };
    v.process_module("/w/main.rs", "main", &f);
    v.process_function("zeta");
    let g = create_call_graph(&v);
    assert_eq!(graph_node_count(&g), 2);
    assert_eq!(graph_node_label(&g, 0), "alpha");
    assert_eq!(graph_node_label(&g, 1), "zeta");
    let ends = graph_edge_endpoints(&g, 0);
    assert_eq!(ends, (1, 0));
    assert_eq!(graph_edge_order(&g, 0), 1);
}

#[test]
fn repeated_call_sites_repeat_edges_but_render_once() {
    let mut v = FunctionCallVisitor::new();
    let f = ParsedFile {
        fns: vec![
            func("main", vec![direct(&["helper"]), direct(&["helper"])]),
            func("helper", vec![]),
        ],
        impls: vec![],
        mods: vec![],
    };
    v.process_module("/w/main.rs", "main", &f);
    v.process_function("main");
    // edges are not deduplicated by identity
    assert_eq!(v.function_calls.len(), 2);
    let g = create_call_graph(&v);
    assert_eq!(graph_edge_count(&g), 2);
    let text = render_dot(&g);
    // but the diagram declares each unique (from, to) pair once
    assert_eq!(text.matches("->").count(), 1);
}
