//! Traversal engine scenarios: registration, recursion guards, idempotent
//! discovery.

use callgraph::ast::{CallSite, ParsedFile, ParsedFn, ParsedImpl, ParsedMod};
use callgraph::visitor::FunctionCallVisitor;

fn direct(segs: &[&str]) -> CallSite {
    CallSite::Direct { segments: segs.iter().map(|s| s.to_string()).collect() }
}

fn method(name: &str) -> CallSite {
    CallSite::Method { name: name.to_string() }
}

fn func(name: &str, calls: Vec<CallSite>) -> ParsedFn {
    ParsedFn { name: name.to_string(), calls }
}

fn file(fns: Vec<ParsedFn>, impls: Vec<ParsedImpl>, mods: Vec<ParsedMod>) -> ParsedFile {
    ParsedFile { fns, impls, mods }
}

fn calls_of(v: &FunctionCallVisitor) -> Vec<(String, String)> {
    v.function_calls.clone()
}

#[test]
fn zero_calls_yield_no_edges() {
    let mut v = FunctionCallVisitor::new();
    let f = file(vec![func("main", vec![]), func("helper", vec![])], vec![], vec![]);
    v.process_module("/u/src/main.rs", "main", &f);
    v.process_function("main");
    v.process_function("helper");
    assert_eq!(calls_of(&v).len(), 0);
}

#[test]
fn self_recursion_yields_one_edge_and_terminates() {
    let mut v = FunctionCallVisitor::new();
    let f = file(vec![func("f", vec![direct(&["f"])])], vec![], vec![]);
    v.process_module("/u/src/main.rs", "main", &f);
    v.process_function("f");
    assert_eq!(calls_of(&v), vec![("f".to_string(), "f".to_string())]);
}

#[test]
fn mutual_recursion_yields_two_edges_from_f() {
    let mut v = FunctionCallVisitor::new();
    let f = file(
        vec![func("f", vec![direct(&["g"])]), func("g", vec![direct(&["f"])])],
        vec![],
        vec![],
    );
    v.process_module("/u/src/main.rs", "main", &f);
    v.process_function("f");
    assert_eq!(
        calls_of(&v),
        vec![
            ("f".to_string(), "g".to_string()),
            ("g".to_string(), "f".to_string()),
        ]
    );
}

#[test]
fn mutual_recursion_yields_two_edges_from_g() {
    let mut v = FunctionCallVisitor::new();
    let f = file(
        vec![func("f", vec![direct(&["g"])]), func("g", vec![direct(&["f"])])],
        vec![],
        vec![],
    );
    v.process_module("/u/src/main.rs", "main", &f);
    v.process_function("g");
    assert_eq!(
        calls_of(&v),
        vec![
            ("g".to_string(), "f".to_string()),
            ("f".to_string(), "g".to_string()),
        ]
    );
}

#[test]
fn discovery_is_idempotent_per_path() {
    let mut v = FunctionCallVisitor::new();
    let f = file(vec![func("main", vec![direct(&["helper"])]), func("helper", vec![])], vec![], vec![]);
    v.process_module("/u/src/main.rs", "main", &f);
    let fns_once = v.functions.len();
    // registering the same resolved path again must register nothing new
    v.process_module("/u/src/main.rs", "main", &f);
    assert_eq!(v.functions.len(), fns_once);
    assert_eq!(v.visited_files.len(), 1);
    v.process_function("main");
    assert_eq!(calls_of(&v), vec![("main".to_string(), "helper".to_string())]);
}

#[test]
fn nested_scope_qualifies_names() {
    let mut v = FunctionCallVisitor::new();
    let inner = ParsedMod {
        name: "inner".to_string(),
        fns: vec![func("work", vec![direct(&["helper"])]), func("helper", vec![])],
        impls: vec![],
    };
    let f = file(vec![func("main", vec![direct(&["inner", "work"])])], vec![], vec![inner]);
    v.process_module("/u/src/main.rs", "main", &f);
    v.process_function("main");
    // `work` was declared under `inner`, so its bare call to `helper`
    // resolves against that context
    assert_eq!(
        calls_of(&v),
        vec![
            ("main".to_string(), "inner::work".to_string()),
            ("inner::work".to_string(), "inner::helper".to_string()),
        ]
    );
}

#[test]
fn instance_call_resolves_through_type_table() {
    let mut v = FunctionCallVisitor::new();
    let imp = ParsedImpl {
        owner: "Engine".to_string(),
        methods: vec![func("run", vec![direct(&["helper"])])],
    };
    let f = file(
        vec![func("main", vec![method("run")]), func("helper", vec![])],
        vec![imp],
        vec![],
    );
    v.process_module("/u/src/main.rs", "main", &f);
    v.process_function("main");
    assert_eq!(
        calls_of(&v),
        vec![
            ("main".to_string(), "Engine::run".to_string()),
            ("Engine::run".to_string(), "helper".to_string()),
        ]
    );
}

#[test]
fn unknown_entry_name_is_silently_skipped() {
    let mut v = FunctionCallVisitor::new();
    let f = file(vec![func("main", vec![direct(&["helper"])]), func("helper", vec![])], vec![], vec![]);
    v.process_module("/u/src/main.rs", "main", &f);
    v.process_function("no_such_entry");
    assert_eq!(calls_of(&v).len(), 0);
    assert_eq!(v.current_call_stack.len(), 0);
}

#[test]
fn unresolved_call_targets_are_omitted() {
    let mut v = FunctionCallVisitor::new();
    let f = file(
        vec![func("main", vec![direct(&["println"]), direct(&["helper"])]), func("helper", vec![])],
        vec![],
        vec![],
    );
    v.process_module("/u/src/main.rs", "main", &f);
    v.process_function("main");
    assert_eq!(calls_of(&v), vec![("main".to_string(), "helper".to_string())]);
}

#[test]
fn direct_path_call_reaches_a_method_body() {
    let mut v = FunctionCallVisitor::new();
    let imp = ParsedImpl {
        owner: "Engine".to_string(),
        methods: vec![func("run", vec![direct(&["helper"])])],
    };
    let f = file(
        vec![func("main", vec![direct(&["Engine", "run"])]), func("helper", vec![])],
        vec![imp],
        vec![],
    );
    v.process_module("/u/src/main.rs", "main", &f);
    v.process_function("main");
    assert_eq!(
        calls_of(&v),
        vec![
            ("main".to_string(), "Engine::run".to_string()),
            ("Engine::run".to_string(), "helper".to_string()),
        ]
    );
}

#[test]
fn scope_qualified_method_path_emits_but_does_not_expand() {
    // a method registered under a nested scope matches by its qualified
    // name, but the type-to-methods table is keyed by the simple type name,
    // so the scope-qualified path does not resolve to a body to expand
    let mut v = FunctionCallVisitor::new();
    let inner = ParsedMod {
        name: "inner".to_string(),
        fns: vec![func("helper", vec![])],
        impls: vec![ParsedImpl {
            owner: "Engine".to_string(),
            methods: vec![func("run", vec![direct(&["helper"])])],
        }],
    };
    let f = file(
        vec![func("main", vec![direct(&["inner", "Engine", "run"])])],
        vec![],
        vec![inner],
    );
    v.process_module("/u/src/main.rs", "main", &f);
    v.process_function("main");
    assert_eq!(calls_of(&v), vec![("main".to_string(), "inner::Engine::run".to_string())]);
}

#[test]
fn scope_file_qualifies_its_functions() {
    let mut v = FunctionCallVisitor::new();
    let f = file(vec![func("helper", vec![])], vec![], vec![]);
    v.process_module("/u/src/util.rs", "util", &f);
    assert_eq!(v.functions.len(), 1);
    assert_eq!(v.functions[0].0, "util::helper");
    assert_eq!(v.current_module.len(), 0);
}
