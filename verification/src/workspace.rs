//! The workspace aggregator: runs the per-unit traversal independently over
//! every discovered source unit, merges all discovered edges into one graph
//! under a single monotonically increasing sequence counter, and classifies
//! edges as intra- or cross-unit.

use vstd::prelude::*;
use crate::ast::{ParsedFile, ParsedFileV};
use crate::graph::{CallGraph, edges_indexed, graph_add_edge, graph_add_node, graph_new,
    graph_node_labels, graph_edge_list, lemma_edges_indexed_len, lemma_nodes_of_contains,
    lemma_nodes_of_len, nodes_of, add_node_name};
use crate::text::{clone_string, eq_str, ends_with_sub, find_name, lemma_idx_of,
    name_listed, str_ends_with};
use crate::visitor::{assoc_put, empty_visitor, expand_fn, spec_process_module, spec_resolve,
    EdgeV, FunctionCallVisitor, VisitorV};

verus! {

/// One discoverable source unit: its unit (package) name and root path, the
/// entry file's resolved path and scope name, and the parsed file itself.
pub struct SourceUnit {
    pub crate_name: String,
    pub crate_path: String,
    pub entry_path: String,
    pub module_name: String,
    pub file: ParsedFile,
}

/// The mathematical value of a [`SourceUnit`].
pub struct SourceUnitV {
    pub crate_name: Seq<char>,
    pub crate_path: Seq<char>,
    pub entry_path: Seq<char>,
    pub module_name: Seq<char>,
    pub file: ParsedFileV,
}

impl View for SourceUnit {
    type V = SourceUnitV;

    open spec fn view(&self) -> SourceUnitV {
        SourceUnitV {
            crate_name: self.crate_name@,
            crate_path: self.crate_path@,
            entry_path: self.entry_path@,
            module_name: self.module_name@,
            file: self.file@,
        }
    }
}

impl DeepView for SourceUnit {
    type V = SourceUnitV;

    open spec fn deep_view(&self) -> SourceUnitV {
        self.view()
    }
}

/// The options the engine recognizes.  Traversal starts from
/// `start_functions`; the other options are carried for collaborators.
pub struct AnalysisConfig {
    pub include_tests: bool,
    pub include_examples: bool,
    pub max_depth: Option<usize>,
    pub include_external_crates: bool,
    pub start_functions: Vec<String>,
}

impl core::default::Default for AnalysisConfig {
    /// The default configuration: nothing extra scanned, no depth bound, and
    /// traversal starting from `main`.
    fn default() -> (r: AnalysisConfig)
        ensures
            r.include_tests == false,
            r.include_examples == false,
            r.max_depth is None,
            r.include_external_crates == false,
            r.start_functions.deep_view() == seq!["main"@],
    {
        let r = AnalysisConfig {
            include_tests: false,
            include_examples: false,
            max_depth: None,
            include_external_crates: false,
            start_functions: vec![String::from_str("main")],
        };
        proof {
            assert(r.start_functions.deep_view() =~= seq!["main"@]);
        }
        r
    }
}

/// The visitor state after one unit's file has been registered.
pub open spec fn unit_visitor(u: SourceUnitV) -> VisitorV {
    spec_process_module(empty_visitor(), u.entry_path, u.module_name, u.file)
}

/// What one traversal from entry `name` adds to a visitor.
pub open spec fn run_entry(v: VisitorV, name: Seq<char>) -> VisitorV {
    VisitorV {
        function_calls: v.function_calls + expand_fn(
            v.table(),
            v.current_call_stack,
            spec_resolve(name, v.current_module),
        ),
        ..v
    }
}

/// The visitor state after traversing from each entry name in order.
pub open spec fn run_entries(v: VisitorV, names: Seq<Seq<char>>) -> VisitorV
    decreases names.len(),
{
    if names.len() == 0 {
        v
    } else {
        run_entry(run_entries(v, names.drop_last()), names.last())
    }
}

/// The unit-name-to-root-path map built from the units in discovery order.
pub open spec fn crate_map_of(us: Seq<SourceUnitV>) -> Seq<(Seq<char>, Seq<char>)>
    decreases us.len(),
{
    if us.len() == 0 {
        Seq::empty()
    } else {
        assoc_put(crate_map_of(us.drop_last()), us.last().crate_name, us.last().crate_path)
    }
}

/// All discovered edges of all units, in unit order then discovery order.
pub open spec fn all_calls(vs: Seq<FunctionCallVisitor>) -> Seq<EdgeV>
    decreases vs.len(),
{
    if vs.len() == 0 {
        Seq::empty()
    } else {
        all_calls(vs.drop_last()) + vs.last()@.function_calls
    }
}

/// Replaces the first path entry keyed `k`, or appends one.
fn put_path(pairs: &mut Vec<(String, String)>, k: String, v: String)
    ensures
        final(pairs).deep_view() == assoc_put(old(pairs).deep_view(), k@, v@),
{
    let mut i: usize = 0;
    while i < pairs.len()
        invariant
            i <= pairs@.len(),
            pairs.deep_view().len() == pairs@.len(),
            forall|j: int| 0 <= j < i ==> (#[trigger] pairs.deep_view()[j]).0 != k@,
            pairs@ == old(pairs)@,
        decreases pairs@.len() - i,
    {
        proof {
            let ii = i as int;
            assert(pairs.deep_view()[ii] == (pairs@[ii].0@, pairs@[ii].1@));
        }
        if eq_str(pairs[i].0.as_str(), k.as_str()) {
            let ghost pre = pairs.deep_view();
            proof {
                crate::visitor::lemma_assoc_put_at(pre, k@, v@, i as int);
            }
            vstd::std_specs::core::index_set(pairs, i, (k, v));
            proof {
                assert(pairs.deep_view() =~= pre.update(i as int, (k@, v@)));
            }
            return;
        }
        i = i + 1;
    }
    let ghost pre = pairs.deep_view();
    proof {
        crate::visitor::lemma_assoc_put_none(pre, k@, v@);
    }
    pairs.push((k, v));
    proof {
        assert(pairs.deep_view() =~= pre.push((k@, v@)));
    }
}

/// The merged analysis of a workspace: one traversal state per unit, and the
/// bookkeeping map from unit name to its root path.
pub struct WorkspaceAnalysis {
    pub root_path: String,
    pub visitors: Vec<FunctionCallVisitor>,
    pub crate_names: Vec<(String, String)>,
}

impl WorkspaceAnalysis {
    /// Registers each discovered unit's parsed file in a fresh visitor, and
    /// records each unit's root path under its name.
    pub fn new(path: String, units: &Vec<SourceUnit>) -> (r: WorkspaceAnalysis)
        ensures
            r.root_path@ == path@,
            r.visitors@.len() == units@.len(),
            forall|i: int|
                0 <= i < units@.len() ==> (#[trigger] r.visitors@[i])@ == unit_visitor(
                    units.deep_view()[i],
                ),
            r.crate_names.deep_view() == crate_map_of(units.deep_view()),
    {
        let ghost udv = units.deep_view();
        let mut visitors: Vec<FunctionCallVisitor> = Vec::new();
        let mut crate_names: Vec<(String, String)> = Vec::new();
        let mut i: usize = 0;
        proof {
            assert(udv.subrange(0, 0) =~= Seq::<SourceUnitV>::empty());
        }
        while i < units.len()
            invariant
                i <= units@.len(),
                udv == units.deep_view(),
                udv.len() == units@.len(),
                visitors@.len() == i,
                forall|j: int|
                    0 <= j < i ==> (#[trigger] visitors@[j])@ == unit_visitor(udv[j]),
                crate_names.deep_view() == crate_map_of(udv.subrange(0, i as int)),
            decreases units@.len() - i,
        {
            let u = &units[i];
            proof {
                assert(udv[i as int] == units@[i as int]@);
            }
            put_path(&mut crate_names, clone_string(&u.crate_name), clone_string(&u.crate_path));
            let mut v = FunctionCallVisitor::new();
            v.process_module(u.entry_path.as_str(), u.module_name.as_str(), &u.file);
            proof {
                assert(v@ == unit_visitor(udv[i as int]));
            }
            let ghost pre = visitors@;
            visitors.push(v);
            proof {
                assert(visitors@ =~= pre.push(v));
                assert(udv.subrange(0, i + 1).drop_last() =~= udv.subrange(0, i as int));
                assert(udv.subrange(0, i + 1).last() == udv[i as int]);
            }
            i = i + 1;
        }
        proof {
            assert(udv.subrange(0, units@.len() as int) =~= udv);
        }
        WorkspaceAnalysis { root_path: path, visitors, crate_names }
    }

    /// Merges every unit's discovered edges into one graph.  Nodes appear in
    /// order of first appearance across all units; edges carry one shared
    /// monotonically increasing sequence counter, starting at 1, in unit
    /// order then discovery order.
    pub fn create_combined_graph(&self) -> (g: CallGraph)
        requires
            all_calls(self.visitors@).len() < 0x3FFF_FFFF,
        ensures
            graph_node_labels(g) == nodes_of(all_calls(self.visitors@)),
            graph_edge_list(g) == edges_indexed(
                all_calls(self.visitors@),
                nodes_of(all_calls(self.visitors@)),
            ),
    {
        let ghost vs = self.visitors@;
        let ghost calls = all_calls(vs);
        let mut flat: Vec<(String, String)> = Vec::new();
        let mut i: usize = 0;
        proof {
            assert(vs.subrange(0, 0) =~= Seq::<FunctionCallVisitor>::empty());
            assert(flat.deep_view() =~= all_calls(vs.subrange(0, 0)));
        }
        while i < self.visitors.len()
            invariant
                vs == self.visitors@,
                i <= vs.len(),
                flat.deep_view() == all_calls(vs.subrange(0, i as int)),
            decreases vs.len() - i,
        {
            let v = &self.visitors[i];
            let ghost vcalls = v@.function_calls;
            let mut j: usize = 0;
            proof {
                assert(vcalls.subrange(0, 0) =~= Seq::<EdgeV>::empty());
                assert(flat.deep_view() + vcalls.subrange(0, 0) =~= flat.deep_view());
            }
            let ghost base = flat.deep_view();
            while j < v.function_calls.len()
                invariant
                    vs == self.visitors@,
                    i < vs.len(),
                    v == vs[i as int],
                    vcalls == v@.function_calls,
                    vcalls.len() == v.function_calls@.len(),
                    j <= vcalls.len(),
                    base == all_calls(vs.subrange(0, i as int)),
                    flat.deep_view() == base + vcalls.subrange(0, j as int),
                decreases vcalls.len() - j,
            {
                proof {
                    assert(vcalls[j as int] == (v.function_calls@[j as int].0@, v
                        .function_calls@[j as int].1@));
                }
                let pair = &v.function_calls[j];
                let ghost pre = flat.deep_view();
                flat.push((clone_string(&pair.0), clone_string(&pair.1)));
                proof {
                    assert(flat.deep_view() =~= pre.push(vcalls[j as int]));
                    assert(pre.push(vcalls[j as int]) =~= base + vcalls.subrange(0, j + 1));
                }
                j = j + 1;
            }
            proof {
                assert(vcalls.subrange(0, vcalls.len() as int) =~= vcalls);
                assert(vs.subrange(0, i + 1).drop_last() =~= vs.subrange(0, i as int));
                assert(vs.subrange(0, i + 1).last() == vs[i as int]);
            }
            i = i + 1;
        }
        proof {
            assert(vs.subrange(0, vs.len() as int) =~= vs);
            assert(flat.deep_view() == calls);
        }
        let fdv = Ghost(flat.deep_view());
        let mut nodes: Vec<String> = Vec::new();
        let mut k: usize = 0;
        proof {
            assert(calls.subrange(0, 0) =~= Seq::<EdgeV>::empty());
            assert(nodes.deep_view() =~= nodes_of(calls.subrange(0, 0)));
        }
        let mut g = graph_new();
        while k < flat.len()
            invariant
                flat.deep_view() == calls,
                calls.len() == flat@.len(),
                calls.len() < 0x3FFF_FFFF,
                k <= calls.len(),
                nodes.deep_view() == nodes_of(calls.subrange(0, k as int)),
                nodes@.len() == nodes.deep_view().len(),
                graph_node_labels(g) == nodes.deep_view(),
                graph_edge_list(g) == Seq::<(usize, usize, usize)>::empty(),
            decreases calls.len() - k,
        {
            proof {
                assert(calls[k as int] == (flat@[k as int].0@, flat@[k as int].1@));
                lemma_nodes_of_len(calls.subrange(0, k as int));
            }
            let pair = &flat[k];
            let ghost pre = nodes.deep_view();
            if !name_listed(&nodes, pair.0.as_str()) {
                nodes.push(clone_string(&pair.0));
                graph_add_node(&mut g, clone_string(&pair.0));
                proof {
                    assert(nodes.deep_view() =~= pre.push(calls[k as int].0));
                }
            }
            let ghost mid = nodes.deep_view();
            proof {
                assert(mid == add_node_name(pre, calls[k as int].0));
            }
            if !name_listed(&nodes, pair.1.as_str()) {
                nodes.push(clone_string(&pair.1));
                graph_add_node(&mut g, clone_string(&pair.1));
                proof {
                    assert(nodes.deep_view() =~= mid.push(calls[k as int].1));
                }
            }
            proof {
                assert(nodes.deep_view() == add_node_name(mid, calls[k as int].1));
                assert(calls.subrange(0, k + 1).drop_last() =~= calls.subrange(0, k as int));
                assert(calls.subrange(0, k + 1).last() == calls[k as int]);
            }
            k = k + 1;
        }
        proof {
            assert(calls.subrange(0, calls.len() as int) =~= calls);
        }
        let ghost ns = nodes_of(calls);
        let mut e: usize = 0;
        proof {
            assert(edges_indexed(calls.subrange(0, 0), ns) =~= Seq::<
                (usize, usize, usize),
            >::empty());
        }
        while e < flat.len()
            invariant
                flat.deep_view() == calls,
                calls.len() == flat@.len(),
                calls.len() < 0x3FFF_FFFF,
                ns == nodes_of(calls),
                nodes.deep_view() == ns,
                nodes@.len() == ns.len(),
                e <= calls.len(),
                graph_node_labels(g) == ns,
                graph_edge_list(g) == edges_indexed(calls.subrange(0, e as int), ns),
            decreases calls.len() - e,
        {
            proof {
                assert(calls[e as int] == (flat@[e as int].0@, flat@[e as int].1@));
                lemma_nodes_of_contains(calls, e as int);
                lemma_idx_of(ns, calls[e as int].0);
                lemma_idx_of(ns, calls[e as int].1);
                lemma_edges_indexed_len(calls.subrange(0, e as int), ns);
            }
            let pair = &flat[e];
            let from = find_name(&nodes, pair.0.as_str());
            let to = find_name(&nodes, pair.1.as_str());
            graph_add_edge(&mut g, from, to, e + 1);
            proof {
                assert(calls.subrange(0, e + 1).drop_last() =~= calls.subrange(0, e as int));
                assert(calls.subrange(0, e + 1).last() == calls[e as int]);
                assert(calls.subrange(0, e + 1).len() == e + 1);
            }
            e = e + 1;
        }
        proof {
            assert(calls.subrange(0, calls.len() as int) =~= calls);
        }
        g
    }

    /// The callers that look like unit entry points: every caller whose
    /// qualified name ends in `::main`, in discovery order.
    pub fn get_entry_points(&self) -> (r: Vec<String>)
        ensures
            r.deep_view() == entry_points_of(all_calls(self.visitors@)),
    {
        let ghost vs = self.visitors@;
        let mut out: Vec<String> = Vec::new();
        let mut i: usize = 0;
        proof {
            assert(vs.subrange(0, 0) =~= Seq::<FunctionCallVisitor>::empty());
            assert(out.deep_view() =~= entry_points_of(all_calls(vs.subrange(0, 0))));
        }
        while i < self.visitors.len()
            invariant
                vs == self.visitors@,
                i <= vs.len(),
                out.deep_view() == entry_points_of(all_calls(vs.subrange(0, i as int))),
            decreases vs.len() - i,
        {
            let v = &self.visitors[i];
            let ghost vcalls = v@.function_calls;
            let ghost base_calls = all_calls(vs.subrange(0, i as int));
            let mut j: usize = 0;
            proof {
                assert(vcalls.subrange(0, 0) =~= Seq::<EdgeV>::empty());
                lemma_entry_points_concat(base_calls, vcalls.subrange(0, 0));
                assert(base_calls + vcalls.subrange(0, 0) =~= base_calls);
            }
            while j < v.function_calls.len()
                invariant
                    vs == self.visitors@,
                    i < vs.len(),
                    v == vs[i as int],
                    vcalls == v@.function_calls,
                    vcalls.len() == v.function_calls@.len(),
                    j <= vcalls.len(),
                    base_calls == all_calls(vs.subrange(0, i as int)),
                    out.deep_view() == entry_points_of(base_calls + vcalls.subrange(0, j as int)),
                decreases vcalls.len() - j,
            {
                proof {
                    assert(vcalls[j as int] == (v.function_calls@[j as int].0@, v
                        .function_calls@[j as int].1@));
                    reveal_strlit("::main");
                    assert("::main"@ =~= main_suffix());
                }
                let pair = &v.function_calls[j];
                let ghost pre = out.deep_view();
                if str_ends_with(pair.0.as_str(), "::main") {
                    out.push(clone_string(&pair.0));
                    proof {
                        assert(out.deep_view() =~= pre.push(vcalls[j as int].0));
                    }
                }
                proof {
                    let cur = base_calls + vcalls.subrange(0, j + 1);
                    assert(cur.drop_last() =~= base_calls + vcalls.subrange(0, j as int));
                    assert(cur.last() == vcalls[j as int]);
                    if ends_with_sub(vcalls[j as int].0, main_suffix()) {
                        assert(pre.push(vcalls[j as int].0) =~= entry_points_of(cur));
                    } else {
                        assert(pre =~= entry_points_of(cur));
                    }
                }
                j = j + 1;
            }
            proof {
                assert(vcalls.subrange(0, vcalls.len() as int) =~= vcalls);
                assert(vs.subrange(0, i + 1).drop_last() =~= vs.subrange(0, i as int));
                assert(vs.subrange(0, i + 1).last() == vs[i as int]);
            }
            i = i + 1;
        }
        proof {
            assert(vs.subrange(0, vs.len() as int) =~= vs);
        }
        out
    }

    /// The bookkeeping map from unit name to its root path.
    pub fn get_crate_info(&self) -> (r: &Vec<(String, String)>)
        ensures
            r.deep_view() == self.crate_names.deep_view(),
    {
        &self.crate_names
    }

    /// The discovered edges whose caller and callee belong to different
    /// units, judged by the leading segment of each qualified name.
    pub fn get_cross_crate_calls(&self) -> (r: Vec<(String, String)>)
        ensures
            r.deep_view() == cross_calls(all_calls(self.visitors@)),
    {
        let ghost vs = self.visitors@;
        let mut out: Vec<(String, String)> = Vec::new();
        let mut i: usize = 0;
        proof {
            assert(vs.subrange(0, 0) =~= Seq::<FunctionCallVisitor>::empty());
            assert(out.deep_view() =~= cross_calls(all_calls(vs.subrange(0, 0))));
        }
        while i < self.visitors.len()
            invariant
                vs == self.visitors@,
                i <= vs.len(),
                out.deep_view() == cross_calls(all_calls(vs.subrange(0, i as int))),
            decreases vs.len() - i,
        {
            let v = &self.visitors[i];
            let ghost vcalls = v@.function_calls;
            let ghost base_calls = all_calls(vs.subrange(0, i as int));
            let mut j: usize = 0;
            proof {
                assert(vcalls.subrange(0, 0) =~= Seq::<EdgeV>::empty());
                assert(base_calls + vcalls.subrange(0, 0) =~= base_calls);
            }
            while j < v.function_calls.len()
                invariant
                    vs == self.visitors@,
                    i < vs.len(),
                    v == vs[i as int],
                    vcalls == v@.function_calls,
                    vcalls.len() == v.function_calls@.len(),
                    j <= vcalls.len(),
                    base_calls == all_calls(vs.subrange(0, i as int)),
                    out.deep_view() == cross_calls(base_calls + vcalls.subrange(0, j as int)),
                decreases vcalls.len() - j,
            {
                proof {
                    assert(vcalls[j as int] == (v.function_calls@[j as int].0@, v
                        .function_calls@[j as int].1@));
                }
                let pair = &v.function_calls[j];
                let caller_crate = crate::utils::extract_crate_name(pair.0.as_str());
                let callee_crate = crate::utils::extract_crate_name(pair.1.as_str());
                let ghost pre = out.deep_view();
                if !eq_str(caller_crate, callee_crate) {
                    out.push((clone_string(&pair.0), clone_string(&pair.1)));
                    proof {
                        assert(out.deep_view() =~= pre.push(vcalls[j as int]));
                    }
                }
                proof {
                    let cur = base_calls + vcalls.subrange(0, j + 1);
                    assert(cur.drop_last() =~= base_calls + vcalls.subrange(0, j as int));
                    assert(cur.last() == vcalls[j as int]);
                    if crate::text::first_seg(vcalls[j as int].0) != crate::text::first_seg(
                        vcalls[j as int].1,
                    ) {
                        assert(pre.push(vcalls[j as int]) =~= cross_calls(cur));
                    } else {
                        assert(pre =~= cross_calls(cur));
                    }
                }
                j = j + 1;
            }
            proof {
                assert(vcalls.subrange(0, vcalls.len() as int) =~= vcalls);
                assert(vs.subrange(0, i + 1).drop_last() =~= vs.subrange(0, i as int));
                assert(vs.subrange(0, i + 1).last() == vs[i as int]);
            }
            i = i + 1;
        }
        proof {
            assert(vs.subrange(0, vs.len() as int) =~= vs);
        }
        out
    }
}

/// The suffix that marks a unit entry point's qualified name.
pub open spec fn main_suffix() -> Seq<char> {
    seq![':', ':', 'm', 'a', 'i', 'n']
}

/// The callers of an edge list whose names end in `::main`, in order.
pub open spec fn entry_points_of(calls: Seq<EdgeV>) -> Seq<Seq<char>>
    decreases calls.len(),
{
    if calls.len() == 0 {
        Seq::empty()
    } else {
        entry_points_of(calls.drop_last()) + (if ends_with_sub(calls.last().0, main_suffix()) {
            seq![calls.last().0]
        } else {
            Seq::empty()
        })
    }
}

proof fn lemma_entry_points_concat(a: Seq<EdgeV>, b: Seq<EdgeV>)
    ensures
        b.len() == 0 ==> entry_points_of(a + b) == entry_points_of(a),
{
    if b.len() == 0 {
        assert(a + b =~= a);
    }
}

/// The edges whose caller and callee have different leading segments.
pub open spec fn cross_calls(calls: Seq<EdgeV>) -> Seq<EdgeV>
    decreases calls.len(),
{
    if calls.len() == 0 {
        Seq::empty()
    } else {
        cross_calls(calls.drop_last()) + (if crate::text::first_seg(calls.last().0)
            != crate::text::first_seg(calls.last().1) {
            seq![calls.last()]
        } else {
            Seq::empty()
        })
    }
}

/// A unit whose definitions make no calls contributes nothing: traversing
/// from any list of entry names leaves the visitor exactly as it was.
pub proof fn lemma_run_entries_no_calls(v: VisitorV, names: Seq<Seq<char>>)
    requires
        crate::visitor::table_has_no_calls(v.table()),
    ensures
        run_entries(v, names) == v,
    decreases names.len(),
{
    if names.len() > 0 {
        lemma_run_entries_no_calls(v, names.drop_last());
        crate::visitor::lemma_no_calls_no_edges(
            v.table(),
            v.current_call_stack,
            spec_resolve(names.last(), v.current_module),
        );
        assert(v.function_calls + expand_fn(
            v.table(),
            v.current_call_stack,
            spec_resolve(names.last(), v.current_module),
        ) =~= v.function_calls);
    }
}

/// A unit whose parsed file holds no call expressions contributes no edges
/// at all: after registration and traversal from any entry names, its
/// discovered edge list is still empty.
pub proof fn lemma_unit_without_calls(u: SourceUnitV, names: Seq<Seq<char>>)
    requires
        crate::visitor::file_has_no_calls(u.file),
    ensures
        run_entries(unit_visitor(u), names).function_calls =~= Seq::<EdgeV>::empty(),
{
    let base = empty_visitor();
    assert(crate::visitor::table_has_no_calls(base.table()));
    crate::visitor::lemma_reg_file_keeps_no_calls(base, u.entry_path, u.module_name, u.file);
    lemma_run_entries_no_calls(unit_visitor(u), names);
    assert(unit_visitor(u).function_calls =~= Seq::<EdgeV>::empty());
}

/// When every unit's traversal discovered no calls, the combined edge list
/// is empty, so the merged graph has no edges and no nodes.
pub proof fn lemma_units_without_calls(vs: Seq<FunctionCallVisitor>)
    requires
        forall|i: int| 0 <= i < vs.len() ==> (#[trigger] vs[i])@.function_calls.len() == 0,
    ensures
        all_calls(vs) =~= Seq::<EdgeV>::empty(),
        nodes_of(all_calls(vs)) =~= Seq::<Seq<char>>::empty(),
        edges_indexed(all_calls(vs), nodes_of(all_calls(vs))) =~= Seq::<
            (usize, usize, usize),
        >::empty(),
    decreases vs.len(),
{
    if vs.len() > 0 {
        assert(vs[vs.len() - 1]@.function_calls.len() == 0);
        assert forall|i: int| 0 <= i < vs.drop_last().len() implies (#[trigger] vs.drop_last()[
            i])@.function_calls.len() == 0 by {
            assert(vs.drop_last()[i] == vs[i]);
        }
        lemma_units_without_calls(vs.drop_last());
    }
}

/// Runs the whole pipeline up to the merged traversal state: registers every
/// unit, then traverses each unit independently from every configured start
/// name, in order.
pub fn analyze_repository(path: String, units: &Vec<SourceUnit>, config: &AnalysisConfig) -> (r:
    WorkspaceAnalysis)
    ensures
        r.root_path@ == path@,
        r.visitors@.len() == units@.len(),
        forall|i: int|
            0 <= i < units@.len() ==> (#[trigger] r.visitors@[i])@ == run_entries(
                unit_visitor(units.deep_view()[i]),
                config.start_functions.deep_view(),
            ),
        r.crate_names.deep_view() == crate_map_of(units.deep_view()),
{
    let mut analysis = WorkspaceAnalysis::new(path, units);
    let ghost names = config.start_functions.deep_view();
    let ghost orig = analysis.visitors@;
    let mut pending = analysis.visitors;
    let mut processed: Vec<FunctionCallVisitor> = Vec::new();
    proof {
        assert(processed@ =~= Seq::<FunctionCallVisitor>::empty());
        assert(pending@ =~= orig.subrange(0, orig.len() as int));
    }
    while pending.len() > 0
        invariant
            processed@.len() + pending@.len() == orig.len(),
            pending@ == orig.subrange(processed@.len() as int, orig.len() as int),
            names == config.start_functions.deep_view(),
            names.len() == config.start_functions@.len(),
            forall|i: int|
                0 <= i < processed@.len() ==> (#[trigger] processed@[i])@ == run_entries(
                    orig[i]@,
                    names,
                ),
        decreases pending@.len(),
    {
        let ghost k = processed@.len();
        let mut v = pending.remove(0);
        let ghost v0 = v@;
        proof {
            assert(orig.subrange(k as int, orig.len() as int)[0] == orig[k as int]);
            assert(v0 == orig[k as int]@);
            assert(pending@ =~= orig.subrange(k as int + 1, orig.len() as int));
        }
        let mut f: usize = 0;
        proof {
            assert(names.subrange(0, 0) =~= Seq::<Seq<char>>::empty());
        }
        while f < config.start_functions.len()
            invariant
                f <= config.start_functions@.len(),
                names == config.start_functions.deep_view(),
                names.len() == config.start_functions@.len(),
                v@ == run_entries(v0, names.subrange(0, f as int)),
            decreases config.start_functions@.len() - f,
        {
            proof {
                assert(names[f as int] == config.start_functions@[f as int]@);
            }
            v.process_function(config.start_functions[f].as_str());
            proof {
                assert(names.subrange(0, f + 1).drop_last() =~= names.subrange(0, f as int));
                assert(names.subrange(0, f + 1).last() == names[f as int]);
            }
            f = f + 1;
        }
        proof {
            assert(names.subrange(0, names.len() as int) =~= names);
        }
        let ghost pre = processed@;
        processed.push(v);
        proof {
            assert(processed@ =~= pre.push(v));
        }
    }
    proof {
        assert(processed@.len() == orig.len());
    }
    analysis.visitors = processed;
    proof {
        assert forall|i: int| 0 <= i < units@.len() implies (#[trigger] analysis.visitors@[i])@
            == run_entries(unit_visitor(units.deep_view()[i]), names) by {
            assert(analysis.visitors@[i]@ == run_entries(orig[i]@, names));
            assert(orig[i]@ == unit_visitor(units.deep_view()[i]));
        }
    }
    analysis
}

} // verus!
