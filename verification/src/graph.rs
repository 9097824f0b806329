//! The call graph: the discovered edges held in a `petgraph` directed graph,
//! with nodes labelled by qualified names and edges weighted by their
//! sequence number.  The graph itself is an outside collection; its contents
//! are named by [`graph_node_labels`] and [`graph_edge_list`], and every
//! method the engine calls is wrapped with a contract over those names.

use vstd::prelude::*;
use crate::text::{clone_string, idx_of, lemma_idx_of, lemma_sort_lex_contains,
    lemma_sort_lex_len, find_name, sort_lex, sort_strings};
use crate::visitor::{EdgeV, FunctionCallVisitor};

verus! {

/// The graph type the engine builds: node weights are qualified names, edge
/// weights are sequence numbers.
pub type CallGraph = petgraph::graph::Graph<String, usize, petgraph::Directed, u32>;

#[verifier::external_type_specification]
#[verifier::external_body]
pub struct ExDirected(petgraph::Directed);

#[verifier::external_type_specification]
#[verifier::external_body]
#[verifier::reject_recursive_types(N)]
#[verifier::reject_recursive_types(E)]
#[verifier::reject_recursive_types(Ty)]
#[verifier::reject_recursive_types(Ix)]
pub struct ExGraph<N, E, Ty, Ix>(petgraph::graph::Graph<N, E, Ty, Ix>);

/// The labels of the graph's nodes, in insertion order (no node is ever
/// removed, so petgraph's node indices are exactly the positions here).
pub uninterp spec fn graph_node_labels(
    g: petgraph::graph::Graph<String, usize, petgraph::Directed, u32>,
) -> Seq<Seq<char>>;

/// The graph's edges, in insertion order: source index, target index and
/// sequence number (petgraph's edge indices are exactly the positions here).
pub uninterp spec fn graph_edge_list(
    g: petgraph::graph::Graph<String, usize, petgraph::Directed, u32>,
) -> Seq<(usize, usize, usize)>;

/// Relies on petgraph's `Graph::new`: a graph with no nodes and no edges.
#[verifier::external_body]
pub fn graph_new() -> (g: CallGraph)
    ensures
        graph_node_labels(g) == Seq::<Seq<char>>::empty(),
        graph_edge_list(g) == Seq::<(usize, usize, usize)>::empty(),
{
    petgraph::graph::Graph::new()
}

/// Relies on petgraph's `Graph::add_node`: appends one node and returns its
/// index, the node count before the call.  It panics only at the index
/// type's maximum, which the bound below rules out.
#[verifier::external_body]
pub fn graph_add_node(g: &mut CallGraph, label: String) -> (i: usize)
    requires
        graph_node_labels(*old(g)).len() < 0xFFFF_FFFF,
    ensures
        graph_node_labels(*final(g)) == graph_node_labels(*old(g)).push(label@),
        graph_edge_list(*final(g)) == graph_edge_list(*old(g)),
        i == graph_node_labels(*old(g)).len(),
{
    g.add_node(label).index()
}

/// Relies on petgraph's `Graph::add_edge`: appends one edge between existing
/// nodes.  It panics when an endpoint does not exist or at the index type's
/// maximum, which the bounds below rule out.
#[verifier::external_body]
pub fn graph_add_edge(g: &mut CallGraph, from: usize, to: usize, order: usize)
    requires
        from < graph_node_labels(*old(g)).len(),
        to < graph_node_labels(*old(g)).len(),
        graph_edge_list(*old(g)).len() < 0xFFFF_FFFF,
    ensures
        graph_node_labels(*final(g)) == graph_node_labels(*old(g)),
        graph_edge_list(*final(g)) == graph_edge_list(*old(g)).push((from, to, order)),
{
    g.add_edge(
        petgraph::graph::NodeIndex::new(from),
        petgraph::graph::NodeIndex::new(to),
        order,
    );
}

/// Relies on petgraph's `Graph::node_count`: the number of nodes.
#[verifier::external_body]
pub fn graph_node_count(g: &CallGraph) -> (n: usize)
    ensures
        n == graph_node_labels(*g).len(),
{
    g.node_count()
}

/// Relies on petgraph's `Graph::edge_count`: the number of edges.
#[verifier::external_body]
pub fn graph_edge_count(g: &CallGraph) -> (n: usize)
    ensures
        n == graph_edge_list(*g).len(),
{
    g.edge_count()
}

/// Relies on petgraph's `Graph::node_weight`: the label stored at a node
/// index, which exists for every index below the node count.
#[verifier::external_body]
pub fn graph_node_label(g: &CallGraph, i: usize) -> (r: String)
    requires
        i < graph_node_labels(*g).len(),
    ensures
        r@ == graph_node_labels(*g)[i as int],
{
    g.node_weight(petgraph::graph::NodeIndex::new(i)).unwrap().clone()
}

/// Relies on petgraph's `Graph::edge_endpoints`: the source and target node
/// indices of the edge stored at an edge index.
#[verifier::external_body]
pub fn graph_edge_endpoints(g: &CallGraph, i: usize) -> (r: (usize, usize))
    requires
        i < graph_edge_list(*g).len(),
    ensures
        r.0 == graph_edge_list(*g)[i as int].0,
        r.1 == graph_edge_list(*g)[i as int].1,
{
    let (a, b) = g.edge_endpoints(petgraph::graph::EdgeIndex::new(i)).unwrap();
    (a.index(), b.index())
}

/// Relies on petgraph's `Graph::edge_weight`: the sequence number stored at
/// an edge index.
#[verifier::external_body]
pub fn graph_edge_order(g: &CallGraph, i: usize) -> (r: usize)
    requires
        i < graph_edge_list(*g).len(),
    ensures
        r == graph_edge_list(*g)[i as int].2,
{
    *g.edge_weight(petgraph::graph::EdgeIndex::new(i)).unwrap()
}

/// A node list extended with one name, unless the name is already present.
pub open spec fn add_node_name(ns: Seq<Seq<char>>, x: Seq<char>) -> Seq<Seq<char>> {
    if ns.contains(x) {
        ns
    } else {
        ns.push(x)
    }
}

/// The node set of an edge list: every name appearing as caller or callee,
/// in order of first appearance.
pub open spec fn nodes_of(calls: Seq<EdgeV>) -> Seq<Seq<char>>
    decreases calls.len(),
{
    if calls.len() == 0 {
        Seq::empty()
    } else {
        add_node_name(add_node_name(nodes_of(calls.drop_last()), calls.last().0), calls.last().1)
    }
}

/// The edges of an edge list, with each endpoint replaced by its node's
/// position in `ns` and each edge numbered by its position, starting at 1.
pub open spec fn edges_indexed(calls: Seq<EdgeV>, ns: Seq<Seq<char>>) -> Seq<
    (usize, usize, usize),
>
    decreases calls.len(),
{
    if calls.len() == 0 {
        Seq::empty()
    } else {
        edges_indexed(calls.drop_last(), ns).push(
            (
                idx_of(ns, calls.last().0) as usize,
                idx_of(ns, calls.last().1) as usize,
                calls.len() as usize,
            ),
        )
    }
}

/// Each edge of the list yields exactly one indexed edge.
pub proof fn lemma_edges_indexed_len(calls: Seq<EdgeV>, ns: Seq<Seq<char>>)
    ensures
        edges_indexed(calls, ns).len() == calls.len(),
    decreases calls.len(),
{
    if calls.len() > 0 {
        lemma_edges_indexed_len(calls.drop_last(), ns);
    }
}

/// Every caller and callee of an edge list is among its nodes.
pub proof fn lemma_nodes_of_contains(calls: Seq<EdgeV>, k: int)
    requires
        0 <= k < calls.len(),
    ensures
        nodes_of(calls).contains(calls[k].0),
        nodes_of(calls).contains(calls[k].1),
    decreases calls.len(),
{
    let prev = nodes_of(calls.drop_last());
    let mid = add_node_name(prev, calls.last().0);
    let full = nodes_of(calls);
    lemma_add_node_name_contains(prev, calls.last().0, calls.last().0);
    lemma_add_node_name_contains(mid, calls.last().1, calls.last().0);
    lemma_add_node_name_contains(mid, calls.last().1, calls.last().1);
    if k == calls.len() - 1 {
    } else {
        lemma_nodes_of_contains(calls.drop_last(), k);
        assert(calls.drop_last()[k] == calls[k]);
        lemma_add_node_name_contains(prev, calls.last().0, calls[k].0);
        lemma_add_node_name_contains(mid, calls.last().1, calls[k].0);
        lemma_add_node_name_contains(prev, calls.last().0, calls[k].1);
        lemma_add_node_name_contains(mid, calls.last().1, calls[k].1);
    }
}

proof fn lemma_add_node_name_contains(ns: Seq<Seq<char>>, x: Seq<char>, y: Seq<char>)
    ensures
        add_node_name(ns, x).contains(y) <==> (ns.contains(y) || y == x),
{
    let r = add_node_name(ns, x);
    if !ns.contains(x) {
        if ns.contains(y) {
            let w = choose|w: int| 0 <= w < ns.len() && ns[w] == y;
            assert(r[w] == y);
        }
        if y == x {
            assert(r[ns.len() as int] == y);
        }
        if r.contains(y) {
            let w = choose|w: int| 0 <= w < r.len() && r[w] == y;
            if w < ns.len() {
                assert(ns[w] == y);
            }
        }
    }
}

/// The node list grows by at most two names per edge.
pub proof fn lemma_nodes_of_len(calls: Seq<EdgeV>)
    ensures
        nodes_of(calls).len() <= 2 * calls.len(),
    decreases calls.len(),
{
    if calls.len() > 0 {
        lemma_nodes_of_len(calls.drop_last());
    }
}

/// Builds one unit's call graph from the visitor's discovered edges: the
/// nodes are the names appearing in the edges, in lexicographic order, and
/// each call becomes an edge numbered by its discovery position, starting
/// at 1.
pub fn create_call_graph(visitor: &FunctionCallVisitor) -> (g: CallGraph)
    requires
        visitor@.function_calls.len() < 0x3FFF_FFFF,
    ensures
        graph_node_labels(g) == sort_lex(nodes_of(visitor@.function_calls)),
        graph_edge_list(g) == edges_indexed(
            visitor@.function_calls,
            sort_lex(nodes_of(visitor@.function_calls)),
        ),
{
    let ghost calls = visitor@.function_calls;
    let mut nodes: Vec<String> = Vec::new();
    let mut i: usize = 0;
    proof {
        assert(calls.subrange(0, 0) =~= Seq::<EdgeV>::empty());
        assert(nodes.deep_view() =~= nodes_of(calls.subrange(0, 0)));
    }
    while i < visitor.function_calls.len()
        invariant
            calls == visitor@.function_calls,
            calls.len() == visitor.function_calls@.len(),
            calls.len() < 0x3FFF_FFFF,
            i <= calls.len(),
            nodes.deep_view() == nodes_of(calls.subrange(0, i as int)),
            nodes@.len() == nodes.deep_view().len(),
        decreases calls.len() - i,
    {
        proof {
            assert(calls[i as int] == (visitor.function_calls@[i as int].0@, visitor
                .function_calls@[i as int].1@));
            lemma_nodes_of_len(calls.subrange(0, i as int));
        }
        let pair = &visitor.function_calls[i];
        let ghost pre = nodes.deep_view();
        if !crate::text::name_listed(&nodes, pair.0.as_str()) {
            nodes.push(clone_string(&pair.0));
            proof {
                assert(nodes.deep_view() =~= pre.push(calls[i as int].0));
            }
        }
        let ghost mid = nodes.deep_view();
        proof {
            assert(mid == add_node_name(pre, calls[i as int].0));
        }
        if !crate::text::name_listed(&nodes, pair.1.as_str()) {
            nodes.push(clone_string(&pair.1));
            proof {
                assert(nodes.deep_view() =~= mid.push(calls[i as int].1));
            }
        }
        proof {
            assert(nodes.deep_view() == add_node_name(mid, calls[i as int].1));
            assert(calls.subrange(0, i + 1).drop_last() =~= calls.subrange(0, i as int));
            assert(calls.subrange(0, i + 1).last() == calls[i as int]);
        }
        i = i + 1;
    }
    proof {
        assert(calls.subrange(0, calls.len() as int) =~= calls);
    }
    let sorted = sort_strings(&nodes);
    let ghost ns = sorted.deep_view();
    proof {
        lemma_sort_lex_len(nodes.deep_view());
        lemma_nodes_of_len(calls);
    }
    let mut g = graph_new();
    let mut k: usize = 0;
    proof {
        assert(graph_node_labels(g) =~= ns.subrange(0, 0));
    }
    while k < sorted.len()
        invariant
            ns == sorted.deep_view(),
            ns == sort_lex(nodes_of(calls)),
            ns.len() == sorted@.len(),
            ns.len() < 0x7FFF_FFFF,
            k <= ns.len(),
            graph_node_labels(g) == ns.subrange(0, k as int),
            graph_edge_list(g) == Seq::<(usize, usize, usize)>::empty(),
        decreases ns.len() - k,
    {
        proof {
            assert(ns[k as int] == sorted@[k as int]@);
        }
        graph_add_node(&mut g, clone_string(&sorted[k]));
        proof {
            assert(graph_node_labels(g) =~= ns.subrange(0, k + 1));
        }
        k = k + 1;
    }
    proof {
        assert(ns.subrange(0, ns.len() as int) =~= ns);
    }
    let mut e: usize = 0;
    proof {
        assert(edges_indexed(calls.subrange(0, 0), ns) =~= Seq::<(usize, usize, usize)>::empty());
    }
    while e < visitor.function_calls.len()
        invariant
            calls == visitor@.function_calls,
            calls.len() == visitor.function_calls@.len(),
            calls.len() < 0x3FFF_FFFF,
            ns == sorted.deep_view(),
            ns == sort_lex(nodes_of(calls)),
            ns.len() == sorted@.len(),
            e <= calls.len(),
            graph_node_labels(g) == ns,
            graph_edge_list(g) == edges_indexed(calls.subrange(0, e as int), ns),
        decreases calls.len() - e,
    {
        proof {
            assert(calls[e as int] == (visitor.function_calls@[e as int].0@, visitor
                .function_calls@[e as int].1@));
            lemma_nodes_of_contains(calls, e as int);
            lemma_sort_lex_contains(nodes_of(calls), calls[e as int].0);
            lemma_sort_lex_contains(nodes_of(calls), calls[e as int].1);
            lemma_idx_of(ns, calls[e as int].0);
            lemma_idx_of(ns, calls[e as int].1);
            lemma_edges_indexed_len(calls.subrange(0, e as int), ns);
        }
        let pair = &visitor.function_calls[e];
        let from = find_name(&sorted, pair.0.as_str());
        let to = find_name(&sorted, pair.1.as_str());
        graph_add_edge(&mut g, from, to, e + 1);
        proof {
            assert(calls.subrange(0, e + 1).drop_last() =~= calls.subrange(0, e as int));
            assert(calls.subrange(0, e + 1).last() == calls[e as int]);
            assert(calls.subrange(0, e + 1).len() == e + 1);
        }
        e = e + 1;
    }
    proof {
        assert(calls.subrange(0, calls.len() as int) =~= calls);
    }
    g
}

} // verus!
