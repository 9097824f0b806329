//! The graph renderer: turns the final call graph into a textual diagram
//! description with deterministic node ordering and an order-derived color
//! per node and edge.  Node identifiers come strictly from the lexicographic
//! ordering of qualified names, never from insertion order, so the emitted
//! text is byte-identical across runs on identical inputs.

use vstd::prelude::*;
use vstd::arithmetic::div_mod::{lemma_div_by_multiple, lemma_div_is_ordered};
use vstd::string::StringExecFns;
use crate::graph::{CallGraph, graph_edge_count, graph_edge_endpoints, graph_edge_order,
    graph_node_count, graph_node_label, graph_edge_list, graph_node_labels};
use crate::text::{dec_digits, dec_string, find_name, idx_of, lemma_idx_of,
    lemma_sort_lex_contains, lemma_sort_lex_len, sort_lex, sort_strings, strip_quotes,
    strip_quotes_spec};

verus! {

/// How many colors the fixed palette holds.
pub open spec fn palette_len() -> int {
    27
}

/// The fixed ordered palette, from cool to warm colors.
pub open spec fn spec_color(i: int) -> Seq<char> {
    if i == 0 {
        "#1e40af"@
    } else if i == 1 {
        "#1d4ed8"@
    } else if i == 2 {
        "#2563eb"@
    } else if i == 3 {
        "#3b82f6"@
    } else if i == 4 {
        "#60a5fa"@
    } else if i == 5 {
        "#6d28d9"@
    } else if i == 6 {
        "#7c3aed"@
    } else if i == 7 {
        "#8b5cf6"@
    } else if i == 8 {
        "#a78bfa"@
    } else if i == 9 {
        "#be185d"@
    } else if i == 10 {
        "#db2777"@
    } else if i == 11 {
        "#ec4899"@
    } else if i == 12 {
        "#f472b6"@
    } else if i == 13 {
        "#166534"@
    } else if i == 14 {
        "#16a34a"@
    } else if i == 15 {
        "#22c55e"@
    } else if i == 16 {
        "#4ade80"@
    } else if i == 17 {
        "#86efac"@
    } else if i == 18 {
        "#facc15"@
    } else if i == 19 {
        "#fbbf24"@
    } else if i == 20 {
        "#f59e0b"@
    } else if i == 21 {
        "#ea580c"@
    } else if i == 22 {
        "#f97316"@
    } else if i == 23 {
        "#fb923c"@
    } else if i == 24 {
        "#dc2626"@
    } else if i == 25 {
        "#b91c1c"@
    } else {
        "#991b1b"@
    }
}

/// The neutral color for nodes without an incoming edge, and the fixed
/// default when the graph is too small for the normalization to be defined.
pub open spec fn default_color() -> Seq<char> {
    "black"@
}

/// Where a sequence number falls in the palette, normalized over the total
/// number of calls.
pub open spec fn clr_index(order: int, total: int) -> int {
    (order - 1) * (palette_len() - 1) / (total - 1)
}

/// The color of a call with sequence number `order` out of `total` calls.
/// A graph with fewer than two calls has no defined normalization; such a
/// call takes the fixed default color instead.
pub open spec fn color_of(order: int, total: int) -> Seq<char> {
    if total < 2 {
        default_color()
    } else {
        spec_color(clr_index(order, total))
    }
}

/// The edges that are the first with their `(from, to)` pair, given the
/// pairs already seen.
pub open spec fn fo_from(edges: Seq<(usize, usize, usize)>, seen: Set<(usize, usize)>) -> Seq<
    (usize, usize, usize),
>
    decreases edges.len(),
{
    if edges.len() == 0 {
        Seq::empty()
    } else if seen.contains((edges[0].0, edges[0].1)) {
        fo_from(edges.drop_first(), seen)
    } else {
        seq![edges[0]] + fo_from(edges.drop_first(), seen.insert((edges[0].0, edges[0].1)))
    }
}

/// The first occurrence of each `(from, to)` pair, in sequence order.
pub open spec fn first_occ(edges: Seq<(usize, usize, usize)>) -> Seq<(usize, usize, usize)> {
    fo_from(edges, Set::empty())
}

/// Every first-occurrence edge is one of the edges.
pub proof fn lemma_fo_elems(edges: Seq<(usize, usize, usize)>, seen: Set<(usize, usize)>, k: int)
    requires
        0 <= k < fo_from(edges, seen).len(),
    ensures
        edges.contains(fo_from(edges, seen)[k]),
    decreases edges.len(),
{
    if seen.contains((edges[0].0, edges[0].1)) {
        lemma_fo_elems(edges.drop_first(), seen, k);
        let w = choose|w: int| 0 <= w < edges.drop_first().len() && edges.drop_first()[w]
            == fo_from(edges, seen)[k];
        assert(edges[w + 1] == fo_from(edges, seen)[k]);
    } else if k == 0 {
        assert(edges[0] == fo_from(edges, seen)[0]);
    } else {
        let seen2 = seen.insert((edges[0].0, edges[0].1));
        lemma_fo_elems(edges.drop_first(), seen2, k - 1);
        let w = choose|w: int| 0 <= w < edges.drop_first().len() && edges.drop_first()[w]
            == fo_from(edges.drop_first(), seen2)[k - 1];
        assert(edges[w + 1] == fo_from(edges, seen)[k]);
    }
}

/// The color of the node at insertion index `node`: the color of the last
/// first-occurrence edge targeting it, or the neutral default.
pub open spec fn last_color_to(
    fo: Seq<(usize, usize, usize)>,
    node: int,
    total: int,
) -> Seq<char>
    decreases fo.len(),
{
    if fo.len() == 0 {
        default_color()
    } else if fo.last().1 == node {
        color_of(fo.last().2 as int, total)
    } else {
        last_color_to(fo.drop_last(), node, total)
    }
}

/// One node declaration line.
pub open spec fn node_line(id: int, label: Seq<char>, color: Seq<char>) -> Seq<char> {
    "    "@ + dec_digits(id) + " [label=\""@ + strip_quotes_spec(label) + "\", color=\""@
        + color + "\", penwidth=2.0];\n"@
}

/// The node declarations for the first `k` names in sorted order.
pub open spec fn node_section(
    sorted: Seq<Seq<char>>,
    labels: Seq<Seq<char>>,
    fo: Seq<(usize, usize, usize)>,
    total: int,
    k: int,
) -> Seq<char>
    decreases k,
{
    if k <= 0 {
        Seq::empty()
    } else {
        node_section(sorted, labels, fo, total, k - 1) + node_line(
            k - 1,
            sorted[k - 1],
            last_color_to(fo, idx_of(labels, sorted[k - 1]), total),
        )
    }
}

/// One edge declaration line.
pub open spec fn edge_line(from_id: int, to_id: int, order: int, color: Seq<char>) -> Seq<char> {
    "    "@ + dec_digits(from_id) + " -> "@ + dec_digits(to_id) + " [label=\""@ + dec_digits(
        order,
    ) + "\", color=\""@ + color + "\", fontcolor=\""@ + color + "\", penwidth=2.0];\n"@
}

/// The edge declarations for the first `k` first-occurrence edges.
pub open spec fn edge_section(
    fo: Seq<(usize, usize, usize)>,
    labels: Seq<Seq<char>>,
    sorted: Seq<Seq<char>>,
    total: int,
    k: int,
) -> Seq<char>
    decreases k,
{
    if k <= 0 {
        Seq::empty()
    } else {
        edge_section(fo, labels, sorted, total, k - 1) + edge_line(
            idx_of(sorted, labels[fo[k - 1].0 as int]),
            idx_of(sorted, labels[fo[k - 1].1 as int]),
            fo[k - 1].2 as int,
            color_of(fo[k - 1].2 as int, total),
        )
    }
}

/// The whole diagram text for a graph with the given node labels and edges:
/// a header, one line per node in lexicographic label order, a separator,
/// one line per unique `(from, to)` edge in sequence order, and the closing
/// brace.  This is a function of the labels and edges alone, so two runs on
/// identical inputs emit byte-identical text.
pub open spec fn dot_text(labels: Seq<Seq<char>>, edges: Seq<(usize, usize, usize)>) -> Seq<
    char,
> {
    let sorted = sort_lex(labels);
    let fo = first_occ(edges);
    let total = edges.len() as int;
    "digraph {\n"@ + "    node [shape=box];\n\n"@ + node_section(
        sorted,
        labels,
        fo,
        total,
        sorted.len() as int,
    ) + "\n"@ + edge_section(fo, labels, sorted, total, fo.len() as int) + "}\n"@
}

/// Two analyses whose units discovered the same edges, in the same order,
/// share one combined edge list.
pub proof fn lemma_analysis_deterministic(
    vs1: Seq<crate::visitor::FunctionCallVisitor>,
    vs2: Seq<crate::visitor::FunctionCallVisitor>,
)
    requires
        vs1.len() == vs2.len(),
        forall|i: int|
            0 <= i < vs1.len() ==> (#[trigger] vs1[i])@.function_calls == vs2[i]@.function_calls,
    ensures
        crate::workspace::all_calls(vs1) == crate::workspace::all_calls(vs2),
    decreases vs1.len(),
{
    if vs1.len() > 0 {
        assert forall|i: int| 0 <= i < vs1.drop_last().len() implies (#[trigger] vs1.drop_last()[
            i])@.function_calls == vs2.drop_last()[i]@.function_calls by {
            assert(vs1.drop_last()[i] == vs1[i]);
            assert(vs2.drop_last()[i] == vs2[i]);
        }
        lemma_analysis_deterministic(vs1.drop_last(), vs2.drop_last());
        assert(vs1[vs1.len() - 1]@.function_calls == vs2[vs2.len() - 1]@.function_calls);
    }
}

/// Running the pipeline twice over units that discovered identical edges
/// renders byte-identical diagram text: the text is a function of the
/// combined edge list alone.
pub proof fn lemma_pipeline_deterministic(
    vs1: Seq<crate::visitor::FunctionCallVisitor>,
    vs2: Seq<crate::visitor::FunctionCallVisitor>,
)
    requires
        vs1.len() == vs2.len(),
        forall|i: int|
            0 <= i < vs1.len() ==> (#[trigger] vs1[i])@.function_calls == vs2[i]@.function_calls,
    ensures
        dot_text(
            crate::graph::nodes_of(crate::workspace::all_calls(vs1)),
            crate::graph::edges_indexed(
                crate::workspace::all_calls(vs1),
                crate::graph::nodes_of(crate::workspace::all_calls(vs1)),
            ),
        ) == dot_text(
            crate::graph::nodes_of(crate::workspace::all_calls(vs2)),
            crate::graph::edges_indexed(
                crate::workspace::all_calls(vs2),
                crate::graph::nodes_of(crate::workspace::all_calls(vs2)),
            ),
        ),
{
    lemma_analysis_deterministic(vs1, vs2);
}

/// The palette color at `i`.
fn color_at(i: usize) -> (r: &'static str)
    requires
        i <= 26,
    ensures
        r@ == spec_color(i as int),
{
    if i == 0 {
        "#1e40af"
    } else if i == 1 {
        "#1d4ed8"
    } else if i == 2 {
        "#2563eb"
    } else if i == 3 {
        "#3b82f6"
    } else if i == 4 {
        "#60a5fa"
    } else if i == 5 {
        "#6d28d9"
    } else if i == 6 {
        "#7c3aed"
    } else if i == 7 {
        "#8b5cf6"
    } else if i == 8 {
        "#a78bfa"
    } else if i == 9 {
        "#be185d"
    } else if i == 10 {
        "#db2777"
    } else if i == 11 {
        "#ec4899"
    } else if i == 12 {
        "#f472b6"
    } else if i == 13 {
        "#166534"
    } else if i == 14 {
        "#16a34a"
    } else if i == 15 {
        "#22c55e"
    } else if i == 16 {
        "#4ade80"
    } else if i == 17 {
        "#86efac"
    } else if i == 18 {
        "#facc15"
    } else if i == 19 {
        "#fbbf24"
    } else if i == 20 {
        "#f59e0b"
    } else if i == 21 {
        "#ea580c"
    } else if i == 22 {
        "#f97316"
    } else if i == 23 {
        "#fb923c"
    } else if i == 24 {
        "#dc2626"
    } else if i == 25 {
        "#b91c1c"
    } else {
        "#991b1b"
    }
}

/// The color of a call with sequence number `order` among `total` calls,
/// with the degenerate normalization special-cased to the default color.
fn color_for(order: usize, total: usize) -> (r: &'static str)
    requires
        1 <= order <= total,
    ensures
        r@ == color_of(order as int, total as int),
{
    if total < 2 {
        "black"
    } else {
        let idx128: u128 = ((order - 1) as u128) * 26u128 / ((total - 1) as u128);
        proof {
            let o1 = (order - 1) as int;
            let t1 = (total - 1) as int;
            assert(o1 * 26 <= t1 * 26) by (nonlinear_arith)
                requires
                    o1 <= t1,
            ;
            lemma_div_is_ordered(o1 * 26, t1 * 26, t1);
            lemma_div_by_multiple(26, t1);
            assert(t1 * 26 == 26 * t1) by (nonlinear_arith);
            assert(o1 * 26 / t1 <= 26);
            assert(idx128 == clr_index(order as int, total as int));
        }
        let idx: usize = idx128 as usize;
        color_at(idx)
    }
}

/// Renders the graph as diagram text.  Every edge must join existing nodes
/// and carry a sequence number between 1 and the total call count, as the
/// graphs built by this engine do.
#[verifier::rlimit(60)]
pub fn render_dot(g: &CallGraph) -> (r: String)
    requires
        forall|e: int|
            0 <= e < graph_edge_list(*g).len() ==> (#[trigger] graph_edge_list(*g)[e]).0
                < graph_node_labels(*g).len() && graph_edge_list(*g)[e].1 < graph_node_labels(
                *g,
            ).len() && 1 <= graph_edge_list(*g)[e].2 <= graph_edge_list(*g).len(),
    ensures
        r@ == dot_text(graph_node_labels(*g), graph_edge_list(*g)),
{
    let ghost glabels = graph_node_labels(*g);
    let ghost gedges = graph_edge_list(*g);
    let n = graph_node_count(g);
    let mut labels: Vec<String> = Vec::new();
    let mut i: usize = 0;
    proof {
        assert(labels.deep_view() =~= glabels.subrange(0, 0));
    }
    while i < n
        invariant
            glabels == graph_node_labels(*g),
            n == glabels.len(),
            i <= n,
            labels.deep_view() == glabels.subrange(0, i as int),
            labels@.len() == i,
        decreases n - i,
    {
        let ghost pre = labels.deep_view();
        labels.push(graph_node_label(g, i));
        proof {
            assert(labels.deep_view() =~= pre.push(glabels[i as int]));
            assert(pre.push(glabels[i as int]) =~= glabels.subrange(0, i + 1));
        }
        i = i + 1;
    }
    proof {
        assert(glabels.subrange(0, n as int) =~= glabels);
    }
    let m = graph_edge_count(g);
    let mut edges: Vec<(usize, usize, usize)> = Vec::new();
    let mut e: usize = 0;
    proof {
        assert(edges@ =~= gedges.subrange(0, 0));
    }
    while e < m
        invariant
            gedges == graph_edge_list(*g),
            m == gedges.len(),
            e <= m,
            edges@ == gedges.subrange(0, e as int),
        decreases m - e,
    {
        let ends = graph_edge_endpoints(g, e);
        let order = graph_edge_order(g, e);
        edges.push((ends.0, ends.1, order));
        proof {
            assert(edges@ =~= gedges.subrange(0, e + 1));
        }
        e = e + 1;
    }
    proof {
        assert(gedges.subrange(0, m as int) =~= gedges);
    }
    let sorted = sort_strings(&labels);
    let ghost sdv = sorted.deep_view();
    proof {
        lemma_sort_lex_len(glabels);
    }
    // first-occurrence edges, in sequence order
    let mut fo: Vec<(usize, usize, usize)> = Vec::new();
    let mut seen: Vec<(usize, usize)> = Vec::new();
    let ghost gfo = first_occ(gedges);
    let mut k: usize = 0;
    let ghost seen_set = Set::<(usize, usize)>::empty();
    proof {
        assert(gedges.skip(0) =~= gedges);
        assert(fo@ + fo_from(gedges.skip(0), seen_set) =~= gfo);
    }
    while k < edges.len()
        invariant
            gedges == graph_edge_list(*g),
            edges@ == gedges,
            m == gedges.len(),
            k <= m,
            gfo == first_occ(gedges),
            fo@ + fo_from(gedges.skip(k as int), seen_set) == gfo,
            forall|p: (usize, usize)| seen_set.contains(p) <==> seen@.contains(p),
        decreases m - k,
    {
        let edge = edges[k];
        proof {
            assert(edge == gedges[k as int]);
            assert(gedges.skip(k as int)[0] == gedges[k as int]);
            assert(gedges.skip(k as int).drop_first() =~= gedges.skip(k as int + 1));
        }
        let pair = (edge.0, edge.1);
        let mut hit = false;
        let mut s: usize = 0;
        while s < seen.len()
            invariant
                s <= seen@.len(),
                hit ==> seen@.contains(pair),
                !hit ==> forall|j: int| 0 <= j < s ==> seen@[j] != pair,
            decreases seen@.len() - s,
        {
            if seen[s].0 == pair.0 && seen[s].1 == pair.1 {
                hit = true;
                s = seen.len();
            } else {
                s = s + 1;
            }
        }
        proof {
            if !hit {
                assert(!seen@.contains(pair));
            }
        }
        if !hit {
            let ghost pre_fo = fo@;
            let ghost pre_seen = seen@;
            fo.push(edge);
            seen.push(pair);
            proof {
                assert(!seen_set.contains(pair));
                assert(fo@ =~= pre_fo.push(edge));
                assert forall|p: (usize, usize)| seen_set.insert(pair).contains(p) <==> seen@
                    .contains(p) by {
                    if seen_set.insert(pair).contains(p) {
                        if p == pair {
                            assert(seen@[pre_seen.len() as int] == p);
                        } else {
                            assert(pre_seen.contains(p));
                            let w = choose|w: int| 0 <= w < pre_seen.len() && pre_seen[w] == p;
                            assert(seen@[w] == p);
                        }
                    }
                    if seen@.contains(p) {
                        let w = choose|w: int| 0 <= w < seen@.len() && seen@[w] == p;
                        if w < pre_seen.len() {
                            assert(pre_seen[w] == p);
                        }
                    }
                }
                assert(pre_fo.push(edge) + fo_from(gedges.skip(k as int + 1), seen_set.insert(
                    pair)) =~= pre_fo + fo_from(gedges.skip(k as int), seen_set));
            }
            proof {
                seen_set = seen_set.insert(pair);
            }
        } else {
            proof {
                assert(seen_set.contains(pair));
            }
        }
        k = k + 1;
    }
    proof {
        assert(gedges.skip(m as int).len() == 0);
        assert(fo@ + fo_from(gedges.skip(m as int), seen_set) =~= fo@);
        assert(fo@ == gfo);
    }
    // node colors, by insertion index
    let mut colors: Vec<String> = Vec::new();
    let mut c: usize = 0;
    proof {
        reveal_strlit("black");
    }
    while c < n
        invariant
            c <= n,
            colors@.len() == c,
            forall|j: int| 0 <= j < c ==> (#[trigger] colors@[j])@ == default_color(),
        decreases n - c,
    {
        colors.push(String::from_str("black"));
        c = c + 1;
    }
    let mut t: usize = 0;
    proof {
        assert(gfo.subrange(0, 0) =~= Seq::<(usize, usize, usize)>::empty());
        assert forall|node: int| 0 <= node < n implies (#[trigger] colors@[node])@
            == last_color_to(gfo.subrange(0, 0), node, m as int) by {}
    }
    while t < fo.len()
        invariant
            gedges == graph_edge_list(*g),
            glabels == graph_node_labels(*g),
            n == glabels.len(),
            m == gedges.len(),
            forall|e2: int|
                0 <= e2 < gedges.len() ==> (#[trigger] gedges[e2]).0 < n && gedges[e2].1 < n
                    && 1 <= gedges[e2].2 <= m,
            fo@ == gfo,
            gfo == first_occ(gedges),
            t <= gfo.len(),
            colors@.len() == n,
            forall|node: int|
                0 <= node < n ==> (#[trigger] colors@[node])@ == last_color_to(
                    gfo.subrange(0, t as int),
                    node,
                    m as int,
                ),
        decreases gfo.len() - t,
    {
        let edge = fo[t];
        proof {
            assert(edge == gfo[t as int]);
            lemma_fo_elems(gedges, Set::empty(), t as int);
            let w = choose|w: int| 0 <= w < gedges.len() && gedges[w] == edge;
            assert(gedges[w].1 < n && 1 <= gedges[w].2 <= m);
        }
        let col = color_for(edge.2, m);
        let ghost pre = colors@;
        vstd::std_specs::core::index_set(&mut colors, edge.1, String::from_str(col));
        proof {
            assert forall|node: int| 0 <= node < n implies (#[trigger] colors@[node])@
                == last_color_to(gfo.subrange(0, t as int + 1), node, m as int) by {
                assert(gfo.subrange(0, t as int + 1).drop_last() =~= gfo.subrange(0, t as int));
                assert(gfo.subrange(0, t as int + 1).last() == gfo[t as int]);
                if node != edge.1 {
                    assert(colors@[node] == pre[node]);
                }
            }
        }
        t = t + 1;
    }
    proof {
        assert(gfo.subrange(0, gfo.len() as int) =~= gfo);
    }
    // assemble the text
    let mut out = String::new();
    out.append("digraph {\n");
    out.append("    node [shape=box];\n\n");
    let ghost header = "digraph {\n"@ + "    node [shape=box];\n\n"@;
    proof {
        assert(out@ =~= header);
    }
    let mut x: usize = 0;
    proof {
        assert(out@ =~= header + node_section(sdv, glabels, gfo, m as int, 0));
    }
    while x < sorted.len()
        invariant
            gedges == graph_edge_list(*g),
            glabels == graph_node_labels(*g),
            labels.deep_view() == glabels,
            labels@.len() == n,
            n == glabels.len(),
            m == gedges.len(),
            forall|e2: int|
                0 <= e2 < gedges.len() ==> (#[trigger] gedges[e2]).0 < n && gedges[e2].1 < n
                    && 1 <= gedges[e2].2 <= m,
            sdv == sorted.deep_view(),
            sdv == sort_lex(glabels),
            sdv.len() == sorted@.len(),
            sdv.len() == n,
            fo@ == gfo,
            gfo == first_occ(gedges),
            colors@.len() == n,
            forall|node: int|
                0 <= node < n ==> (#[trigger] colors@[node])@ == last_color_to(
                    gfo,
                    node,
                    m as int,
                ),
            x <= n,
            out@ == header + node_section(sdv, glabels, gfo, m as int, x as int),
        decreases n - x,
    {
        proof {
            assert(sdv[x as int] == sorted@[x as int]@);
            assert(glabels.contains(sdv[x as int])) by {
                lemma_sort_lex_contains(glabels, sdv[x as int]);
                assert(sdv.contains(sdv[x as int]));
            }
            lemma_idx_of(glabels, sdv[x as int]);
        }
        let ghost pre = out@;
        out.append("    ");
        let id_str = dec_string(x);
        out.append(id_str.as_str());
        out.append(" [label=\"");
        let stripped = strip_quotes(sorted[x].as_str());
        out.append(stripped.as_str());
        out.append("\", color=\"");
        let oi = find_name(&labels, sorted[x].as_str());
        out.append(colors[oi].as_str());
        out.append("\", penwidth=2.0];\n");
        proof {
            assert(out@ =~= pre + node_line(x as int, sdv[x as int], last_color_to(
                gfo,
                idx_of(glabels, sdv[x as int]),
                m as int,
            )));
            assert(pre + node_line(x as int, sdv[x as int], last_color_to(
                gfo,
                idx_of(glabels, sdv[x as int]),
                m as int,
            )) =~= header + node_section(sdv, glabels, gfo, m as int, x as int + 1));
        }
        x = x + 1;
    }
    out.append("\n");
    let ghost mid = header + node_section(sdv, glabels, gfo, m as int, n as int) + "\n"@;
    proof {
        assert(out@ =~= mid);
        assert(out@ =~= mid + edge_section(gfo, glabels, sdv, m as int, 0));
    }
    let mut y: usize = 0;
    while y < fo.len()
        invariant
            gedges == graph_edge_list(*g),
            glabels == graph_node_labels(*g),
            labels.deep_view() == glabels,
            labels@.len() == n,
            n == glabels.len(),
            m == gedges.len(),
            forall|e2: int|
                0 <= e2 < gedges.len() ==> (#[trigger] gedges[e2]).0 < n && gedges[e2].1 < n
                    && 1 <= gedges[e2].2 <= m,
            sdv == sorted.deep_view(),
            sdv == sort_lex(glabels),
            sdv.len() == sorted@.len(),
            sdv.len() == n,
            fo@ == gfo,
            gfo == first_occ(gedges),
            mid == header + node_section(sdv, glabels, gfo, m as int, n as int) + "\n"@,
            y <= gfo.len(),
            out@ == mid + edge_section(gfo, glabels, sdv, m as int, y as int),
        decreases gfo.len() - y,
    {
        let edge = fo[y];
        proof {
            assert(edge == gfo[y as int]);
            lemma_fo_elems(gedges, Set::empty(), y as int);
            let w = choose|w: int| 0 <= w < gedges.len() && gedges[w] == edge;
            assert(edge.0 < n && edge.1 < n && 1 <= edge.2 <= m);
            assert(glabels[edge.0 as int] == labels.deep_view()[edge.0 as int]);
            assert(labels.deep_view()[edge.0 as int] == labels@[edge.0 as int]@);
            assert(glabels[edge.1 as int] == labels@[edge.1 as int]@);
            assert(sdv.contains(glabels[edge.0 as int])) by {
                lemma_sort_lex_contains(glabels, glabels[edge.0 as int]);
            }
            assert(sdv.contains(glabels[edge.1 as int])) by {
                lemma_sort_lex_contains(glabels, glabels[edge.1 as int]);
            }
            lemma_idx_of(sdv, glabels[edge.0 as int]);
            lemma_idx_of(sdv, glabels[edge.1 as int]);
        }
        let from_id = find_name(&sorted, labels[edge.0].as_str());
        let to_id = find_name(&sorted, labels[edge.1].as_str());
        let col = color_for(edge.2, m);
        let ghost pre = out@;
        out.append("    ");
        let a = dec_string(from_id);
        out.append(a.as_str());
        out.append(" -> ");
        let b = dec_string(to_id);
        out.append(b.as_str());
        out.append(" [label=\"");
        let w_str = dec_string(edge.2);
        out.append(w_str.as_str());
        out.append("\", color=\"");
        out.append(col);
        out.append("\", fontcolor=\"");
        out.append(col);
        out.append("\", penwidth=2.0];\n");
        proof {
            let el = edge_line(
                idx_of(sdv, glabels[edge.0 as int]),
                idx_of(sdv, glabels[edge.1 as int]),
                edge.2 as int,
                color_of(edge.2 as int, m as int),
            );
            assert(out@ =~= pre + el);
            assert(pre + el =~= mid + edge_section(gfo, glabels, sdv, m as int, y as int + 1));
        }
        y = y + 1;
    }
    out.append("}\n");
    proof {
        assert(out@ =~= dot_text(glabels, gedges));
    }
    out
}

} // verus!
