//! The data-flow graph of a source file, from the items and edges that its
//! syntax tree gives.
use vstd::prelude::*;

use crate::analysis::ast::{
    extracted_edges_of, extracted_views, lemma_outline_same, outline, EdgeEndpoint, ExtractedEdge, ExtractedNode,
    ExtractedView,
};
use crate::analysis::syntax::{rust_tree, syntax_view, ParsedSource, SyntaxNode};
use crate::analysis::types::{
    edge_pairs, flow_node_views, DataFlowGraph, FlowEdge, FlowNode, FlowNodeType, FlowNodeView,
};
use crate::text::concat;

verus! {

/// The id of the last item that starts at a row.
pub open spec fn row_id(nodes: Seq<ExtractedView>, row: usize) -> Option<nat>
    decreases nodes.len(),
{
    if nodes.len() == 0 {
        None
    } else if nodes.last().start_row == row {
        Some((nodes.len() - 1) as nat)
    } else {
        row_id(nodes.drop_last(), row)
    }
}

/// The rows of the functions whose output some edge leads to, in the order
/// in which they first occur.
pub open spec fn output_rows(edges: Seq<ExtractedEdge>) -> Seq<usize>
    decreases edges.len(),
{
    if edges.len() == 0 {
        seq![]
    } else {
        let r = output_rows(edges.drop_last());
        match edges.last().target {
            EdgeEndpoint::Output(fr) => if r.contains(fr) {
                r
            } else {
                r.push(fr)
            },
            EdgeEndpoint::Row(_) => r,
        }
    }
}

/// The first position of `x` in `s`.
pub open spec fn position(s: Seq<usize>, x: usize) -> nat
    decreases s.len(),
{
    if s.len() == 0 || s[0] == x {
        0
    } else {
        1 + position(s.drop_first(), x)
    }
}

/// The node an end of an edge stands for: the last item starting at its row,
/// or, as a target only, the output node of its function.
pub open spec fn endpoint_id(
    nodes: Seq<ExtractedView>,
    outs: Seq<usize>,
    e: EdgeEndpoint,
    as_target: bool,
) -> Option<nat> {
    match e {
        EdgeEndpoint::Row(r) => row_id(nodes, r),
        EdgeEndpoint::Output(fr) => if as_target && outs.contains(fr) {
            Some(nodes.len() + position(outs, fr))
        } else {
            None
        },
    }
}

/// The edges of the graph: each extracted edge whose ends both stand for
/// nodes, joins two distinct ones and was not already added.
pub open spec fn graph_edges(
    nodes: Seq<ExtractedView>,
    outs: Seq<usize>,
    edges: Seq<ExtractedEdge>,
) -> Seq<(nat, nat)>
    decreases edges.len(),
{
    if edges.len() == 0 {
        seq![]
    } else {
        let prev = graph_edges(nodes, outs, edges.drop_last());
        let e = edges.last();
        match (endpoint_id(nodes, outs, e.source, false), endpoint_id(nodes, outs, e.target, true)) {
            (Some(s), Some(t)) => if s != t && !prev.contains((s, t)) {
                prev.push((s, t))
            } else {
                prev
            },
            _ => prev,
        }
    }
}

/// The label of the output node of the function at a row.
pub open spec fn output_label(nodes: Seq<ExtractedView>, fr: usize) -> Seq<char> {
    match row_id(nodes, fr) {
        Some(i) => nodes[i as int].name + " →"@,
        None => "output"@ + " →"@,
    }
}

/// The nodes of the graph: one per item, with its position as id, then one
/// output node per function that an edge leads the output of.
pub open spec fn graph_nodes(nodes: Seq<ExtractedView>, outs: Seq<usize>, path: Seq<char>) -> Seq<
    FlowNodeView,
> {
    Seq::new(
        nodes.len(),
        |i: int|
            FlowNodeView {
                id: i as nat,
                label: nodes[i].name,
                node_type: nodes[i].node_type,
                file_path: path,
                start_row: nodes[i].start_row as nat,
                end_row: nodes[i].end_row as nat,
            },
    ) + Seq::new(
        outs.len(),
        |k: int|
            FlowNodeView {
                id: (nodes.len() + k) as nat,
                label: output_label(nodes, outs[k]),
                node_type: FlowNodeType::Output,
                file_path: path,
                start_row: outs[k] as nat,
                end_row: outs[k] as nat,
            },
    )
}

fn find_row(nodes: &[ExtractedNode], row: usize) -> (r: Option<usize>)
    ensures
        match r {
            Some(i) => row_id(extracted_views(nodes@), row) == Some(i as nat),
            None => row_id(extracted_views(nodes@), row) is None,
        },
{
    let ghost all = extracted_views(nodes@);
    let mut k: usize = nodes.len();
    assert(all.take(k as int) =~= all);
    while k > 0
        invariant
            k <= nodes.len(),
            all == extracted_views(nodes@),
            row_id(all, row) == row_id(all.take(k as int), row),
        decreases k,
    {
        assert(all.take(k as int).drop_last() =~= all.take(k - 1));
        assert(all.take(k as int).last() == nodes@[k - 1]@);
        if nodes[k - 1].start_row == row {
            return Some(k - 1);
        }
        k = k - 1;
    }
    None
}

fn find_position(s: &Vec<usize>, x: usize) -> (r: Option<usize>)
    ensures
        match r {
            Some(p) => s@.contains(x) && p == position(s@, x),
            None => !s@.contains(x),
        },
{
    let mut i: usize = 0;
    assert(s@.skip(0) =~= s@);
    while i < s.len()
        invariant
            i <= s.len(),
            forall|j: int| 0 <= j < i ==> s@[j] != x,
            position(s@, x) == i + position(s@.skip(i as int), x),
        decreases s.len() - i,
    {
        assert(s@.skip(i as int)[0] == s@[i as int]);
        assert(s@.skip(i as int).drop_first() =~= s@.skip(i + 1));
        if s[i] == x {
            return Some(i);
        }
        i = i + 1;
    }
    None
}

proof fn lemma_position_bound(s: Seq<usize>, x: usize)
    requires
        s.contains(x),
    ensures
        position(s, x) < s.len(),
        s[position(s, x) as int] == x,
    decreases s.len(),
{
    if s[0] != x {
        let j = choose|j: int| 0 <= j < s.len() && s[j] == x;
        assert(s.drop_first()[j - 1] == x);
        lemma_position_bound(s.drop_first(), x);
    }
}

fn endpoint(
    nodes: &[ExtractedNode],
    outs: &Vec<usize>,
    e: EdgeEndpoint,
    as_target: bool,
) -> (r: Option<usize>)
    requires
        nodes@.len() + outs@.len() <= usize::MAX,
    ensures
        match r {
            Some(i) => endpoint_id(extracted_views(nodes@), outs@, e, as_target) == Some(i as nat),
            None => endpoint_id(extracted_views(nodes@), outs@, e, as_target) is None,
        },
{
    match e {
        EdgeEndpoint::Row(row) => find_row(nodes, row),
        EdgeEndpoint::Output(fr) => {
            if as_target {
                match find_position(outs, fr) {
                    Some(p) => {
                        proof {
                            lemma_position_bound(outs@, fr);
                        }
                        Some(nodes.len() + p)
                    },
                    None => None,
                }
            } else {
                None
            }
        },
    }
}

fn edge_known(edges: &Vec<FlowEdge>, s: usize, t: usize) -> (r: bool)
    ensures
        r == edge_pairs(edges@).contains((s as nat, t as nat)),
{
    let mut i: usize = 0;
    while i < edges.len()
        invariant
            i <= edges.len(),
            forall|j: int| 0 <= j < i ==> edge_pairs(edges@)[j] != (s as nat, t as nat),
        decreases edges.len() - i,
    {
        if edges[i].source == s && edges[i].target == t {
            assert(edge_pairs(edges@)[i as int] == (s as nat, t as nat));
            return true;
        }
        i = i + 1;
    }
    false
}

/// The graph of a file from the items and edges of its syntax tree.
pub fn graph_from_extracted(
    extracted_nodes: &[ExtractedNode],
    extracted_edges: &[ExtractedEdge],
    file_path: &str,
) -> (g: DataFlowGraph)
    requires
        extracted_nodes@.len() + extracted_edges@.len() <= usize::MAX,
    ensures
        g.wf(),
        flow_node_views(g.nodes@) == graph_nodes(
            extracted_views(extracted_nodes@),
            output_rows(extracted_edges@),
            file_path@,
        ),
        edge_pairs(g.edges@) == graph_edges(
            extracted_views(extracted_nodes@),
            output_rows(extracted_edges@),
            extracted_edges@,
        ),
        forall|k: int| 0 <= k < g.edges@.len() ==> (#[trigger] g.edges@[k]).label is None,
{
    let ghost ns = extracted_views(extracted_nodes@);
    let ghost es = extracted_edges@;
    let n = extracted_nodes.len();
    let mut nodes: Vec<FlowNode> = Vec::new();
    let mut i: usize = 0;
    while i < n
        invariant
            i <= n,
            n == extracted_nodes@.len(),
            ns == extracted_views(extracted_nodes@),
            flow_node_views(nodes@) == graph_nodes(ns, seq![], file_path@).take(i as int),
        decreases n - i,
    {
        let x = &extracted_nodes[i];
        let ghost before = nodes@;
        nodes.push(
            FlowNode {
                id: i,
                label: x.name.clone(),
                node_type: x.node_type,
                file_path: file_path.to_owned(),
                start_row: x.start_row,
                end_row: x.end_row,
            },
        );
        let ghost gn = graph_nodes(ns, seq![], file_path@);
        assert(gn[i as int] == nodes@.last()@);
        assert(flow_node_views(nodes@) =~= flow_node_views(before).push(nodes@.last()@));
        assert(flow_node_views(nodes@) =~= gn.take(i + 1));
        i = i + 1;
    }
    assert(graph_nodes(ns, seq![], file_path@).take(i as int) =~= graph_nodes(ns, seq![], file_path@));
    let mut outs: Vec<usize> = Vec::new();
    let mut k: usize = 0;
    assert(es.take(0) =~= seq![]);
    while k < extracted_edges.len()
        invariant
            k <= extracted_edges@.len(),
            n == extracted_nodes@.len(),
            n + extracted_edges@.len() <= usize::MAX,
            ns == extracted_views(extracted_nodes@),
            es == extracted_edges@,
            outs@ == output_rows(es.take(k as int)),
            outs@.len() <= k,
            flow_node_views(nodes@) == graph_nodes(ns, outs@, file_path@),
        decreases extracted_edges@.len() - k,
    {
        let e = extracted_edges[k];
        assert(es.take(k + 1).drop_last() =~= es.take(k as int));
        assert(es.take(k + 1).last() == e);
        match e.target {
            EdgeEndpoint::Output(fr) => {
                match find_position(&outs, fr) {
                    Some(_) => {},
                    None => {
                        proof {
                            lemma_row_id_bound(ns, fr);
                        }
                        let label = match find_row(extracted_nodes, fr) {
                            Some(j) => concat(extracted_nodes[j].name.as_str(), " →"),
                            None => concat("output", " →"),
                        };
                        let ghost before = nodes@;
                        let ghost old_outs = outs@;
                        let id = nodes.len();
                        nodes.push(
                            FlowNode {
                                id,
                                label,
                                node_type: FlowNodeType::Output,
                                file_path: file_path.to_owned(),
                                start_row: fr,
                                end_row: fr,
                            },
                        );
                        outs.push(fr);
                        assert(flow_node_views(nodes@) =~= graph_nodes(ns, outs@, file_path@)) by {
                            assert(flow_node_views(nodes@) =~= flow_node_views(before).push(nodes@.last()@));
                            assert(graph_nodes(ns, outs@, file_path@) =~= graph_nodes(ns, old_outs, file_path@).push(
                                nodes@.last()@,
                            ));
                        }
                    },
                }
            },
            EdgeEndpoint::Row(_) => {},
        }
        k = k + 1;
    }
    assert(es.take(k as int) =~= es);
    let ghost os = outs@;
    let mut edges: Vec<FlowEdge> = Vec::new();
    let mut m: usize = 0;
    while m < extracted_edges.len()
        invariant
            m <= extracted_edges@.len(),
            n == extracted_nodes@.len(),
            n + extracted_edges@.len() <= usize::MAX,
            ns == extracted_views(extracted_nodes@),
            es == extracted_edges@,
            outs@ == os,
            os == output_rows(es),
            os.len() <= es.len(),
            nodes@.len() == n + os.len(),
            edge_pairs(edges@) == graph_edges(ns, os, es.take(m as int)),
            forall|j: int|
                0 <= j < edges@.len() ==> (#[trigger] edges@[j]).label is None && edges@[j].source
                    < nodes@.len() && edges@[j].target < nodes@.len() && edges@[j].source
                    != edges@[j].target,
        decreases extracted_edges@.len() - m,
    {
        let e = extracted_edges[m];
        assert(es.take(m + 1).drop_last() =~= es.take(m as int));
        assert(es.take(m + 1).last() == e);
        let s = endpoint(extracted_nodes, &outs, e.source, false);
        let t = endpoint(extracted_nodes, &outs, e.target, true);
        proof {
            match e.source {
                EdgeEndpoint::Output(fr) => {},
                EdgeEndpoint::Row(r) => {
                    lemma_row_id_bound(ns, r);
                },
            }
            match e.target {
                EdgeEndpoint::Output(fr) => {
                    if os.contains(fr) {
                        lemma_position_bound(os, fr);
                    }
                },
                EdgeEndpoint::Row(r) => {
                    lemma_row_id_bound(ns, r);
                },
            }
        }
        match (s, t) {
            (Some(si), Some(ti)) => {
                if si != ti && !edge_known(&edges, si, ti) {
                    let ghost before = edges@;
                    edges.push(FlowEdge { source: si, target: ti, label: None });
                    assert(edge_pairs(edges@) =~= edge_pairs(before).push((si as nat, ti as nat)));
                }
            },
            _ => {},
        }
        m = m + 1;
    }
    assert(es.take(m as int) =~= es);
    let g = DataFlowGraph { nodes, edges };
    assert forall|i: int| 0 <= i < g.nodes@.len() implies #[trigger] g.nodes@[i].id == i by {
        assert(flow_node_views(g.nodes@)[i] == g.nodes@[i]@);
    }
    g
}

proof fn lemma_row_id_bound(nodes: Seq<ExtractedView>, row: usize)
    ensures
        row_id(nodes, row) matches Some(i) ==> i < nodes.len(),
    decreases nodes.len(),
{
    if nodes.len() > 0 && nodes.last().start_row != row {
        lemma_row_id_bound(nodes.drop_last(), row);
    }
}

/// The graph of a syntax tree's items and edges.
pub open spec fn tree_graph_nodes(root: SyntaxNode, source: Seq<char>, path: Seq<char>) -> Seq<FlowNodeView> {
    let items = outline(root);
    graph_nodes(items, output_rows(extracted_edges_of(items, source)), path)
}

pub open spec fn tree_graph_edges(root: SyntaxNode, source: Seq<char>) -> Seq<(nat, nat)> {
    let items = outline(root);
    let edges = extracted_edges_of(items, source);
    graph_edges(items, output_rows(edges), edges)
}

/// The items and edges of a syntax tree can be numbered in `usize`.
pub open spec fn tree_fits(root: SyntaxNode, source: Seq<char>) -> bool {
    outline(root).len() + extracted_edges_of(outline(root), source).len() <= usize::MAX
}

/// No edge is added twice.
proof fn lemma_graph_edges_distinct(nodes: Seq<ExtractedView>, outs: Seq<usize>, edges: Seq<ExtractedEdge>)
    ensures
        forall|i: int, j: int|
            0 <= i < j < graph_edges(nodes, outs, edges).len() ==> #[trigger] graph_edges(nodes, outs, edges)[i]
                != #[trigger] graph_edges(nodes, outs, edges)[j],
    decreases edges.len(),
{
    if edges.len() > 0 {
        lemma_graph_edges_distinct(nodes, outs, edges.drop_last());
        let prev = graph_edges(nodes, outs, edges.drop_last());
        let all = graph_edges(nodes, outs, edges);
        let e = edges.last();
        match (endpoint_id(nodes, outs, e.source, false), endpoint_id(nodes, outs, e.target, true)) {
            (Some(a), Some(b)) => {
                if a != b && !prev.contains((a, b)) {
                    assert(all == prev.push((a, b)));
                    assert forall|i: int, j: int| 0 <= i < j < all.len() implies #[trigger] all[i] != #[trigger] all[j] by {
                        if j == prev.len() {
                            assert(all[i] == prev[i]);
                            assert(prev.contains(prev[i]));
                        } else {
                            assert(all[i] == prev[i] && all[j] == prev[j]);
                        }
                    }
                } else {
                    assert(all == prev);
                }
            },
            _ => {
                assert(all == prev);
            },
        }
    }
}

/// The graph of the items and edges of a syntax tree, where they fit.
pub open spec fn is_tree_graph(g: DataFlowGraph, root: SyntaxNode, source: Seq<char>, path: Seq<char>) -> bool {
    &&& tree_fits(root, source) ==> flow_node_views(g.nodes@) == tree_graph_nodes(root, source, path)
        && edge_pairs(g.edges@) == tree_graph_edges(root, source)
    &&& !tree_fits(root, source) ==> g.nodes@.len() == 0 && g.edges@.len() == 0
}

/// The edges carry no labels and join no two nodes twice.
pub open spec fn plain_edges(g: DataFlowGraph) -> bool {
    &&& forall|k: int| 0 <= k < g.edges@.len() ==> (#[trigger] g.edges@[k]).label is None
    &&& forall|i: int, j: int|
        0 <= i < j < g.edges@.len() ==> #[trigger] edge_pairs(g.edges@)[i] != #[trigger] edge_pairs(g.edges@)[j]
}

/// The data-flow graph of a parsed source file: the graph of the items and
/// edges of its syntax tree, or no graph when they are too many to number.
pub fn flow_graph_of(parsed: &ParsedSource, file_path: &str) -> (g: DataFlowGraph)
    ensures
        g.wf(),
        plain_edges(g),
        is_tree_graph(g, parsed.root, parsed.source@, file_path@),
{
    let extracted_nodes = parsed.extract_nodes();
    let extracted_edges = parsed.extract_edges(extracted_nodes.as_slice());
    if extracted_nodes.len() > usize::MAX - extracted_edges.len() {
        return DataFlowGraph::empty();
    }
    let g = graph_from_extracted(extracted_nodes.as_slice(), extracted_edges.as_slice(), file_path);
    proof {
        let items = outline(parsed.root);
        let es = extracted_edges_of(items, parsed.source@);
        lemma_graph_edges_distinct(items, output_rows(es), es);
    }
    g
}

/// The data-flow graph of a Rust source file: the graph of the items and
/// edges of the syntax tree that the tree-sitter Rust grammar gives it (no
/// graph when they are too many to number), every edge without a label.
pub fn build_flow_graph(source: String, file_path: String) -> (g: DataFlowGraph)
    ensures
        g.wf(),
        plain_edges(g),
        forall|t: SyntaxNode| #[trigger] syntax_view(t) == rust_tree(source@) ==> is_tree_graph(
            g,
            t,
            source@,
            file_path@,
        ),
{
    let parsed = match ParsedSource::parse(source) {
        Some(p) => p,
        None => return DataFlowGraph::empty(),
    };
    let g = flow_graph_of(&parsed, file_path.as_str());
    assert forall|t: SyntaxNode| #[trigger] syntax_view(t) == rust_tree(source@) implies is_tree_graph(
        g,
        t,
        source@,
        file_path@,
    ) by {
        lemma_outline_same(t, parsed.root);
    }
    g
}

} // verus!
