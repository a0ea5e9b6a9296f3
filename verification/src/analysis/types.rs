//! The data-flow graph of a source file.
use vstd::prelude::*;

verus! {

/// What a node of the graph stands for.
#[derive(Clone, Copy, Debug, PartialEq, Eq, Structural, PartialOrd, Ord, Hash)]
pub enum FlowNodeType {
    Function,
    Variable,
    Input,
    Output,
}

/// A node of the graph: a named item of a file and the rows it spans.
#[derive(Clone, Debug, PartialEq, Eq, Hash)]
pub struct FlowNode {
    pub id: usize,
    pub label: String,
    pub node_type: FlowNodeType,
    pub file_path: String,
    pub start_row: usize,
    pub end_row: usize,
}

pub struct FlowNodeView {
    pub id: nat,
    pub label: Seq<char>,
    pub node_type: FlowNodeType,
    pub file_path: Seq<char>,
    pub start_row: nat,
    pub end_row: nat,
}

impl View for FlowNode {
    type V = FlowNodeView;

    open spec fn view(&self) -> FlowNodeView {
        FlowNodeView {
            id: self.id as nat,
            label: self.label@,
            node_type: self.node_type,
            file_path: self.file_path@,
            start_row: self.start_row as nat,
            end_row: self.end_row as nat,
        }
    }
}

/// An edge of the graph, from and to node ids.
#[derive(Clone, Debug)]
pub struct FlowEdge {
    pub source: usize,
    pub target: usize,
    pub label: Option<String>,
}

/// The graph of a file: its nodes and the edges between them.
#[derive(Clone, Debug)]
pub struct DataFlowGraph {
    pub nodes: Vec<FlowNode>,
    pub edges: Vec<FlowEdge>,
}

pub open spec fn flow_node_views(v: Seq<FlowNode>) -> Seq<FlowNodeView> {
    v.map_values(|n: FlowNode| n@)
}

pub open spec fn edge_pairs(v: Seq<FlowEdge>) -> Seq<(nat, nat)> {
    v.map_values(|e: FlowEdge| (e.source as nat, e.target as nat))
}

impl DataFlowGraph {
    /// Each node's id is its position, and each edge joins two distinct
    /// nodes of the graph.
    pub open spec fn wf(&self) -> bool {
        &&& forall|i: int| 0 <= i < self.nodes@.len() ==> #[trigger] self.nodes@[i].id == i
        &&& forall|k: int|
            0 <= k < self.edges@.len() ==> (#[trigger] self.edges@[k]).source < self.nodes@.len()
                && self.edges@[k].target < self.nodes@.len() && self.edges@[k].source
                != self.edges@[k].target
    }

    /// The graph with no nodes and no edges.
    pub fn empty() -> (g: Self)
        ensures
            g.nodes@.len() == 0,
            g.edges@.len() == 0,
    {
        DataFlowGraph { nodes: Vec::new(), edges: Vec::new() }
    }
}

} // verus!
