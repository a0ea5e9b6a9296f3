use review_tool::analysis::ast::{EdgeEndpoint, ExtractedEdge, ExtractedNode};
use review_tool::analysis::flow::{build_flow_graph, graph_from_extracted};
use review_tool::analysis::layers::{assign_layers, order_nodes_in_layers};
use review_tool::analysis::syntax::{text_is, ParsedSource};
use review_tool::analysis::types::{DataFlowGraph, FlowEdge, FlowNode, FlowNodeType};

const SAMPLE: &str = "fn add(a: i32, b: i32) -> i32 {\n    let c = a + b;\n    c\n}\nfn main() {\n    let x = add(1, 2);\n}\n";

fn edge_list(g: &DataFlowGraph) -> Vec<(usize, usize)> {
    g.edges.iter().map(|e| (e.source, e.target)).collect()
}

fn node(id: usize, label: &str, node_type: FlowNodeType) -> FlowNode {
    FlowNode {
        id,
        label: label.to_owned(),
        node_type,
        file_path: "f.rs".to_owned(),
        start_row: id,
        end_row: id,
    }
}

fn edge(source: usize, target: usize) -> FlowEdge {
    FlowEdge { source, target, label: None }
}

#[test]
fn text_is_compares_whole_strings() {
    assert!(text_is("identifier", "identifier"));
    assert!(!text_is("identifier", "identifiers"));
    assert!(!text_is("", "x"));
}

#[test]
fn extracts_functions_parameters_and_bindings() {
    let parsed = ParsedSource::parse(SAMPLE.to_owned()).expect("rust source parses");
    let nodes = parsed.extract_nodes();
    let seen: Vec<(String, FlowNodeType, usize, usize)> = nodes
        .iter()
        .map(|n| (n.name.clone(), n.node_type, n.start_row, n.end_row))
        .collect();
    assert_eq!(
        seen,
        vec![
            ("add".to_owned(), FlowNodeType::Function, 0, 3),
            ("a".to_owned(), FlowNodeType::Input, 0, 0),
            ("b".to_owned(), FlowNodeType::Input, 0, 0),
            ("c".to_owned(), FlowNodeType::Variable, 1, 1),
            ("main".to_owned(), FlowNodeType::Function, 4, 6),
            ("x".to_owned(), FlowNodeType::Variable, 5, 5),
        ]
    );
}

#[test]
fn extracts_containment_then_call_edges() {
    let parsed = ParsedSource::parse(SAMPLE.to_owned()).expect("rust source parses");
    let nodes = parsed.extract_nodes();
    let edges = parsed.extract_edges(&nodes);
    assert_eq!(
        edges,
        vec![
            ExtractedEdge { source: EdgeEndpoint::Row(0), target: EdgeEndpoint::Row(1) },
            ExtractedEdge { source: EdgeEndpoint::Row(4), target: EdgeEndpoint::Row(5) },
            ExtractedEdge { source: EdgeEndpoint::Row(4), target: EdgeEndpoint::Row(0) },
        ]
    );
}

#[test]
fn flow_graph_maps_rows_to_the_last_node_starting_there() {
    let g = build_flow_graph(SAMPLE.to_owned(), "src/sample.rs".to_owned());
    let labels: Vec<&str> = g.nodes.iter().map(|n| n.label.as_str()).collect();
    assert_eq!(labels, vec!["add", "a", "b", "c", "main", "x"]);
    for (i, n) in g.nodes.iter().enumerate() {
        assert_eq!(n.id, i);
        assert_eq!(n.file_path, "src/sample.rs");
    }
    assert_eq!(edge_list(&g), vec![(2, 3), (4, 5), (4, 2)]);
    assert!(g.edges.iter().all(|e| e.label.is_none()));
}

#[test]
fn flow_graph_of_empty_source_is_empty() {
    let g = build_flow_graph(String::new(), "empty.rs".to_owned());
    assert!(g.nodes.is_empty());
    assert!(g.edges.is_empty());
}

#[test]
fn extracted_output_edges_get_one_output_node_per_function() {
    let nodes = vec![
        ExtractedNode { name: "f".to_owned(), node_type: FlowNodeType::Function, start_row: 0, end_row: 2 },
        ExtractedNode { name: "v".to_owned(), node_type: FlowNodeType::Variable, start_row: 1, end_row: 1 },
    ];
    let edges = vec![
        ExtractedEdge { source: EdgeEndpoint::Row(0), target: EdgeEndpoint::Row(1) },
        ExtractedEdge { source: EdgeEndpoint::Row(1), target: EdgeEndpoint::Output(0) },
        ExtractedEdge { source: EdgeEndpoint::Row(0), target: EdgeEndpoint::Output(0) },
        ExtractedEdge { source: EdgeEndpoint::Row(1), target: EdgeEndpoint::Output(0) },
        ExtractedEdge { source: EdgeEndpoint::Output(0), target: EdgeEndpoint::Row(1) },
        ExtractedEdge { source: EdgeEndpoint::Row(1), target: EdgeEndpoint::Row(1) },
        ExtractedEdge { source: EdgeEndpoint::Row(7), target: EdgeEndpoint::Row(1) },
    ];
    let g = graph_from_extracted(&nodes, &edges, "lib.rs");
    assert_eq!(g.nodes.len(), 3);
    assert_eq!(g.nodes[2].label, "f →");
    assert_eq!(g.nodes[2].node_type, FlowNodeType::Output);
    assert_eq!((g.nodes[2].start_row, g.nodes[2].end_row), (0, 0));
    assert_eq!(g.nodes[2].id, 2);
    assert_eq!(edge_list(&g), vec![(0, 1), (1, 2), (0, 2)]);
}

#[test]
fn output_node_of_unknown_function_is_labelled_output() {
    let nodes = vec![ExtractedNode {
        name: "v".to_owned(),
        node_type: FlowNodeType::Variable,
        start_row: 1,
        end_row: 1,
    }];
    let edges = vec![ExtractedEdge { source: EdgeEndpoint::Row(1), target: EdgeEndpoint::Output(9) }];
    let g = graph_from_extracted(&nodes, &edges, "lib.rs");
    assert_eq!(g.nodes[1].label, "output →");
    assert_eq!(edge_list(&g), vec![(0, 1)]);
}

#[test]
fn layers_follow_edges_from_roots() {
    let g = build_flow_graph(SAMPLE.to_owned(), "src/sample.rs".to_owned());
    let layers = assign_layers(&g);
    assert_eq!(layers, vec![0, 0, 1, 2, 0, 1]);
    let ordered = order_nodes_in_layers(&g, &layers);
    let groups: Vec<(u32, Vec<usize>)> = ordered.iter().map(|l| (l.layer, l.nodes.clone())).collect();
    assert_eq!(groups, vec![(0, vec![0, 4, 1]), (1, vec![5, 2]), (2, vec![3])]);
}

#[test]
fn layers_take_the_nearest_predecessor() {
    // 0 -> 1 -> 2 and 0 -> 2: node 2 sits one below node 0.
    let g = DataFlowGraph {
        nodes: vec![
            node(0, "f", FlowNodeType::Function),
            node(1, "v", FlowNodeType::Variable),
            node(2, "w", FlowNodeType::Variable),
        ],
        edges: vec![edge(0, 1), edge(1, 2), edge(0, 2)],
    };
    assert_eq!(assign_layers(&g), vec![0, 1, 1]);
}

#[test]
fn output_roots_start_half_way_up() {
    let g = DataFlowGraph {
        nodes: vec![node(0, "out", FlowNodeType::Output), node(1, "v", FlowNodeType::Variable)],
        edges: vec![edge(0, 1)],
    };
    let half = u32::MAX / 2;
    assert_eq!(assign_layers(&g), vec![half, half + 1]);
}

#[test]
fn graph_without_roots_keeps_every_node_at_its_base() {
    // A cycle has no node that is a source only: every node is a root.
    let g = DataFlowGraph {
        nodes: vec![node(0, "a", FlowNodeType::Variable), node(1, "b", FlowNodeType::Input)],
        edges: vec![edge(0, 1), edge(1, 0)],
    };
    assert_eq!(assign_layers(&g), vec![0, 0]);
    let ordered = order_nodes_in_layers(&g, &vec![0, 0]);
    assert_eq!(ordered.len(), 1);
    assert_eq!(ordered[0].nodes, vec![0, 1]);
}

#[test]
fn empty_graph_has_no_layers() {
    let g = DataFlowGraph::empty();
    assert!(assign_layers(&g).is_empty());
    assert!(order_nodes_in_layers(&g, &Vec::new()).is_empty());
}
