use graco::graph_loading::parse_graph_data;

#[test]
fn parses_header_and_adjacency_lines() {
    let g = parse_graph_data("3 4\n2 3\n1\n1\n").unwrap();
    assert_eq!(g.nodes_edge_offset, vec![0, 2, 3]);
    assert_eq!(g.nodes_edges, vec![1, 2, 0, 0]);
}

#[test]
fn last_line_needs_no_line_break() {
    let g = parse_graph_data("2 2\n2\n1").unwrap();
    assert_eq!(g.nodes_edge_offset, vec![0, 1]);
    assert_eq!(g.nodes_edges, vec![1, 0]);
}

#[test]
fn empty_lines_are_nodes_without_edges() {
    let g = parse_graph_data("3 0\n\n\n\n").unwrap();
    assert_eq!(g.nodes_edge_offset, vec![0, 0, 0]);
    assert!(g.nodes_edges.is_empty());
}

#[test]
fn empty_text_reads_as_nothing() {
    assert!(parse_graph_data("").is_none());
}

#[test]
fn header_needs_two_numbers() {
    assert!(parse_graph_data("3\n2\n").is_none());
}

#[test]
fn references_are_one_based() {
    assert!(parse_graph_data("1 1\n0\n").is_none());
}

#[test]
fn letters_break_the_format() {
    assert!(parse_graph_data("2 2\n2 x\n1\n").is_none());
}
