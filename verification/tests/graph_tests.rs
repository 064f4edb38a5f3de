use gfa::gfa::Orientation;
use handlegraph::handle::{Edge, Handle};
use handlegraph::mutablehandlegraph::AdditiveHandleGraph;
use handlegraph::packedgraph::PackedGraph;
use handlegraph::pathhandlegraph::{GraphPaths, MutableGraphPaths};

use handletest::extract::{get_graph_rows, get_node_rows};
use handletest::rows::TestRecords;

fn forward(id: u64) -> Handle {
    Handle::new(id, Orientation::Forward)
}

#[test]
fn scenario_single_node() {
    let mut graph = PackedGraph::default();
    graph.create_handle(b"ACGT", 1u64);

    let records = get_graph_rows(&graph);
    assert_eq!(records.node_row_count, 1);
    assert_eq!(records.path_row_count, 0);
    assert_eq!(records.occur_row_count, 0);

    let text = records.serialize().unwrap();
    assert_eq!(text, "1\t0\t0\n1\tACGT\t\t\n");
}

#[test]
fn scenario_two_nodes_one_edge() {
    let mut graph = PackedGraph::default();
    graph.create_handle(b"A", 1u64);
    graph.create_handle(b"C", 2u64);
    graph.create_edge(Edge(forward(1), forward(2)));

    let records = get_graph_rows(&graph);
    assert_eq!(records.node_row_count, 2);
    assert_eq!(records.path_row_count, 0);
    assert_eq!(records.occur_row_count, 0);

    let text = records.serialize().unwrap();
    assert!(text.starts_with("2\t0\t0\n"));

    let rows = &records.node_rows;
    assert_eq!(rows[0].node_id, 1);
    assert_eq!(rows[0].left_edges, Vec::<u64>::new());
    assert_eq!(rows[0].right_edges, vec![forward(2).0]);
    assert_eq!(rows[1].node_id, 2);
    assert_eq!(rows[1].left_edges, vec![forward(1).0]);
    assert_eq!(rows[1].right_edges, Vec::<u64>::new());
}

#[test]
fn scenario_path_over_two_nodes() {
    let mut graph = PackedGraph::default();
    graph.create_handle(b"A", 1u64);
    graph.create_handle(b"C", 2u64);
    graph.create_edge(Edge(forward(1), forward(2)));
    let path_id = graph.create_path(b"p", false).unwrap();
    graph.path_append_step(path_id, forward(1));
    graph.path_append_step(path_id, forward(2));

    let records = get_graph_rows(&graph);
    assert_eq!(records.node_row_count, 2);
    assert_eq!(records.path_row_count, 1);
    assert_eq!(records.occur_row_count, 2);

    let path = &records.path_rows[0];
    assert_eq!(path.path_name, "p");
    assert_eq!(path.handles, vec![forward(1).0, forward(2).0]);

    let occurs = &records.occur_rows;
    assert_eq!(occurs[0].node_id, 1);
    assert_eq!(occurs[0].path_name, "p");
    assert_eq!(occurs[1].node_id, 2);
    assert_eq!(occurs[1].path_name, "p");
}

#[test]
fn scenario_undecodable_path_name_skipped() {
    let mut graph = PackedGraph::default();
    graph.create_handle(b"A", 1u64);
    graph.create_handle(b"C", 2u64);
    let good = graph.create_path(b"ok", false).unwrap();
    graph.path_append_step(good, forward(1));
    let bad = graph.create_path(&[0xFF, 0xFE], false).unwrap();
    graph.path_append_step(bad, forward(2));

    let records = get_graph_rows(&graph);
    assert_eq!(records.path_row_count, 1);
    assert_eq!(records.path_rows[0].path_name, "ok");
    assert_eq!(records.occur_row_count, 1);
    assert_eq!(records.occur_rows[0].node_id, 1);
    assert_eq!(records.occur_rows[0].path_name, "ok");
}

#[test]
fn extraction_is_deterministic_across_insertion_order() {
    let mut g1 = PackedGraph::default();
    g1.create_handle(b"A", 1u64);
    g1.create_handle(b"C", 2u64);
    g1.create_handle(b"GT", 3u64);
    g1.create_edge(Edge(forward(1), forward(2)));
    g1.create_edge(Edge(forward(2), forward(3)));
    g1.create_edge(Edge(forward(1), forward(3)));

    let mut g2 = PackedGraph::default();
    g2.create_handle(b"GT", 3u64);
    g2.create_handle(b"A", 1u64);
    g2.create_handle(b"C", 2u64);
    g2.create_edge(Edge(forward(1), forward(3)));
    g2.create_edge(Edge(forward(2), forward(3)));
    g2.create_edge(Edge(forward(1), forward(2)));

    let t1 = get_graph_rows(&g1).serialize().unwrap();
    let t2 = get_graph_rows(&g2).serialize().unwrap();
    assert_eq!(t1, t2);

    let again = get_graph_rows(&g1).serialize().unwrap();
    assert_eq!(t1, again);
}

#[test]
fn extracted_edge_lists_are_sorted() {
    let mut graph = PackedGraph::default();
    graph.create_handle(b"A", 1u64);
    graph.create_handle(b"C", 2u64);
    graph.create_handle(b"G", 3u64);
    graph.create_handle(b"T", 4u64);
    graph.create_edge(Edge(forward(4), forward(1)));
    graph.create_edge(Edge(forward(3), forward(1)));
    graph.create_edge(Edge(forward(2), forward(1)));
    graph.create_edge(Edge(forward(1), forward(4)));
    graph.create_edge(Edge(forward(1), forward(3)));

    let rows = get_node_rows(&graph);
    for row in rows.iter() {
        for w in row.left_edges.windows(2) {
            assert!(w[0] <= w[1]);
        }
        for w in row.right_edges.windows(2) {
            assert!(w[0] <= w[1]);
        }
    }
    let one = &rows[0];
    assert_eq!(one.node_id, 1);
    assert_eq!(one.left_edges, vec![forward(2).0, forward(3).0, forward(4).0]);
    assert_eq!(one.right_edges, vec![forward(3).0, forward(4).0]);
}

#[test]
fn extracted_rows_round_trip() {
    let mut graph = PackedGraph::default();
    graph.create_handle(b"ACGT", 1u64);
    graph.create_handle(b"C", 2u64);
    graph.create_edge(Edge(forward(1), forward(2)));
    let path_id = graph.create_path(b"walk", false).unwrap();
    graph.path_append_step(path_id, forward(1));
    graph.path_append_step(path_id, forward(2));

    let records = get_graph_rows(&graph);
    let text = records.serialize().unwrap();
    let back = TestRecords::deserialize(&text).unwrap();
    assert_eq!(back, records);
}
