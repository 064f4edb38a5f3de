use handletest::rows::{NodeRow, OccurrenceRow, PathRow, TestRecords};
use handletest::sort::{sort_node_rows, sort_path_rows, sort_u64s};

fn sample_records() -> TestRecords {
    let node_rows = vec![
        NodeRow {
            node_id: 1,
            seq: b"ACGT".to_vec(),
            left_edges: vec![],
            right_edges: vec![4, 6],
        },
        NodeRow {
            node_id: 2,
            seq: b"G".to_vec(),
            left_edges: vec![2],
            right_edges: vec![],
        },
    ];
    let path_rows = vec![PathRow {
        path_name: String::from("p1"),
        handles: vec![2, 4],
    }];
    let occur_rows = vec![
        OccurrenceRow {
            node_id: 1,
            path_name: String::from("p1"),
            step: 0,
        },
        OccurrenceRow {
            node_id: 2,
            path_name: String::from("p1"),
            step: 1,
        },
    ];
    TestRecords {
        node_row_count: node_rows.len(),
        path_row_count: path_rows.len(),
        occur_row_count: occur_rows.len(),
        node_rows,
        path_rows,
        occur_rows,
    }
}

#[test]
fn round_trip_restores_aggregate() {
    let records = sample_records();
    let text = records.serialize().unwrap();
    let back = TestRecords::deserialize(&text).unwrap();
    assert_eq!(back, records);
}

#[test]
fn serialize_exact_layout() {
    let records = sample_records();
    let text = records.serialize().unwrap();
    assert_eq!(
        text,
        "2\t1\t2\n1\tACGT\t\t4,6\n2\tG\t2\t\np1\t2,4\n1\tp1\t0\n2\tp1\t1\n"
    );
}

#[test]
fn serialize_empty_snapshot() {
    let records = TestRecords {
        node_row_count: 0,
        path_row_count: 0,
        occur_row_count: 0,
        node_rows: vec![],
        path_rows: vec![],
        occur_rows: vec![],
    };
    assert_eq!(records.serialize().unwrap(), "0\t0\t0\n");
}

#[test]
fn serialize_rejects_invalid_sequence() {
    let records = TestRecords {
        node_row_count: 1,
        path_row_count: 0,
        occur_row_count: 0,
        node_rows: vec![NodeRow {
            node_id: 7,
            seq: vec![0xFF, 0xFE],
            left_edges: vec![],
            right_edges: vec![],
        }],
        path_rows: vec![],
        occur_rows: vec![],
    };
    assert!(records.serialize().is_err());
}

#[test]
fn deserialize_empty_snapshot() {
    let records = TestRecords::deserialize("0\t0\t0\n").unwrap();
    assert_eq!(records.node_row_count, 0);
    assert_eq!(records.path_row_count, 0);
    assert_eq!(records.occur_row_count, 0);
}

#[test]
fn deserialize_missing_lines_fails() {
    let text = "5\t0\t0\n1\tA\t\t\n2\tC\t\t\n";
    assert!(TestRecords::deserialize(text).is_none());
}

#[test]
fn deserialize_short_header_fails() {
    assert!(TestRecords::deserialize("1\t2\n").is_none());
    assert!(TestRecords::deserialize("").is_none());
}

#[test]
fn deserialize_non_numeral_header_fails() {
    assert!(TestRecords::deserialize("a\t0\t0\n").is_none());
    assert!(TestRecords::deserialize("-1\t0\t0\n").is_none());
}

#[test]
fn deserialize_bad_node_id_fails() {
    assert!(TestRecords::deserialize("1\t0\t0\nx\tACGT\t\t\n").is_none());
}

#[test]
fn deserialize_bad_occur_step_fails() {
    assert!(TestRecords::deserialize("0\t0\t1\n3\tname\tstep\n").is_none());
}

#[test]
fn deserialize_path_line_without_tab_fails() {
    assert!(TestRecords::deserialize("0\t1\t0\nname-no-tab\n").is_none());
}

#[test]
fn deserialize_drops_unparsable_edge_elements() {
    let text = "1\t0\t0\n7\tA\t3,x,5\t99999999999999999999999\n";
    let records = TestRecords::deserialize(text).unwrap();
    assert_eq!(records.node_rows[0].left_edges, vec![3, 5]);
    assert_eq!(records.node_rows[0].right_edges, Vec::<u64>::new());
}

#[test]
fn deserialize_counts_match_lengths() {
    let text = sample_records().serialize().unwrap();
    let records = TestRecords::deserialize(&text).unwrap();
    assert_eq!(records.node_row_count, records.node_rows.len());
    assert_eq!(records.path_row_count, records.path_rows.len());
    assert_eq!(records.occur_row_count, records.occur_rows.len());
}

#[test]
fn deserialize_ignores_trailing_lines() {
    let records = TestRecords::deserialize("0\t0\t0\nleftover\n").unwrap();
    assert_eq!(records.node_row_count, 0);
}

#[test]
fn deserialize_u64_boundaries() {
    let max = TestRecords::deserialize("1\t0\t0\n18446744073709551615\tA\t\t\n").unwrap();
    assert_eq!(max.node_rows[0].node_id, u64::MAX);
    assert!(TestRecords::deserialize("1\t0\t0\n18446744073709551616\tA\t\t\n").is_none());
}

#[test]
fn deserialize_without_trailing_newline() {
    let records = TestRecords::deserialize("1\t0\t0\n3\tAC\t\t").unwrap();
    assert_eq!(records.node_rows[0].node_id, 3);
    assert_eq!(records.node_rows[0].seq, b"AC".to_vec());
}

#[test]
fn deserialize_accepts_leading_zeros() {
    let records = TestRecords::deserialize("1\t0\t0\n007\tA\t010\t\n").unwrap();
    assert_eq!(records.node_rows[0].node_id, 7);
    assert_eq!(records.node_rows[0].left_edges, vec![10]);
}

#[test]
fn sort_is_idempotent() {
    let rows = vec![
        NodeRow {
            node_id: 9,
            seq: b"T".to_vec(),
            left_edges: vec![],
            right_edges: vec![],
        },
        NodeRow {
            node_id: 2,
            seq: b"AA".to_vec(),
            left_edges: vec![5],
            right_edges: vec![],
        },
        NodeRow {
            node_id: 2,
            seq: b"A".to_vec(),
            left_edges: vec![],
            right_edges: vec![1],
        },
    ];
    let once = sort_node_rows(rows);
    let twice = sort_node_rows(once.clone());
    assert_eq!(once, twice);

    let ints = sort_u64s(vec![5, 3, 3, 1]);
    assert_eq!(ints, vec![1, 3, 3, 5]);
    assert_eq!(sort_u64s(ints.clone()), ints);
}

#[test]
fn path_rows_sort_by_name_code_points() {
    let mk = |name: &str| PathRow {
        path_name: String::from(name),
        handles: vec![],
    };
    let sorted = sort_path_rows(vec![mk("z"), mk("é"), mk("a")]);
    let names: Vec<&str> = sorted.iter().map(|r| r.path_name.as_str()).collect();
    assert_eq!(names, vec!["a", "z", "é"]);
}

#[test]
fn round_trip_non_ascii_name() {
    let records = TestRecords {
        node_row_count: 0,
        path_row_count: 1,
        occur_row_count: 0,
        node_rows: vec![],
        path_rows: vec![PathRow {
            path_name: String::from("pé→q"),
            handles: vec![6, 2],
        }],
        occur_rows: vec![],
    };
    let text = records.serialize().unwrap();
    assert_eq!(text, "0\t1\t0\npé→q\t6,2\n");
    let back = TestRecords::deserialize(&text).unwrap();
    assert_eq!(back, records);
}

#[test]
fn node_rows_sort_by_full_tuple() {
    let rows = vec![
        NodeRow {
            node_id: 1,
            seq: b"C".to_vec(),
            left_edges: vec![],
            right_edges: vec![],
        },
        NodeRow {
            node_id: 1,
            seq: b"A".to_vec(),
            left_edges: vec![2],
            right_edges: vec![],
        },
        NodeRow {
            node_id: 1,
            seq: b"A".to_vec(),
            left_edges: vec![1],
            right_edges: vec![],
        },
    ];
    let sorted = sort_node_rows(rows);
    assert_eq!(sorted[0].seq, b"A".to_vec());
    assert_eq!(sorted[0].left_edges, vec![1]);
    assert_eq!(sorted[1].left_edges, vec![2]);
    assert_eq!(sorted[2].seq, b"C".to_vec());
}
