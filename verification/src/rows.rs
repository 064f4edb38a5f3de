//! Row records extracted from a graph, and the snapshot aggregate that
//! bundles them together with their counts.

use vstd::prelude::*;

verus! {

/// Mathematical value of a [`NodeRow`].
pub struct NodeRowV {
    pub node_id: u64,
    pub seq: Seq<u8>,
    pub left_edges: Seq<u64>,
    pub right_edges: Seq<u64>,
}

/// Mathematical value of a [`PathRow`].
pub struct PathRowV {
    pub path_name: Seq<char>,
    pub handles: Seq<u64>,
}

/// Mathematical value of an [`OccurrenceRow`].
pub struct OccurrenceRowV {
    pub node_id: u64,
    pub path_name: Seq<char>,
    pub step: u64,
}

/// Mathematical value of a [`TestRecords`] snapshot.
pub struct TestRecordsV {
    pub node_row_count: nat,
    pub path_row_count: nat,
    pub occur_row_count: nat,
    pub node_rows: Seq<NodeRowV>,
    pub path_rows: Seq<PathRowV>,
    pub occur_rows: Seq<OccurrenceRowV>,
}

/// One node: its id, its forward-orientation sequence, and the directed-handle
/// encodings of its left and right neighbours, each list sorted ascending.
#[derive(Debug, Clone, PartialEq, Eq)]
pub struct NodeRow {
    pub node_id: u64,
    pub seq: Vec<u8>,
    pub left_edges: Vec<u64>,
    pub right_edges: Vec<u64>,
}

/// One path: its display name and the handles it visits, in path order.
#[derive(Debug, Clone, PartialEq, Eq)]
pub struct PathRow {
    pub path_name: String,
    pub handles: Vec<u64>,
}

/// One visit of a node by a path at a packed step position.
#[derive(Debug, Clone, PartialEq, Eq)]
pub struct OccurrenceRow {
    pub node_id: u64,
    pub path_name: String,
    pub step: u64,
}

/// The snapshot aggregate: the three row sets and their counts.
#[derive(Debug, Clone, PartialEq, Eq)]
pub struct TestRecords {
    pub node_row_count: usize,
    pub path_row_count: usize,
    pub occur_row_count: usize,
    pub node_rows: Vec<NodeRow>,
    pub path_rows: Vec<PathRow>,
    pub occur_rows: Vec<OccurrenceRow>,
}

impl View for NodeRow {
    type V = NodeRowV;

    open spec fn view(&self) -> NodeRowV {
        NodeRowV {
            node_id: self.node_id,
            seq: self.seq@,
            left_edges: self.left_edges@,
            right_edges: self.right_edges@,
        }
    }
}

impl DeepView for NodeRow {
    type V = NodeRowV;

    open spec fn deep_view(&self) -> NodeRowV {
        self.view()
    }
}

impl View for PathRow {
    type V = PathRowV;

    open spec fn view(&self) -> PathRowV {
        PathRowV { path_name: self.path_name@, handles: self.handles@ }
    }
}

impl DeepView for PathRow {
    type V = PathRowV;

    open spec fn deep_view(&self) -> PathRowV {
        self.view()
    }
}

impl View for OccurrenceRow {
    type V = OccurrenceRowV;

    open spec fn view(&self) -> OccurrenceRowV {
        OccurrenceRowV {
            node_id: self.node_id,
            path_name: self.path_name@,
            step: self.step,
        }
    }
}

impl DeepView for OccurrenceRow {
    type V = OccurrenceRowV;

    open spec fn deep_view(&self) -> OccurrenceRowV {
        self.view()
    }
}

impl View for TestRecords {
    type V = TestRecordsV;

    open spec fn view(&self) -> TestRecordsV {
        TestRecordsV {
            node_row_count: self.node_row_count as nat,
            path_row_count: self.path_row_count as nat,
            occur_row_count: self.occur_row_count as nat,
            node_rows: self.node_rows.deep_view(),
            path_rows: self.path_rows.deep_view(),
            occur_rows: self.occur_rows.deep_view(),
        }
    }
}

impl TestRecordsV {
    /// The hard invariant of a snapshot: every count field equals the length
    /// of the row sequence it describes.
    pub open spec fn counts_consistent(self) -> bool {
        &&& self.node_row_count == self.node_rows.len()
        &&& self.path_row_count == self.path_rows.len()
        &&& self.occur_row_count == self.occur_rows.len()
    }
}

} // verus!
