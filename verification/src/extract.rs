//! Row extraction: read-only queries over a populated handle graph,
//! assembled into rows and sorted into the canonical snapshot order.
//!
//! The graph is an outside collaborator. Its contents are given names —
//! uninterpreted spec functions over the graph value — and each query goes
//! through a trusted wrapper whose contract speaks over those names.
//! Everything after the queries (assembling, name decoding, sorting) is
//! verified, and each extractor's result is pinned to the named contents.
//! Path identifiers are enumerated in a process-seeded hash order, so only
//! the *set* of identifiers is named; the canonical sort absorbs the
//! order, which [`lemma_snapshot_deterministic`] makes precise.

use vstd::prelude::*;
use vstd::relations::sorted_by;
use vstd::utf8::{decode_utf8, valid_utf8};
use handlegraph::handle::{Direction, Handle};
use handlegraph::handlegraph::{IntoHandles, IntoNeighbors, IntoSequences};
use handlegraph::packed::PackedElement;
use handlegraph::packedgraph::PackedGraph;
use handlegraph::pathhandlegraph::{GraphPathNames, GraphPathsRef, IntoNodeOccurrences,
    IntoPathIds, PathId, PathStep, PathSteps};
use crate::codec::str_from_bytes;
use crate::order::{node_row_leq, occur_row_leq, path_row_leq, u64_leq};
use crate::rows::{NodeRow, NodeRowV, OccurrenceRow, OccurrenceRowV, PathRow, PathRowV,
    TestRecords, TestRecordsV};
use crate::sort::{sort_node_rows, sort_occur_rows, sort_path_rows, sort_u64s};

verus! {

broadcast use vstd::seq_lib::group_to_multiset_ensures, vstd::multiset::group_multiset_axioms,
    vstd::set::group_set_axioms;

#[verifier::external_type_specification]
#[verifier::external_body]
pub struct ExPackedGraph(PackedGraph);

/// The handle encodings of the graph's nodes, in the graph's own
/// enumeration order (its packed storage order, a function of the value).
pub uninterp spec fn graph_nodes(g: PackedGraph) -> Seq<u64>;

/// The sequence bytes of a node, read through a handle.
pub uninterp spec fn graph_seq_of(g: PackedGraph, h: u64) -> Seq<u8>;

/// The neighbour handle encodings of a node on one side, in the graph's
/// own adjacency order.
pub uninterp spec fn graph_neighbors_of(g: PackedGraph, h: u64, to_left: bool) -> Seq<u64>;

/// The set of path identifiers the graph knows. A set only: the graph
/// enumerates them in a hash order that is not a function of the value.
pub uninterp spec fn graph_paths(g: PackedGraph) -> Set<u64>;

/// The name bytes of a path, if the identifier denotes one.
pub uninterp spec fn graph_path_name_of(g: PackedGraph, pid: u64) -> Option<Seq<u8>>;

/// The handle encodings a path visits, in path order, if resolvable.
pub uninterp spec fn graph_path_steps_of(g: PackedGraph, pid: u64) -> Option<Seq<u64>>;

/// The (path identifier, packed step) pairs recorded on a node, in the
/// graph's own list order, if the node has an occurrence record.
pub uninterp spec fn graph_occurs_of(g: PackedGraph, h: u64) -> Option<Seq<(u64, u64)>>;

/// Relies on IntoHandles::handles for PackedGraph: one handle per node,
/// enumerated from packed storage, so the sequence is a function of the
/// graph value.
#[verifier::external_body]
fn graph_handles(g: &PackedGraph) -> (r: Vec<u64>)
    ensures
        r@ == graph_nodes(*g),
{
    g.handles().map(|h| h.0).collect()
}

/// Relies on IntoSequences::sequence_vec for PackedGraph: the node's
/// sequence bytes in the handle's orientation. Panics on a handle that is
/// not a node of the graph, so such handles are required out.
#[verifier::external_body]
fn graph_sequence(g: &PackedGraph, h: u64) -> (r: Vec<u8>)
    requires
        graph_nodes(*g).contains(h),
    ensures
        r@ == graph_seq_of(*g, h),
{
    g.sequence_vec(Handle::from_integer(h))
}

/// Relies on IntoNeighbors::neighbors for PackedGraph: the neighbour
/// handle encodings of a node on its left or right side. Panics on a
/// handle that is not a node of the graph, so such handles are required
/// out.
#[verifier::external_body]
fn graph_neighbors(g: &PackedGraph, h: u64, to_left: bool) -> (r: Vec<u64>)
    requires
        graph_nodes(*g).contains(h),
    ensures
        r@ == graph_neighbors_of(*g, h, to_left),
{
    let dir = if to_left {
        Direction::Left
    } else {
        Direction::Right
    };
    g.neighbors(Handle::from_integer(h), dir).map(|n| n.0).collect()
}

/// Relies on IntoPathIds::path_ids for PackedGraph: every path identifier
/// once, from a hash map whose iteration order is process-seeded — so
/// only the set of identifiers is promised, never an order.
#[verifier::external_body]
fn graph_path_ids(g: &PackedGraph) -> (r: Vec<u64>)
    ensures
        r@.no_duplicates(),
        r@.to_set() == graph_paths(*g),
{
    g.path_ids().map(|p| p.0).collect()
}

/// Relies on GraphPathNames::get_path_name for PackedGraph: the byte name
/// of a path, or nothing for an unknown identifier.
#[verifier::external_body]
fn graph_path_name(g: &PackedGraph, pid: u64) -> (r: Option<Vec<u8>>)
    ensures
        r is Some <==> graph_path_name_of(*g, pid) is Some,
        r matches Some(v) ==> graph_path_name_of(*g, pid) == Some(v@),
{
    let name = g.get_path_name(PathId(pid))?;
    Some(name.collect())
}

/// Relies on GraphPathsRef::get_path_ref and PathSteps::steps for
/// PackedGraph: the handle encodings a path visits, in path order.
#[verifier::external_body]
fn graph_path_steps(g: &PackedGraph, pid: u64) -> (r: Option<Vec<u64>>)
    ensures
        r is Some <==> graph_path_steps_of(*g, pid) is Some,
        r matches Some(v) ==> graph_path_steps_of(*g, pid) == Some(v@),
{
    let path_ref = g.get_path_ref(PathId(pid))?;
    Some(path_ref.steps().map(|step| step.handle().0).collect())
}

/// Relies on IntoNodeOccurrences::steps_on_handle for PackedGraph: the
/// (path identifier, packed step) pairs that visit a node.
#[verifier::external_body]
fn graph_steps_on_handle(g: &PackedGraph, h: u64) -> (r: Option<Vec<(u64, u64)>>)
    ensures
        r is Some <==> graph_occurs_of(*g, h) is Some,
        r matches Some(v) ==> graph_occurs_of(*g, h) == Some(v@),
{
    let occ = g.steps_on_handle(Handle::from_integer(h))?;
    Some(occ.map(|(p, s)| (p.0, s.pack())).collect())
}

/// The node row that extraction owes a node: its id, its sequence bytes,
/// and each neighbour list sorted ascending, duplicates retained.
pub open spec fn node_row_of(g: PackedGraph, h: u64) -> NodeRowV {
    NodeRowV {
        node_id: h >> 1,
        seq: graph_seq_of(g, h),
        left_edges: graph_neighbors_of(g, h, true).sort_by(u64_leq()),
        right_edges: graph_neighbors_of(g, h, false).sort_by(u64_leq()),
    }
}

/// One owed node row per enumerated node.
pub open spec fn node_rows_of(g: PackedGraph) -> Seq<NodeRowV> {
    graph_nodes(g).map_values(|h: u64| node_row_of(g, h))
}

/// The path row a path identifier contributes: none when the identifier
/// resolves to no name or steps, and none when the name bytes are not
/// valid text — that path is silently omitted.
pub open spec fn path_row_of(g: PackedGraph, pid: u64) -> Option<PathRowV> {
    match graph_path_name_of(g, pid) {
        Some(name) => if valid_utf8(name) {
            match graph_path_steps_of(g, pid) {
                Some(steps) => Some(PathRowV { path_name: decode_utf8(name), handles: steps }),
                None => None,
            }
        } else {
            None
        },
        None => None,
    }
}

/// The path rows contributed by an enumeration of path identifiers.
pub open spec fn path_rows_from(g: PackedGraph, ids: Seq<u64>) -> Seq<PathRowV>
    decreases ids.len(),
{
    if ids.len() == 0 {
        Seq::<PathRowV>::empty()
    } else {
        path_rows_from(g, ids.drop_last()) + match path_row_of(g, ids.last()) {
            Some(r) => seq![r],
            None => Seq::<PathRowV>::empty(),
        }
    }
}

/// The occurrence rows contributed by a node's (path, step) pairs: one
/// row per pair whose path name is valid text, none otherwise.
pub open spec fn occur_rows_pairs(g: PackedGraph, h: u64, ps: Seq<(u64, u64)>) -> Seq<
    OccurrenceRowV,
>
    decreases ps.len(),
{
    if ps.len() == 0 {
        Seq::<OccurrenceRowV>::empty()
    } else {
        occur_rows_pairs(g, h, ps.drop_last()) + match graph_path_name_of(g, ps.last().0) {
            Some(name) => if valid_utf8(name) {
                seq![
                    OccurrenceRowV {
                        node_id: h >> 1,
                        path_name: decode_utf8(name),
                        step: ps.last().1,
                    },
                ]
            } else {
                Seq::<OccurrenceRowV>::empty()
            },
            None => Seq::<OccurrenceRowV>::empty(),
        }
    }
}

/// The occurrence rows a node contributes: none when it has no record.
pub open spec fn occur_rows_of_node(g: PackedGraph, h: u64) -> Seq<OccurrenceRowV> {
    match graph_occurs_of(g, h) {
        Some(ps) => occur_rows_pairs(g, h, ps),
        None => Seq::<OccurrenceRowV>::empty(),
    }
}

/// The occurrence rows contributed by a sequence of nodes, flattened.
pub open spec fn occur_rows_from(g: PackedGraph, hs: Seq<u64>) -> Seq<OccurrenceRowV>
    decreases hs.len(),
{
    if hs.len() == 0 {
        Seq::<OccurrenceRowV>::empty()
    } else {
        occur_rows_from(g, hs.drop_last()) + occur_rows_of_node(g, hs.last())
    }
}

/// Every occurrence row the graph owes: all nodes, flattened.
pub open spec fn occur_rows_of(g: PackedGraph) -> Seq<OccurrenceRowV> {
    occur_rows_from(g, graph_nodes(g))
}

/// A sequence sorted ascending equals the specification-level sort of
/// anything holding the same elements.
proof fn lemma_sorted_matches_sort_by(a: Seq<u64>, b: Seq<u64>)
    requires
        sorted_by(a, u64_leq()),
        a.to_multiset() == b.to_multiset(),
    ensures
        a == b.sort_by(u64_leq()),
{
    b.lemma_sort_by_ensures(u64_leq());
    vstd::seq_lib::lemma_sorted_unique(a, b.sort_by(u64_leq()), u64_leq());
}

/// The node rows of the graph, one per enumerated node as [`node_row_of`]
/// describes, sorted by the canonical node order.
pub fn get_node_rows(graph: &PackedGraph) -> (r: Vec<NodeRow>)
    ensures
        sorted_by(r.deep_view(), node_row_leq()),
        r.deep_view().to_multiset() == node_rows_of(*graph).to_multiset(),
        forall|i: int|
            0 <= i < r.deep_view().len() ==> sorted_by(
                #[trigger] r.deep_view()[i].left_edges,
                u64_leq(),
            ) && sorted_by(r.deep_view()[i].right_edges, u64_leq()),
{
    let handles = graph_handles(graph);
    let mut rows: Vec<NodeRow> = Vec::new();
    let mut i: usize = 0;
    proof {
        assert(rows.deep_view() =~~= node_rows_of(*graph).take(0));
    }
    while i < handles.len()
        invariant
            i <= handles@.len(),
            handles@ == graph_nodes(*graph),
            rows.deep_view() == node_rows_of(*graph).take(i as int),
            forall|k: int|
                0 <= k < rows.deep_view().len() ==> sorted_by(
                    #[trigger] rows.deep_view()[k].left_edges,
                    u64_leq(),
                ) && sorted_by(rows.deep_view()[k].right_edges, u64_leq()),
        decreases handles@.len() - i,
    {
        let h = handles[i];
        proof {
            assert(graph_nodes(*graph).contains(h)) by {
                assert(graph_nodes(*graph)[i as int] == h);
            }
        }
        let node_id = h >> 1u64;
        let seq = graph_sequence(graph, h);
        let left_edges = sort_u64s(graph_neighbors(graph, h, true));
        let right_edges = sort_u64s(graph_neighbors(graph, h, false));
        proof {
            lemma_sorted_matches_sort_by(left_edges@, graph_neighbors_of(*graph, h, true));
            lemma_sorted_matches_sort_by(right_edges@, graph_neighbors_of(*graph, h, false));
        }
        let ghost prev = rows.deep_view();
        let row = NodeRow { node_id, seq, left_edges, right_edges };
        let ghost rv = row.deep_view();
        rows.push(row);
        proof {
            assert(rv == node_row_of(*graph, h));
            assert(rows.deep_view() =~~= prev.push(rv));
            assert(rows.deep_view() =~~= node_rows_of(*graph).take(i as int + 1));
        }
        i = i + 1;
    }
    proof {
        assert(node_rows_of(*graph).take(handles@.len() as int) =~~= node_rows_of(*graph));
    }
    let sorted = sort_node_rows(rows);
    proof {
        let a = rows.deep_view();
        let b = sorted.deep_view();
        assert forall|k: int| 0 <= k < b.len() implies sorted_by(
            #[trigger] b[k].left_edges,
            u64_leq(),
        ) && sorted_by(b[k].right_edges, u64_leq()) by {
            assert(b.contains(b[k]));
            assert(b.to_multiset().count(b[k]) > 0);
            assert(a.contains(b[k]));
            let j = choose|j: int| 0 <= j < a.len() && a[j] == b[k];
            assert(sorted_by(a[j].left_edges, u64_leq()));
        }
    }
    sorted
}

/// The path rows of the graph: for some duplicate-free, ascending
/// enumeration of exactly the graph's path identifiers, one row per
/// identifier as [`path_row_of`] describes — a path whose name is not
/// valid text contributes none — sorted by the canonical path order.
pub fn get_path_rows(graph: &PackedGraph) -> (r: Vec<PathRow>)
    ensures
        sorted_by(r.deep_view(), path_row_leq()),
        exists|ids: Seq<u64>|
            #![auto]
            sorted_by(ids, u64_leq()) && ids.no_duplicates() && ids.to_set() == graph_paths(
                *graph,
            ) && r.deep_view().to_multiset() == path_rows_from(*graph, ids).to_multiset(),
{
    let raw = graph_path_ids(graph);
    let ids = sort_u64s(raw);
    proof {
        raw@.lemma_multiset_has_no_duplicates();
        ids@.lemma_multiset_has_no_duplicates_conv();
        assert forall|x: u64| ids@.contains(x) <==> raw@.contains(x) by {
            assert(ids@.contains(x) <==> ids@.to_multiset().count(x) > 0);
            assert(raw@.contains(x) <==> raw@.to_multiset().count(x) > 0);
        }
        assert(ids@.to_set() =~= graph_paths(*graph));
    }
    let mut rows: Vec<PathRow> = Vec::new();
    let mut i: usize = 0;
    proof {
        assert(rows.deep_view() =~~= path_rows_from(*graph, ids@.take(0)));
    }
    while i < ids.len()
        invariant
            i <= ids@.len(),
            rows.deep_view() == path_rows_from(*graph, ids@.take(i as int)),
        decreases ids@.len() - i,
    {
        let pid = ids[i];
        let ghost t = ids@.take(i as int + 1);
        proof {
            assert(t.drop_last() =~= ids@.take(i as int));
            assert(t.last() == pid);
        }
        if let Some(name_bytes) = graph_path_name(graph, pid) {
            if let Some(name) = str_from_bytes(name_bytes.as_slice()) {
                proof {
                    vstd::utf8::encode_utf8_decode_utf8(name@);
                }
                if let Some(handles) = graph_path_steps(graph, pid) {
                    let ghost prev = rows.deep_view();
                    let row = PathRow { path_name: name.to_owned(), handles };
                    let ghost rv = row.deep_view();
                    rows.push(row);
                    proof {
                        assert(path_row_of(*graph, pid) == Some(rv));
                        assert(rows.deep_view() =~~= prev.push(rv));
                        assert(rows.deep_view() =~~= path_rows_from(*graph, t));
                    }
                } else {
                    proof {
                        assert(rows.deep_view() =~~= path_rows_from(*graph, t));
                    }
                }
            } else {
                proof {
                    assert(rows.deep_view() =~~= path_rows_from(*graph, t));
                }
            }
        } else {
            proof {
                assert(rows.deep_view() =~~= path_rows_from(*graph, t));
            }
        }
        i = i + 1;
    }
    proof {
        assert(ids@.take(ids@.len() as int) =~= ids@);
    }
    sort_path_rows(rows)
}

/// The occurrence rows of the graph, as [`occur_rows_of`] describes —
/// a pair whose path name is not valid text contributes none — sorted by
/// the canonical occurrence order.
pub fn get_occur_rows(graph: &PackedGraph) -> (r: Vec<OccurrenceRow>)
    ensures
        sorted_by(r.deep_view(), occur_row_leq()),
        r.deep_view().to_multiset() == occur_rows_of(*graph).to_multiset(),
{
    let handles = graph_handles(graph);
    let mut rows: Vec<OccurrenceRow> = Vec::new();
    let mut i: usize = 0;
    proof {
        assert(rows.deep_view() =~~= occur_rows_from(*graph, graph_nodes(*graph).take(0)));
    }
    while i < handles.len()
        invariant
            i <= handles@.len(),
            handles@ == graph_nodes(*graph),
            rows.deep_view() == occur_rows_from(*graph, graph_nodes(*graph).take(i as int)),
        decreases handles@.len() - i,
    {
        let h = handles[i];
        let ghost t = graph_nodes(*graph).take(i as int + 1);
        proof {
            assert(t.drop_last() =~= graph_nodes(*graph).take(i as int));
            assert(t.last() == h);
        }
        if let Some(pairs) = graph_steps_on_handle(graph, h) {
            let ghost base = rows.deep_view();
            let ghost ps = pairs@;
            let mut k: usize = 0;
            proof {
                assert(occur_rows_pairs(*graph, h, ps.take(0)) =~~= Seq::<
                    OccurrenceRowV,
                >::empty());
                assert(rows.deep_view() =~~= base + occur_rows_pairs(*graph, h, ps.take(0)));
            }
            while k < pairs.len()
                invariant
                    k <= ps.len(),
                    pairs@ == ps,
                    rows.deep_view() == base + occur_rows_pairs(*graph, h, ps.take(k as int)),
                decreases ps.len() - k,
            {
                let pair = pairs[k];
                let ghost u = ps.take(k as int + 1);
                proof {
                    assert(u.drop_last() =~= ps.take(k as int));
                    assert(u.last() == pair);
                }
                if let Some(name_bytes) = graph_path_name(graph, pair.0) {
                    if let Some(name) = str_from_bytes(name_bytes.as_slice()) {
                        proof {
                            vstd::utf8::encode_utf8_decode_utf8(name@);
                        }
                        let ghost prev = rows.deep_view();
                        let row = OccurrenceRow {
                            node_id: h >> 1u64,
                            path_name: name.to_owned(),
                            step: pair.1,
                        };
                        let ghost rv = row.deep_view();
                        rows.push(row);
                        proof {
                            assert(rows.deep_view() =~~= prev.push(rv));
                            assert(rows.deep_view() =~~= base + occur_rows_pairs(
                                *graph,
                                h,
                                u,
                            ));
                        }
                    } else {
                        proof {
                            assert(rows.deep_view() =~~= base + occur_rows_pairs(
                                *graph,
                                h,
                                u,
                            ));
                        }
                    }
                } else {
                    proof {
                        assert(rows.deep_view() =~~= base + occur_rows_pairs(*graph, h, u));
                    }
                }
                k = k + 1;
            }
            proof {
                assert(ps.take(ps.len() as int) =~= ps);
                assert(rows.deep_view() =~~= occur_rows_from(*graph, t));
            }
        } else {
            proof {
                assert(rows.deep_view() =~~= occur_rows_from(*graph, t));
            }
        }
        i = i + 1;
    }
    proof {
        assert(graph_nodes(*graph).take(graph_nodes(*graph).len() as int) =~= graph_nodes(
            *graph,
        ));
    }
    sort_occur_rows(rows)
}

/// What a snapshot extracted from `g` looks like: counts equal to the
/// row-list lengths, every row set sorted canonically, edge lists sorted
/// within each node row, and each row set holding exactly the rows the
/// named graph contents owe.
pub open spec fn snapshot_of(g: PackedGraph, v: TestRecordsV) -> bool {
    &&& v.counts_consistent()
    &&& sorted_by(v.node_rows, node_row_leq())
    &&& sorted_by(v.path_rows, path_row_leq())
    &&& sorted_by(v.occur_rows, occur_row_leq())
    &&& v.node_rows.to_multiset() == node_rows_of(g).to_multiset()
    &&& exists|ids: Seq<u64>|
        #![auto]
        sorted_by(ids, u64_leq()) && ids.no_duplicates() && ids.to_set() == graph_paths(g)
            && v.path_rows.to_multiset() == path_rows_from(g, ids).to_multiset()
    &&& v.occur_rows.to_multiset() == occur_rows_of(g).to_multiset()
    &&& forall|i: int|
        0 <= i < v.node_rows.len() ==> sorted_by(#[trigger] v.node_rows[i].left_edges, u64_leq())
            && sorted_by(v.node_rows[i].right_edges, u64_leq())
}

/// Builds the whole snapshot: the three extracted row sets with their
/// counts set to the row-list lengths, meeting [`snapshot_of`].
pub fn get_graph_rows(graph: &PackedGraph) -> (r: TestRecords)
    ensures
        snapshot_of(*graph, r@),
{
    let node_rows = get_node_rows(graph);
    let path_rows = get_path_rows(graph);
    let occur_rows = get_occur_rows(graph);
    TestRecords {
        node_row_count: node_rows.len(),
        path_row_count: path_rows.len(),
        occur_row_count: occur_rows.len(),
        node_rows,
        path_rows,
        occur_rows,
    }
}

/// Two ascending duplicate-free enumerations of the same set are equal.
proof fn lemma_sorted_nodup_same_set(s1: Seq<u64>, s2: Seq<u64>)
    requires
        sorted_by(s1, u64_leq()),
        sorted_by(s2, u64_leq()),
        s1.no_duplicates(),
        s2.no_duplicates(),
        s1.to_set() == s2.to_set(),
    ensures
        s1 == s2,
{
    s1.lemma_multiset_has_no_duplicates();
    s2.lemma_multiset_has_no_duplicates();
    assert(s1.to_multiset() =~= s2.to_multiset()) by {
        assert forall|x: u64| s1.to_multiset().count(x) == s2.to_multiset().count(x) by {
            assert(s1.contains(x) <==> s1.to_set().contains(x));
            assert(s2.contains(x) <==> s2.to_set().contains(x));
            if s1.contains(x) {
                assert(s1.to_multiset().count(x) == 1);
                assert(s2.to_multiset().count(x) == 1);
            } else {
                assert(s1.to_multiset().count(x) == 0);
                assert(s2.to_multiset().count(x) == 0);
            }
        }
    }
    vstd::seq_lib::lemma_sorted_unique(s1, s2, u64_leq());
}

/// Determinism of extraction: any two snapshots of the same graph value
/// are equal — whatever order the graph's hash-seeded path enumeration
/// produced on each run — and so serialize to identical text.
pub proof fn lemma_snapshot_deterministic(g: PackedGraph, a: TestRecordsV, b: TestRecordsV)
    requires
        snapshot_of(g, a),
        snapshot_of(g, b),
    ensures
        a == b,
{
    crate::sort::lemma_node_order_canonical(a.node_rows, b.node_rows);
    crate::sort::lemma_occur_order_canonical(a.occur_rows, b.occur_rows);
    let ids1 = choose|ids: Seq<u64>|
        #![auto]
        sorted_by(ids, u64_leq()) && ids.no_duplicates() && ids.to_set() == graph_paths(g)
            && a.path_rows.to_multiset() == path_rows_from(g, ids).to_multiset();
    let ids2 = choose|ids: Seq<u64>|
        #![auto]
        sorted_by(ids, u64_leq()) && ids.no_duplicates() && ids.to_set() == graph_paths(g)
            && b.path_rows.to_multiset() == path_rows_from(g, ids).to_multiset();
    lemma_sorted_nodup_same_set(ids1, ids2);
    crate::sort::lemma_path_order_canonical(a.path_rows, b.path_rows);
}

/// Skipping an identifier that contributes no row leaves the contributed
/// rows unchanged.
proof fn lemma_path_rows_from_skip_none(g: PackedGraph, ids: Seq<u64>, i: int)
    requires
        0 <= i < ids.len(),
        path_row_of(g, ids[i]) is None,
    ensures
        path_rows_from(g, ids) == path_rows_from(g, ids.remove(i)),
    decreases ids.len(),
{
    if i == ids.len() - 1 {
        assert(ids.remove(i) =~= ids.drop_last());
        assert(path_rows_from(g, ids) =~= path_rows_from(g, ids.drop_last()));
    } else {
        let d = ids.drop_last();
        assert(d[i] == ids[i]);
        lemma_path_rows_from_skip_none(g, d, i);
        assert(ids.remove(i).drop_last() =~= d.remove(i));
        assert(ids.remove(i).last() == ids.last());
        assert(path_rows_from(g, ids) =~= path_rows_from(g, ids.remove(i)));
    }
}

/// A path whose name bytes are not valid text is excluded: it contributes
/// no path row, and dropping its identifier from any enumeration leaves
/// the contributed rows — and hence the row count — unchanged.
pub proof fn lemma_undecodable_path_excluded(
    g: PackedGraph,
    ids: Seq<u64>,
    i: int,
    name: Seq<u8>,
)
    requires
        0 <= i < ids.len(),
        graph_path_name_of(g, ids[i]) == Some(name),
        !valid_utf8(name),
    ensures
        path_row_of(g, ids[i]) is None,
        path_rows_from(g, ids) == path_rows_from(g, ids.remove(i)),
{
    lemma_path_rows_from_skip_none(g, ids, i);
}

/// A visit by a path whose name bytes are not valid text is excluded: the
/// pair contributes no occurrence row, and dropping it from a node's pair
/// list leaves the contributed rows — and hence the row count — unchanged.
pub proof fn lemma_undecodable_occur_excluded(
    g: PackedGraph,
    h: u64,
    ps: Seq<(u64, u64)>,
    k: int,
    name: Seq<u8>,
)
    requires
        0 <= k < ps.len(),
        graph_path_name_of(g, ps[k].0) == Some(name),
        !valid_utf8(name),
    ensures
        occur_rows_pairs(g, h, ps) == occur_rows_pairs(g, h, ps.remove(k)),
    decreases ps.len(),
{
    if k == ps.len() - 1 {
        assert(ps.remove(k) =~= ps.drop_last());
        assert(occur_rows_pairs(g, h, ps) =~= occur_rows_pairs(g, h, ps.drop_last()));
    } else {
        let d = ps.drop_last();
        assert(d[k] == ps[k]);
        lemma_undecodable_occur_excluded(g, h, d, k, name);
        assert(ps.remove(k).drop_last() =~= d.remove(k));
        assert(ps.remove(k).last() == ps.last());
        assert(occur_rows_pairs(g, h, ps) =~= occur_rows_pairs(g, h, ps.remove(k)));
    }
}

} // verus!
