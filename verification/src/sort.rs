//! Sorting rows into the canonical snapshot order, and the uniqueness of
//! that order: any two sorted arrangements of the same rows are identical.

use vstd::prelude::*;
use vstd::relations::{sorted_by, total_ordering};
use vstd::seq_lib::lemma_sorted_unique;
use crate::order::{node_row_le, node_row_le_exec, node_row_leq, occur_row_le, occur_row_le_exec,
    occur_row_leq, path_row_le, path_row_le_exec, path_row_leq, u64_leq};
use crate::rows::{NodeRow, NodeRowV, OccurrenceRow, OccurrenceRowV, PathRow, PathRowV};

verus! {

broadcast use vstd::seq_lib::group_to_multiset_ensures, vstd::multiset::group_multiset_axioms;

/// Inserting an element between the entries it belongs among keeps a
/// sequence sorted.
pub proof fn lemma_sorted_insert<T>(s: Seq<T>, leq: spec_fn(T, T) -> bool, j: int, x: T)
    requires
        sorted_by(s, leq),
        0 <= j <= s.len(),
        forall|k: int| 0 <= k < j ==> leq(s[k], x),
        forall|k: int| j <= k < s.len() ==> leq(x, s[k]),
    ensures
        sorted_by(s.insert(j, x), leq),
{
    s.insert_ensures(j, x);
    let t = s.insert(j, x);
    assert forall|p: int, q: int| 0 <= p < q < t.len() implies #[trigger] leq(t[p], t[q]) by {
        if q < j {
            assert(leq(s[p], s[q]));
        } else if q == j {
            assert(leq(s[p], x));
        } else if p < j {
            if p == q - 1 {
            } else {
                assert(leq(s[p], s[q - 1]));
            }
        } else if p == j {
            assert(leq(x, s[q - 1]));
        } else {
            assert(leq(s[p - 1], s[q - 1]));
        }
    }
}

/// The position found by scanning past every entry at most `x` is a
/// correct insertion point in a sorted sequence under a total order.
pub proof fn lemma_insert_position<T>(s: Seq<T>, leq: spec_fn(T, T) -> bool, j: int, x: T)
    requires
        total_ordering(leq),
        sorted_by(s, leq),
        0 <= j <= s.len(),
        forall|k: int| 0 <= k < j ==> leq(s[k], x),
        j < s.len() ==> !leq(s[j], x),
    ensures
        sorted_by(s.insert(j, x), leq),
{
    assert forall|k: int| j <= k < s.len() implies leq(x, s[k]) by {
        assert(leq(x, s[j]));
        if k > j {
            assert(leq(s[j], s[k]));
        }
    }
    lemma_sorted_insert(s, leq, j, x);
}

/// Sorts a list of edge encodings ascending.
pub fn sort_u64s(v: Vec<u64>) -> (r: Vec<u64>)
    ensures
        sorted_by(r@, u64_leq()),
        r@.to_multiset() == v@.to_multiset(),
{
    let mut input = v;
    let mut out: Vec<u64> = Vec::new();
    proof {
        assert(out@.to_multiset().add(input@.to_multiset()) =~= v@.to_multiset());
    }
    while input.len() > 0
        invariant
            sorted_by(out@, u64_leq()),
            out@.to_multiset().add(input@.to_multiset()) == v@.to_multiset(),
        decreases input.len(),
    {
        let ghost old_in = input@;
        let ghost old_out = out@;
        let x = input.remove(0);
        let mut j: usize = 0;
        while j < out.len() && out[j] <= x
            invariant
                j <= out@.len(),
                out@ == old_out,
                forall|k: int| 0 <= k < j ==> old_out[k] <= x,
            decreases out@.len() - j,
        {
            j = j + 1;
        }
        out.insert(j, x);
        proof {
            lemma_insert_position(old_out, u64_leq(), j as int, x);
            assert(old_in.remove(0).to_multiset() =~= old_in.to_multiset().remove(x));
            assert(old_out.insert(j as int, x).to_multiset() =~= old_out.to_multiset().insert(
                x,
            ));
            assert(old_in.to_multiset().contains(x)) by {
                assert(old_in[0] == x);
                assert(old_in.contains(x));
            }
            assert(out@.to_multiset().add(input@.to_multiset())
                =~= old_out.to_multiset().add(old_in.to_multiset()));
        }
    }
    out
}

/// Sorts node rows into the canonical order.
pub fn sort_node_rows(v: Vec<NodeRow>) -> (r: Vec<NodeRow>)
    ensures
        sorted_by(r.deep_view(), node_row_leq()),
        r.deep_view().to_multiset() == v.deep_view().to_multiset(),
{
    let mut input = v;
    let mut out: Vec<NodeRow> = Vec::new();
    let ghost goal = v.deep_view();
    proof {
        assert(out.deep_view() =~~= Seq::<NodeRowV>::empty());
        assert(out.deep_view().to_multiset().add(input.deep_view().to_multiset())
            =~= goal.to_multiset());
    }
    while input.len() > 0
        invariant
            sorted_by(out.deep_view(), node_row_leq()),
            out.deep_view().to_multiset().add(input.deep_view().to_multiset())
                == goal.to_multiset(),
        decreases input.len(),
    {
        let ghost old_in = input.deep_view();
        let ghost old_out = out.deep_view();
        let x = input.remove(0);
        let ghost xv = x.deep_view();
        proof {
            assert(input.deep_view() =~~= old_in.remove(0));
        }
        let mut j: usize = 0;
        while j < out.len() && node_row_le_exec(&out[j], &x)
            invariant
                j <= out.deep_view().len(),
                out.deep_view() == old_out,
                out.deep_view().len() == out@.len(),
                forall|k: int| 0 <= k < j ==> node_row_le(old_out[k], xv),
                xv == x.deep_view(),
            decreases out@.len() - j,
        {
            j = j + 1;
        }
        out.insert(j, x);
        proof {
            crate::order::lemma_node_row_total_ordering();
            lemma_insert_position(old_out, node_row_leq(), j as int, xv);
            assert(out.deep_view() =~~= old_out.insert(j as int, xv)) by {
                old_out.insert_ensures(j as int, xv);
            }
            assert(old_in.remove(0).to_multiset() =~= old_in.to_multiset().remove(xv));
            assert(old_out.insert(j as int, xv).to_multiset()
                =~= old_out.to_multiset().insert(xv));
            assert(old_in.to_multiset().contains(xv)) by {
                assert(old_in[0] == xv);
                assert(old_in.contains(xv));
            }
            assert(out.deep_view().to_multiset().add(input.deep_view().to_multiset())
                =~= old_out.to_multiset().add(old_in.to_multiset()));
        }
    }
    out
}

/// Sorts path rows into the canonical order.
pub fn sort_path_rows(v: Vec<PathRow>) -> (r: Vec<PathRow>)
    ensures
        sorted_by(r.deep_view(), path_row_leq()),
        r.deep_view().to_multiset() == v.deep_view().to_multiset(),
{
    let mut input = v;
    let mut out: Vec<PathRow> = Vec::new();
    let ghost goal = v.deep_view();
    proof {
        assert(out.deep_view() =~~= Seq::<PathRowV>::empty());
        assert(out.deep_view().to_multiset().add(input.deep_view().to_multiset())
            =~= goal.to_multiset());
    }
    while input.len() > 0
        invariant
            sorted_by(out.deep_view(), path_row_leq()),
            out.deep_view().to_multiset().add(input.deep_view().to_multiset())
                == goal.to_multiset(),
        decreases input.len(),
    {
        let ghost old_in = input.deep_view();
        let ghost old_out = out.deep_view();
        let x = input.remove(0);
        let ghost xv = x.deep_view();
        proof {
            assert(input.deep_view() =~~= old_in.remove(0));
        }
        let mut j: usize = 0;
        while j < out.len() && path_row_le_exec(&out[j], &x)
            invariant
                j <= out.deep_view().len(),
                out.deep_view() == old_out,
                out.deep_view().len() == out@.len(),
                forall|k: int| 0 <= k < j ==> path_row_le(old_out[k], xv),
                xv == x.deep_view(),
            decreases out@.len() - j,
        {
            j = j + 1;
        }
        out.insert(j, x);
        proof {
            crate::order::lemma_path_row_total_ordering();
            lemma_insert_position(old_out, path_row_leq(), j as int, xv);
            assert(out.deep_view() =~~= old_out.insert(j as int, xv)) by {
                old_out.insert_ensures(j as int, xv);
            }
            assert(old_in.remove(0).to_multiset() =~= old_in.to_multiset().remove(xv));
            assert(old_out.insert(j as int, xv).to_multiset()
                =~= old_out.to_multiset().insert(xv));
            assert(old_in.to_multiset().contains(xv)) by {
                assert(old_in[0] == xv);
                assert(old_in.contains(xv));
            }
            assert(out.deep_view().to_multiset().add(input.deep_view().to_multiset())
                =~= old_out.to_multiset().add(old_in.to_multiset()));
        }
    }
    out
}

/// Sorts occurrence rows into the canonical order.
pub fn sort_occur_rows(v: Vec<OccurrenceRow>) -> (r: Vec<OccurrenceRow>)
    ensures
        sorted_by(r.deep_view(), occur_row_leq()),
        r.deep_view().to_multiset() == v.deep_view().to_multiset(),
{
    let mut input = v;
    let mut out: Vec<OccurrenceRow> = Vec::new();
    let ghost goal = v.deep_view();
    proof {
        assert(out.deep_view() =~~= Seq::<OccurrenceRowV>::empty());
        assert(out.deep_view().to_multiset().add(input.deep_view().to_multiset())
            =~= goal.to_multiset());
    }
    while input.len() > 0
        invariant
            sorted_by(out.deep_view(), occur_row_leq()),
            out.deep_view().to_multiset().add(input.deep_view().to_multiset())
                == goal.to_multiset(),
        decreases input.len(),
    {
        let ghost old_in = input.deep_view();
        let ghost old_out = out.deep_view();
        let x = input.remove(0);
        let ghost xv = x.deep_view();
        proof {
            assert(input.deep_view() =~~= old_in.remove(0));
        }
        let mut j: usize = 0;
        while j < out.len() && occur_row_le_exec(&out[j], &x)
            invariant
                j <= out.deep_view().len(),
                out.deep_view() == old_out,
                out.deep_view().len() == out@.len(),
                forall|k: int| 0 <= k < j ==> occur_row_le(old_out[k], xv),
                xv == x.deep_view(),
            decreases out@.len() - j,
        {
            j = j + 1;
        }
        out.insert(j, x);
        proof {
            crate::order::lemma_occur_row_total_ordering();
            lemma_insert_position(old_out, occur_row_leq(), j as int, xv);
            assert(out.deep_view() =~~= old_out.insert(j as int, xv)) by {
                old_out.insert_ensures(j as int, xv);
            }
            assert(old_in.remove(0).to_multiset() =~= old_in.to_multiset().remove(xv));
            assert(old_out.insert(j as int, xv).to_multiset()
                =~= old_out.to_multiset().insert(xv));
            assert(old_in.to_multiset().contains(xv)) by {
                assert(old_in[0] == xv);
                assert(old_in.contains(xv));
            }
            assert(out.deep_view().to_multiset().add(input.deep_view().to_multiset())
                =~= old_out.to_multiset().add(old_in.to_multiset()));
        }
    }
    out
}

/// The canonical node-row order is a fingerprint: two sorted sequences
/// holding the same rows, however they were produced, are equal. Sorting
/// is therefore deterministic, and re-sorting a sorted sequence is the
/// identity.
pub proof fn lemma_node_order_canonical(a: Seq<NodeRowV>, b: Seq<NodeRowV>)
    requires
        sorted_by(a, node_row_leq()),
        sorted_by(b, node_row_leq()),
        a.to_multiset() == b.to_multiset(),
    ensures
        a == b,
{
    crate::order::lemma_node_row_total_ordering();
    lemma_sorted_unique(a, b, node_row_leq());
}

/// As [`lemma_node_order_canonical`], for path rows.
pub proof fn lemma_path_order_canonical(a: Seq<PathRowV>, b: Seq<PathRowV>)
    requires
        sorted_by(a, path_row_leq()),
        sorted_by(b, path_row_leq()),
        a.to_multiset() == b.to_multiset(),
    ensures
        a == b,
{
    crate::order::lemma_path_row_total_ordering();
    lemma_sorted_unique(a, b, path_row_leq());
}

/// As [`lemma_node_order_canonical`], for occurrence rows.
pub proof fn lemma_occur_order_canonical(a: Seq<OccurrenceRowV>, b: Seq<OccurrenceRowV>)
    requires
        sorted_by(a, occur_row_leq()),
        sorted_by(b, occur_row_leq()),
        a.to_multiset() == b.to_multiset(),
    ensures
        a == b,
{
    crate::order::lemma_occur_row_total_ordering();
    lemma_sorted_unique(a, b, occur_row_leq());
}

} // verus!
