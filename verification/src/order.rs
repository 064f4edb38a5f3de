//! The canonical total orders on snapshot rows: plain lexicographic
//! comparison of integer-keyed sequences, composed field by field.

use vstd::prelude::*;
use vstd::relations::{antisymmetric, injective, reflexive, strongly_connected, total_ordering,
    transitive};
use crate::rows::{NodeRow, NodeRowV, OccurrenceRow, OccurrenceRowV, PathRow, PathRowV};

verus! {

/// Lexicographic "less than or equal" on sequences, comparing elements
/// through an integer key: a proper prefix comes before its extensions.
pub open spec fn lex_le<T>(a: Seq<T>, b: Seq<T>, key: spec_fn(T) -> int) -> bool
    decreases a.len(),
{
    if a.len() == 0 {
        true
    } else if b.len() == 0 {
        false
    } else if key(a[0]) < key(b[0]) {
        true
    } else if key(a[0]) > key(b[0]) {
        false
    } else {
        lex_le(a.drop_first(), b.drop_first(), key)
    }
}

pub open spec fn u64_key() -> spec_fn(u64) -> int {
    |x: u64| x as int
}

pub open spec fn u8_key() -> spec_fn(u8) -> int {
    |x: u8| x as int
}

pub open spec fn char_key() -> spec_fn(char) -> int {
    |x: char| (x as u32) as int
}

pub proof fn lemma_lex_refl<T>(a: Seq<T>, key: spec_fn(T) -> int)
    ensures
        lex_le(a, a, key),
    decreases a.len(),
{
    if a.len() > 0 {
        lemma_lex_refl(a.drop_first(), key);
    }
}

pub proof fn lemma_lex_total<T>(a: Seq<T>, b: Seq<T>, key: spec_fn(T) -> int)
    ensures
        lex_le(a, b, key) || lex_le(b, a, key),
    decreases a.len(),
{
    if a.len() > 0 && b.len() > 0 && key(a[0]) == key(b[0]) {
        lemma_lex_total(a.drop_first(), b.drop_first(), key);
    }
}

pub proof fn lemma_lex_antisym<T>(a: Seq<T>, b: Seq<T>, key: spec_fn(T) -> int)
    requires
        injective(key),
        lex_le(a, b, key),
        lex_le(b, a, key),
    ensures
        a == b,
    decreases a.len(),
{
    if a.len() == 0 {
        assert(b.len() == 0);
        assert(a =~= b);
    } else {
        assert(b.len() > 0);
        assert(key(a[0]) == key(b[0]));
        assert(a[0] == b[0]);
        lemma_lex_antisym(a.drop_first(), b.drop_first(), key);
        assert(a =~= b) by {
            assert(forall|i: int|
                1 <= i < a.len() ==> a[i] == a.drop_first()[i - 1] && b[i]
                    == b.drop_first()[i - 1]);
        }
    }
}

pub proof fn lemma_lex_trans<T>(a: Seq<T>, b: Seq<T>, c: Seq<T>, key: spec_fn(T) -> int)
    requires
        lex_le(a, b, key),
        lex_le(b, c, key),
    ensures
        lex_le(a, c, key),
    decreases a.len(),
{
    if a.len() > 0 {
        assert(b.len() > 0);
        assert(c.len() > 0);
        if key(a[0]) == key(b[0]) && key(b[0]) == key(c[0]) {
            lemma_lex_trans(a.drop_first(), b.drop_first(), c.drop_first(), key);
        }
    }
}

/// When two sequences agree on their first `i` elements, their order is
/// decided by what remains.
pub proof fn lemma_lex_skip<T>(a: Seq<T>, b: Seq<T>, key: spec_fn(T) -> int, i: int)
    requires
        0 <= i <= a.len(),
        i <= b.len(),
        a.take(i) == b.take(i),
    ensures
        lex_le(a, b, key) == lex_le(a.skip(i), b.skip(i), key),
    decreases i,
{
    if i == 0 {
        assert(a.skip(0) =~= a);
        assert(b.skip(0) =~= b);
    } else {
        assert(a[0] == a.take(i)[0]);
        assert(b[0] == b.take(i)[0]);
        assert(a.len() > 0 && b.len() > 0);
        assert(a[0] == b[0]);
        assert(a.drop_first().take(i - 1) =~= a.take(i).drop_first());
        assert(b.drop_first().take(i - 1) =~= b.take(i).drop_first());
        lemma_lex_skip(a.drop_first(), b.drop_first(), key, i - 1);
        assert(a.drop_first().skip(i - 1) =~= a.skip(i));
        assert(b.drop_first().skip(i - 1) =~= b.skip(i));
    }
}

/// The canonical order on node rows: by id, then sequence, then left and
/// right edge lists, each lexicographically.
pub open spec fn node_row_le(x: NodeRowV, y: NodeRowV) -> bool {
    if x.node_id != y.node_id {
        x.node_id < y.node_id
    } else if x.seq != y.seq {
        lex_le(x.seq, y.seq, u8_key())
    } else if x.left_edges != y.left_edges {
        lex_le(x.left_edges, y.left_edges, u64_key())
    } else {
        lex_le(x.right_edges, y.right_edges, u64_key())
    }
}

pub open spec fn node_row_leq() -> spec_fn(NodeRowV, NodeRowV) -> bool {
    |x: NodeRowV, y: NodeRowV| node_row_le(x, y)
}

/// The canonical order on path rows: by name, then handle list.
pub open spec fn path_row_le(x: PathRowV, y: PathRowV) -> bool {
    if x.path_name != y.path_name {
        lex_le(x.path_name, y.path_name, char_key())
    } else {
        lex_le(x.handles, y.handles, u64_key())
    }
}

pub open spec fn path_row_leq() -> spec_fn(PathRowV, PathRowV) -> bool {
    |x: PathRowV, y: PathRowV| path_row_le(x, y)
}

/// The canonical order on occurrence rows: by node id, then path name,
/// then step encoding.
pub open spec fn occur_row_le(x: OccurrenceRowV, y: OccurrenceRowV) -> bool {
    if x.node_id != y.node_id {
        x.node_id < y.node_id
    } else if x.path_name != y.path_name {
        lex_le(x.path_name, y.path_name, char_key())
    } else {
        x.step <= y.step
    }
}

pub open spec fn occur_row_leq() -> spec_fn(OccurrenceRowV, OccurrenceRowV) -> bool {
    |x: OccurrenceRowV, y: OccurrenceRowV| occur_row_le(x, y)
}

/// Ascending order on plain integers, for edge lists within a row.
pub open spec fn u64_leq() -> spec_fn(u64, u64) -> bool {
    |a: u64, b: u64| a <= b
}

proof fn lemma_key_injective()
    ensures
        injective(u64_key()),
        injective(u8_key()),
        injective(char_key()),
{
    assert forall|x: char, y: char| #[trigger] char_key()(x) == #[trigger] char_key()(y)
        implies x == y by {
        vstd::utf8::char_u32_cast(x, x as u32);
        vstd::utf8::char_u32_cast(y, y as u32);
    }
}

pub proof fn lemma_node_row_total_ordering()
    ensures
        total_ordering(node_row_leq()),
{
    let leq = node_row_leq();
    lemma_key_injective();
    assert forall|x: NodeRowV| #[trigger] leq(x, x) by {
        lemma_lex_refl(x.right_edges, u64_key());
    }
    assert(reflexive(leq));
    assert forall|x: NodeRowV, y: NodeRowV| #[trigger] leq(x, y) && #[trigger] leq(y, x)
        implies x == y by {
        if x.node_id == y.node_id {
            if x.seq != y.seq {
                lemma_lex_antisym(x.seq, y.seq, u8_key());
            } else if x.left_edges != y.left_edges {
                lemma_lex_antisym(x.left_edges, y.left_edges, u64_key());
            } else {
                lemma_lex_antisym(x.right_edges, y.right_edges, u64_key());
            }
        }
    }
    assert(antisymmetric(leq));
    assert forall|x: NodeRowV, y: NodeRowV, z: NodeRowV|
        #[trigger] leq(x, y) && #[trigger] leq(y, z) implies leq(x, z) by {
        lemma_node_row_le_trans(x, y, z);
    }
    assert(transitive(leq));
    assert forall|x: NodeRowV, y: NodeRowV| #[trigger] leq(x, y) || #[trigger] leq(y, x) by {
        if x.node_id == y.node_id {
            if x.seq != y.seq {
                lemma_lex_total(x.seq, y.seq, u8_key());
            } else if x.left_edges != y.left_edges {
                lemma_lex_total(x.left_edges, y.left_edges, u64_key());
            } else {
                lemma_lex_total(x.right_edges, y.right_edges, u64_key());
            }
        }
    }
    assert(strongly_connected(leq));
}

proof fn lemma_node_row_le_trans(x: NodeRowV, y: NodeRowV, z: NodeRowV)
    requires
        node_row_le(x, y),
        node_row_le(y, z),
    ensures
        node_row_le(x, z),
{
    lemma_key_injective();
    if x.node_id == y.node_id && y.node_id == z.node_id {
        if x.seq == y.seq && y.seq == z.seq {
            if x.left_edges == y.left_edges && y.left_edges == z.left_edges {
                lemma_lex_trans(x.right_edges, y.right_edges, z.right_edges, u64_key());
            } else if x.left_edges != y.left_edges && y.left_edges != z.left_edges {
                lemma_lex_trans(x.left_edges, y.left_edges, z.left_edges, u64_key());
                if x.left_edges == z.left_edges {
                    lemma_lex_antisym(x.left_edges, y.left_edges, u64_key());
                }
            }
        } else if x.seq != y.seq && y.seq != z.seq {
            lemma_lex_trans(x.seq, y.seq, z.seq, u8_key());
            if x.seq == z.seq {
                lemma_lex_antisym(x.seq, y.seq, u8_key());
            }
        }
    }
}

pub proof fn lemma_path_row_total_ordering()
    ensures
        total_ordering(path_row_leq()),
{
    let leq = path_row_leq();
    lemma_key_injective();
    assert forall|x: PathRowV| #[trigger] leq(x, x) by {
        lemma_lex_refl(x.handles, u64_key());
    }
    assert(reflexive(leq));
    assert forall|x: PathRowV, y: PathRowV| #[trigger] leq(x, y) && #[trigger] leq(y, x)
        implies x == y by {
        if x.path_name != y.path_name {
            lemma_lex_antisym(x.path_name, y.path_name, char_key());
        } else {
            lemma_lex_antisym(x.handles, y.handles, u64_key());
        }
    }
    assert(antisymmetric(leq));
    assert forall|x: PathRowV, y: PathRowV, z: PathRowV|
        #[trigger] leq(x, y) && #[trigger] leq(y, z) implies leq(x, z) by {
        if x.path_name == y.path_name && y.path_name == z.path_name {
            lemma_lex_trans(x.handles, y.handles, z.handles, u64_key());
        } else if x.path_name != y.path_name && y.path_name != z.path_name {
            lemma_lex_trans(x.path_name, y.path_name, z.path_name, char_key());
            if x.path_name == z.path_name {
                lemma_lex_antisym(x.path_name, y.path_name, char_key());
            }
        }
    }
    assert(transitive(leq));
    assert forall|x: PathRowV, y: PathRowV| #[trigger] leq(x, y) || #[trigger] leq(y, x) by {
        if x.path_name != y.path_name {
            lemma_lex_total(x.path_name, y.path_name, char_key());
        } else {
            lemma_lex_total(x.handles, y.handles, u64_key());
        }
    }
    assert(strongly_connected(leq));
}

pub proof fn lemma_occur_row_total_ordering()
    ensures
        total_ordering(occur_row_leq()),
{
    let leq = occur_row_leq();
    lemma_key_injective();
    assert(reflexive(leq));
    assert forall|x: OccurrenceRowV, y: OccurrenceRowV|
        #[trigger] leq(x, y) && #[trigger] leq(y, x) implies x == y by {
        if x.node_id == y.node_id && x.path_name != y.path_name {
            lemma_lex_antisym(x.path_name, y.path_name, char_key());
        }
    }
    assert(antisymmetric(leq));
    assert forall|x: OccurrenceRowV, y: OccurrenceRowV, z: OccurrenceRowV|
        #[trigger] leq(x, y) && #[trigger] leq(y, z) implies leq(x, z) by {
        if x.node_id == y.node_id && y.node_id == z.node_id {
            if x.path_name != y.path_name && y.path_name != z.path_name {
                lemma_lex_trans(x.path_name, y.path_name, z.path_name, char_key());
                if x.path_name == z.path_name {
                    lemma_lex_antisym(x.path_name, y.path_name, char_key());
                }
            }
        }
    }
    assert(transitive(leq));
    assert forall|x: OccurrenceRowV, y: OccurrenceRowV|
        #[trigger] leq(x, y) || #[trigger] leq(y, x) by {
        if x.node_id == y.node_id && x.path_name != y.path_name {
            lemma_lex_total(x.path_name, y.path_name, char_key());
        }
    }
    assert(strongly_connected(leq));
}

/// Result of a three-way comparison.
#[derive(Clone, Copy, Debug, PartialEq, Eq, Structural)]
pub enum Rank {
    Less,
    Equal,
    Greater,
}

/// Three-way lexicographic comparison of two integer vectors.
fn cmp_u64_vecs(a: &Vec<u64>, b: &Vec<u64>) -> (r: Rank)
    ensures
        (r == Rank::Equal) <==> a@ == b@,
        (r == Rank::Less) <==> (a@ != b@ && lex_le(a@, b@, u64_key())),
        (r == Rank::Greater) <==> (a@ != b@ && !lex_le(a@, b@, u64_key())),
{
    let n = if a.len() < b.len() {
        a.len()
    } else {
        b.len()
    };
    let mut i: usize = 0;
    proof {
        assert(a@.take(0) =~= b@.take(0));
    }
    while i < n
        invariant
            i <= n,
            n <= a@.len(),
            n <= b@.len(),
            n == a@.len() || n == b@.len(),
            a@.take(i as int) == b@.take(i as int),
        decreases n - i,
    {
        proof {
            lemma_lex_skip(a@, b@, u64_key(), i as int);
        }
        if a[i] < b[i] {
            proof {
                assert(a@[i as int] != b@[i as int]);
            }
            return Rank::Less;
        }
        if a[i] > b[i] {
            return Rank::Greater;
        }
        proof {
            assert(a@.take(i as int + 1) =~= b@.take(i as int + 1)) by {
                assert(forall|k: int|
                    0 <= k < i ==> a@.take(i as int + 1)[k] == a@.take(i as int)[k]
                        && b@.take(i as int + 1)[k] == b@.take(i as int)[k]);
            }
        }
        i = i + 1;
    }
    proof {
        lemma_lex_skip(a@, b@, u64_key(), n as int);
    }
    if a.len() == b.len() {
        proof {
            assert(a@ =~= b@) by {
                assert(forall|k: int| 0 <= k < n ==> a@[k] == a@.take(n as int)[k]
                    && b@[k] == b@.take(n as int)[k]);
            }
        }
        Rank::Equal
    } else if a.len() < b.len() {
        proof {
            assert(a@.skip(n as int).len() == 0);
        }
        Rank::Less
    } else {
        proof {
            assert(b@.skip(n as int).len() == 0);
            assert(a@.skip(n as int).len() > 0);
        }
        Rank::Greater
    }
}

/// Three-way lexicographic comparison of two byte vectors.
fn cmp_u8_vecs(a: &Vec<u8>, b: &Vec<u8>) -> (r: Rank)
    ensures
        (r == Rank::Equal) <==> a@ == b@,
        (r == Rank::Less) <==> (a@ != b@ && lex_le(a@, b@, u8_key())),
        (r == Rank::Greater) <==> (a@ != b@ && !lex_le(a@, b@, u8_key())),
{
    let n = if a.len() < b.len() {
        a.len()
    } else {
        b.len()
    };
    let mut i: usize = 0;
    proof {
        assert(a@.take(0) =~= b@.take(0));
    }
    while i < n
        invariant
            i <= n,
            n <= a@.len(),
            n <= b@.len(),
            n == a@.len() || n == b@.len(),
            a@.take(i as int) == b@.take(i as int),
        decreases n - i,
    {
        proof {
            lemma_lex_skip(a@, b@, u8_key(), i as int);
        }
        if a[i] < b[i] {
            return Rank::Less;
        }
        if a[i] > b[i] {
            return Rank::Greater;
        }
        proof {
            assert(a@.take(i as int + 1) =~= b@.take(i as int + 1)) by {
                assert(forall|k: int|
                    0 <= k < i ==> a@.take(i as int + 1)[k] == a@.take(i as int)[k]
                        && b@.take(i as int + 1)[k] == b@.take(i as int)[k]);
            }
        }
        i = i + 1;
    }
    proof {
        lemma_lex_skip(a@, b@, u8_key(), n as int);
    }
    if a.len() == b.len() {
        proof {
            assert(a@ =~= b@) by {
                assert(forall|k: int| 0 <= k < n ==> a@[k] == a@.take(n as int)[k]
                    && b@[k] == b@.take(n as int)[k]);
            }
        }
        Rank::Equal
    } else if a.len() < b.len() {
        proof {
            assert(a@.skip(n as int).len() == 0);
        }
        Rank::Less
    } else {
        proof {
            assert(b@.skip(n as int).len() == 0);
            assert(a@.skip(n as int).len() > 0);
        }
        Rank::Greater
    }
}

/// Three-way comparison of two strings by character code point, which
/// coincides with byte order of their encodings.
fn cmp_strs(a: &str, b: &str) -> (r: Rank)
    ensures
        (r == Rank::Equal) <==> a@ == b@,
        (r == Rank::Less) <==> (a@ != b@ && lex_le(a@, b@, char_key())),
        (r == Rank::Greater) <==> (a@ != b@ && !lex_le(a@, b@, char_key())),
{
    let an = a.unicode_len();
    let bn = b.unicode_len();
    let n = if an < bn {
        an
    } else {
        bn
    };
    let mut i: usize = 0;
    proof {
        assert(a@.take(0) =~= b@.take(0));
    }
    while i < n
        invariant
            i <= n,
            an == a@.len(),
            bn == b@.len(),
            n <= an,
            n <= bn,
            n == an || n == bn,
            a@.take(i as int) == b@.take(i as int),
        decreases n - i,
    {
        proof {
            lemma_lex_skip(a@, b@, char_key(), i as int);
        }
        let ca = a.get_char(i);
        let cb = b.get_char(i);
        if (ca as u32) < (cb as u32) {
            proof {
                vstd::utf8::char_u32_cast(ca, ca as u32);
                vstd::utf8::char_u32_cast(cb, cb as u32);
            }
            return Rank::Less;
        }
        if (ca as u32) > (cb as u32) {
            proof {
                vstd::utf8::char_u32_cast(ca, ca as u32);
                vstd::utf8::char_u32_cast(cb, cb as u32);
            }
            return Rank::Greater;
        }
        proof {
            vstd::utf8::char_u32_cast(ca, ca as u32);
            vstd::utf8::char_u32_cast(cb, cb as u32);
            assert(ca == cb);
            assert(a@.take(i as int + 1) =~= b@.take(i as int + 1)) by {
                assert(forall|k: int|
                    0 <= k < i ==> a@.take(i as int + 1)[k] == a@.take(i as int)[k]
                        && b@.take(i as int + 1)[k] == b@.take(i as int)[k]);
            }
        }
        i = i + 1;
    }
    proof {
        lemma_lex_skip(a@, b@, char_key(), n as int);
    }
    if an == bn {
        proof {
            assert(a@ =~= b@) by {
                assert(forall|k: int| 0 <= k < n ==> a@[k] == a@.take(n as int)[k]
                    && b@[k] == b@.take(n as int)[k]);
            }
        }
        Rank::Equal
    } else if an < bn {
        proof {
            assert(a@.skip(n as int).len() == 0);
        }
        Rank::Less
    } else {
        proof {
            assert(b@.skip(n as int).len() == 0);
            assert(a@.skip(n as int).len() > 0);
        }
        Rank::Greater
    }
}

/// Decides the canonical order between two node rows.
pub fn node_row_le_exec(a: &NodeRow, b: &NodeRow) -> (r: bool)
    ensures
        r == node_row_le(a.deep_view(), b.deep_view()),
{
    if a.node_id != b.node_id {
        return a.node_id < b.node_id;
    }
    match cmp_u8_vecs(&a.seq, &b.seq) {
        Rank::Less => true,
        Rank::Greater => false,
        Rank::Equal => match cmp_u64_vecs(&a.left_edges, &b.left_edges) {
            Rank::Less => true,
            Rank::Greater => false,
            Rank::Equal => match cmp_u64_vecs(&a.right_edges, &b.right_edges) {
                Rank::Greater => false,
                Rank::Less => true,
                Rank::Equal => {
                    proof {
                        lemma_lex_refl(a.right_edges@, u64_key());
                    }
                    true
                },
            },
        },
    }
}

/// Decides the canonical order between two path rows.
pub fn path_row_le_exec(a: &PathRow, b: &PathRow) -> (r: bool)
    ensures
        r == path_row_le(a.deep_view(), b.deep_view()),
{
    match cmp_strs(a.path_name.as_str(), b.path_name.as_str()) {
        Rank::Less => true,
        Rank::Greater => false,
        Rank::Equal => match cmp_u64_vecs(&a.handles, &b.handles) {
            Rank::Greater => false,
            Rank::Less => true,
            Rank::Equal => {
                proof {
                    lemma_lex_refl(a.handles@, u64_key());
                }
                true
            },
        },
    }
}

/// Decides the canonical order between two occurrence rows.
pub fn occur_row_le_exec(a: &OccurrenceRow, b: &OccurrenceRow) -> (r: bool)
    ensures
        r == occur_row_le(a.deep_view(), b.deep_view()),
{
    if a.node_id != b.node_id {
        return a.node_id < b.node_id;
    }
    match cmp_strs(a.path_name.as_str(), b.path_name.as_str()) {
        Rank::Less => true,
        Rank::Greater => false,
        Rank::Equal => a.step <= b.step,
    }
}

} // verus!
