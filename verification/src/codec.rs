//! The snapshot text codec: a canonical tab/comma-delimited encoding of a
//! [`TestRecords`] aggregate, its parser, and the round-trip law tying the
//! two together.

use vstd::prelude::*;
use vstd::string::StrSliceExecFns;
use vstd::utf8::{decode_utf8, encode_utf8, valid_utf8};
use crate::rows::{NodeRow, NodeRowV, OccurrenceRow, OccurrenceRowV, PathRow, PathRowV,
    TestRecords, TestRecordsV};
use crate::text::{dec_value, is_dec, parse_u64_text, sep_free, split_char, split_str,
    parse_u64_str, push_u64, u64_digits};

verus! {

/// Returned by serialization when a node's sequence bytes are not valid
/// text and so cannot be written into the snapshot.
#[derive(Debug, Clone, Copy, PartialEq, Eq, Structural)]
pub struct EncodingError;

/// A comma-joined list of decimal numerals; an empty list is empty text.
pub open spec fn encode_list(xs: Seq<u64>) -> Seq<char>
    decreases xs.len(),
{
    if xs.len() == 0 {
        Seq::<char>::empty()
    } else if xs.len() == 1 {
        u64_digits(xs[0] as nat)
    } else {
        encode_list(xs.drop_last()) + seq![','] + u64_digits(xs.last() as nat)
    }
}

/// One node line: id, sequence text, and the two edge lists, tab-separated.
pub open spec fn encode_node_line(r: NodeRowV) -> Seq<char> {
    u64_digits(r.node_id as nat) + seq!['\t'] + decode_utf8(r.seq) + seq!['\t'] + encode_list(
        r.left_edges,
    ) + seq!['\t'] + encode_list(r.right_edges)
}

/// One path line: name and the visited handles, tab-separated.
pub open spec fn encode_path_line(r: PathRowV) -> Seq<char> {
    r.path_name + seq!['\t'] + encode_list(r.handles)
}

/// One occurrence line: node id, path name and step, tab-separated.
pub open spec fn encode_occur_line(r: OccurrenceRowV) -> Seq<char> {
    u64_digits(r.node_id as nat) + seq!['\t'] + r.path_name + seq!['\t'] + u64_digits(
        r.step as nat,
    )
}

pub open spec fn encode_node_rows(rs: Seq<NodeRowV>) -> Seq<char>
    decreases rs.len(),
{
    if rs.len() == 0 {
        Seq::<char>::empty()
    } else {
        encode_node_rows(rs.drop_last()) + encode_node_line(rs.last()) + seq!['\n']
    }
}

pub open spec fn encode_path_rows(rs: Seq<PathRowV>) -> Seq<char>
    decreases rs.len(),
{
    if rs.len() == 0 {
        Seq::<char>::empty()
    } else {
        encode_path_rows(rs.drop_last()) + encode_path_line(rs.last()) + seq!['\n']
    }
}

pub open spec fn encode_occur_rows(rs: Seq<OccurrenceRowV>) -> Seq<char>
    decreases rs.len(),
{
    if rs.len() == 0 {
        Seq::<char>::empty()
    } else {
        encode_occur_rows(rs.drop_last()) + encode_occur_line(rs.last()) + seq!['\n']
    }
}

/// The header line: the three declared row counts, tab-separated.
pub open spec fn encode_header(v: TestRecordsV) -> Seq<char> {
    u64_digits(v.node_row_count) + seq!['\t'] + u64_digits(v.path_row_count) + seq!['\t']
        + u64_digits(v.occur_row_count) + seq!['\n']
}

/// The whole canonical snapshot text of an aggregate.
pub open spec fn encode_records(v: TestRecordsV) -> Seq<char> {
    encode_header(v) + encode_node_rows(v.node_rows) + encode_path_rows(v.path_rows)
        + encode_occur_rows(v.occur_rows)
}

/// Every node sequence is valid text, the one precondition of encoding.
pub open spec fn all_seqs_valid(v: TestRecordsV) -> bool {
    forall|i: int| 0 <= i < v.node_rows.len() ==> valid_utf8(#[trigger] v.node_rows[i].seq)
}

/// Relies on core::str::from_utf8: succeeds exactly on valid UTF-8 input,
/// and views those very bytes as a string slice.
#[verifier::external_body]
pub(crate) fn str_from_bytes<'a>(b: &'a [u8]) -> (r: Option<&'a str>)
    ensures
        r is Some <==> valid_utf8(b@),
        r matches Some(s) ==> encode_utf8(s@) == b@,
{
    core::str::from_utf8(b).ok()
}

/// Appends a tab character.
fn push_tab(out: &mut String)
    ensures
        final(out)@ == old(out)@ + seq!['\t'],
{
    proof {
        reveal_strlit("\t");
        assert("\t"@ =~= seq!['\t']);
    }
    out.append("\t");
}

/// Appends a newline character.
fn push_nl(out: &mut String)
    ensures
        final(out)@ == old(out)@ + seq!['\n'],
{
    proof {
        reveal_strlit("\n");
        assert("\n"@ =~= seq!['\n']);
    }
    out.append("\n");
}

/// Appends a comma character.
fn push_comma(out: &mut String)
    ensures
        final(out)@ == old(out)@ + seq![','],
{
    proof {
        reveal_strlit(",");
        assert(","@ =~= seq![',']);
    }
    out.append(",");
}

/// Appends a comma-joined numeral list, as [`encode_list`] describes.
fn push_list(out: &mut String, xs: &Vec<u64>)
    ensures
        final(out)@ == old(out)@ + encode_list(xs@),
{
    let ghost base = out@;
    let mut i: usize = 0;
    proof {
        assert(xs@.take(0) =~= Seq::<u64>::empty());
        assert(base + encode_list(xs@.take(0)) =~= base);
    }
    while i < xs.len()
        invariant
            i <= xs@.len(),
            out@ == base + encode_list(xs@.take(i as int)),
        decreases xs@.len() - i,
    {
        let ghost before = out@;
        if i != 0 {
            push_comma(out);
        }
        push_u64(out, xs[i]);
        proof {
            let t = xs@.take(i as int + 1);
            assert(t.drop_last() =~= xs@.take(i as int));
            assert(t.last() == xs@[i as int]);
            if i == 0 {
                assert(encode_list(xs@.take(0)) =~= Seq::<char>::empty());
                assert(out@ =~= base + encode_list(t));
            } else {
                assert(out@ =~= base + encode_list(t));
            }
        }
        i = i + 1;
    }
    proof {
        assert(xs@.take(xs@.len() as int) =~= xs@);
    }
}

impl TestRecords {
    /// Writes the snapshot in its canonical text form. Fails exactly when
    /// some node sequence is not valid text; on success the text is
    /// [`encode_records`] of this aggregate, to the character.
    pub fn serialize(&self) -> (r: Result<String, EncodingError>)
        ensures
            r is Ok <==> all_seqs_valid(self@),
            r matches Ok(s) ==> s@ == encode_records(self@),
    {
        let mut out = String::new();
        push_u64(&mut out, self.node_row_count as u64);
        push_tab(&mut out);
        push_u64(&mut out, self.path_row_count as u64);
        push_tab(&mut out);
        push_u64(&mut out, self.occur_row_count as u64);
        push_nl(&mut out);
        proof {
            assert(out@ =~= encode_header(self@));
        }
        let ghost hdr = out@;

        let mut i: usize = 0;
        proof {
            assert(hdr + encode_node_rows(self@.node_rows.take(0)) =~= hdr);
        }
        while i < self.node_rows.len()
            invariant
                i <= self@.node_rows.len(),
                self@.node_rows.len() == self.node_rows@.len(),
                out@ == hdr + encode_node_rows(self@.node_rows.take(i as int)),
                forall|k: int| 0 <= k < i ==> valid_utf8(#[trigger] self@.node_rows[k].seq),
            decreases self.node_rows@.len() - i,
        {
            let row = &self.node_rows[i];
            push_u64(&mut out, row.node_id);
            push_tab(&mut out);
            match str_from_bytes(row.seq.as_slice()) {
                None => {
                    proof {
                        assert(!valid_utf8(self@.node_rows[i as int].seq));
                    }
                    return Err(EncodingError);
                },
                Some(st) => {
                    proof {
                        vstd::utf8::encode_utf8_decode_utf8(st@);
                    }
                    out.append(st);
                },
            }
            push_tab(&mut out);
            push_list(&mut out, &row.left_edges);
            push_tab(&mut out);
            push_list(&mut out, &row.right_edges);
            push_nl(&mut out);
            proof {
                let t = self@.node_rows.take(i as int + 1);
                assert(t.drop_last() =~= self@.node_rows.take(i as int));
                assert(t.last() == self@.node_rows[i as int]);
                assert(out@ =~= hdr + encode_node_rows(t));
            }
            i = i + 1;
        }
        proof {
            assert(self@.node_rows.take(self@.node_rows.len() as int) =~= self@.node_rows);
        }
        let ghost nodes_done = out@;

        let mut i: usize = 0;
        proof {
            assert(nodes_done + encode_path_rows(self@.path_rows.take(0)) =~= nodes_done);
        }
        while i < self.path_rows.len()
            invariant
                i <= self@.path_rows.len(),
                self@.path_rows.len() == self.path_rows@.len(),
                out@ == nodes_done + encode_path_rows(self@.path_rows.take(i as int)),
            decreases self.path_rows@.len() - i,
        {
            let row = &self.path_rows[i];
            out.append(row.path_name.as_str());
            push_tab(&mut out);
            push_list(&mut out, &row.handles);
            push_nl(&mut out);
            proof {
                let t = self@.path_rows.take(i as int + 1);
                assert(t.drop_last() =~= self@.path_rows.take(i as int));
                assert(t.last() == self@.path_rows[i as int]);
                assert(out@ =~= nodes_done + encode_path_rows(t));
            }
            i = i + 1;
        }
        proof {
            assert(self@.path_rows.take(self@.path_rows.len() as int) =~= self@.path_rows);
        }
        let ghost paths_done = out@;

        let mut i: usize = 0;
        proof {
            assert(paths_done + encode_occur_rows(self@.occur_rows.take(0)) =~= paths_done);
        }
        while i < self.occur_rows.len()
            invariant
                i <= self@.occur_rows.len(),
                self@.occur_rows.len() == self.occur_rows@.len(),
                out@ == paths_done + encode_occur_rows(self@.occur_rows.take(i as int)),
            decreases self.occur_rows@.len() - i,
        {
            let row = &self.occur_rows[i];
            push_u64(&mut out, row.node_id);
            push_tab(&mut out);
            out.append(row.path_name.as_str());
            push_tab(&mut out);
            push_u64(&mut out, row.step);
            push_nl(&mut out);
            proof {
                let t = self@.occur_rows.take(i as int + 1);
                assert(t.drop_last() =~= self@.occur_rows.take(i as int));
                assert(t.last() == self@.occur_rows[i as int]);
                assert(out@ =~= paths_done + encode_occur_rows(t));
            }
            i = i + 1;
        }
        proof {
            assert(self@.occur_rows.take(self@.occur_rows.len() as int) =~= self@.occur_rows);
            assert(out@ =~= encode_records(self@));
        }
        Ok(out)
    }
}

/// What parsing a count field yields: a numeral whose value fits a `usize`.
pub open spec fn parse_count(s: Seq<char>) -> Option<nat> {
    if is_dec(s) && dec_value(s) <= usize::MAX {
        Some(dec_value(s))
    } else {
        None
    }
}

/// Parses a comma-separated numeral list; pieces that are not in-range
/// numerals are dropped from the list rather than failing it.
pub open spec fn parse_pieces(ps: Seq<Seq<char>>) -> Seq<u64>
    decreases ps.len(),
{
    if ps.len() == 0 {
        Seq::<u64>::empty()
    } else {
        parse_pieces(ps.drop_last()) + match parse_u64_text(ps.last()) {
            Some(v) => seq![v],
            None => Seq::<u64>::empty(),
        }
    }
}

pub open spec fn parse_list(f: Seq<char>) -> Seq<u64> {
    parse_pieces(split_char(f, ','))
}

/// Parses one node line: at least four tab-separated fields, of which the
/// first must be a numeral id; the sequence field is stored as its bytes.
pub open spec fn parse_node_line(l: Seq<char>) -> Option<NodeRowV> {
    let fs = split_char(l, '\t');
    if fs.len() < 4 {
        None
    } else {
        match parse_u64_text(fs[0]) {
            Some(id) => Some(
                NodeRowV {
                    node_id: id,
                    seq: encode_utf8(fs[1]),
                    left_edges: parse_list(fs[2]),
                    right_edges: parse_list(fs[3]),
                },
            ),
            None => None,
        }
    }
}

/// Parses one path line: a name field and a handle-list field.
pub open spec fn parse_path_line(l: Seq<char>) -> Option<PathRowV> {
    let fs = split_char(l, '\t');
    if fs.len() < 2 {
        None
    } else {
        Some(PathRowV { path_name: fs[0], handles: parse_list(fs[1]) })
    }
}

/// Parses one occurrence line: numeral id, name, numeral step.
pub open spec fn parse_occur_line(l: Seq<char>) -> Option<OccurrenceRowV> {
    let fs = split_char(l, '\t');
    if fs.len() < 3 {
        None
    } else {
        match (parse_u64_text(fs[0]), parse_u64_text(fs[2])) {
            (Some(id), Some(st)) => Some(
                OccurrenceRowV { node_id: id, path_name: fs[1], step: st },
            ),
            _ => None,
        }
    }
}

pub open spec fn parse_node_rows(ls: Seq<Seq<char>>) -> Option<Seq<NodeRowV>>
    decreases ls.len(),
{
    if ls.len() == 0 {
        Some(Seq::<NodeRowV>::empty())
    } else {
        match (parse_node_rows(ls.drop_last()), parse_node_line(ls.last())) {
            (Some(rs), Some(r)) => Some(rs.push(r)),
            _ => None,
        }
    }
}

pub open spec fn parse_path_rows(ls: Seq<Seq<char>>) -> Option<Seq<PathRowV>>
    decreases ls.len(),
{
    if ls.len() == 0 {
        Some(Seq::<PathRowV>::empty())
    } else {
        match (parse_path_rows(ls.drop_last()), parse_path_line(ls.last())) {
            (Some(rs), Some(r)) => Some(rs.push(r)),
            _ => None,
        }
    }
}

pub open spec fn parse_occur_rows(ls: Seq<Seq<char>>) -> Option<Seq<OccurrenceRowV>>
    decreases ls.len(),
{
    if ls.len() == 0 {
        Some(Seq::<OccurrenceRowV>::empty())
    } else {
        match (parse_occur_rows(ls.drop_last()), parse_occur_line(ls.last())) {
            (Some(rs), Some(r)) => Some(rs.push(r)),
            _ => None,
        }
    }
}

/// What deserializing snapshot text yields: the header's three counts,
/// then exactly that many node, path and occurrence lines; absent or
/// malformed structure yields nothing.
pub open spec fn parse_records(s: Seq<char>) -> Option<TestRecordsV> {
    let parts = split_char(s, '\n');
    let hf = split_char(parts[0], '\t');
    if hf.len() < 3 {
        None
    } else {
        match (parse_count(hf[0]), parse_count(hf[1]), parse_count(hf[2])) {
            (Some(n0), Some(n1), Some(n2)) => {
                if parts.len() - 1 < n0 + n1 + n2 {
                    None
                } else {
                    let nls = parts.subrange(1, 1 + n0 as int);
                    let pls = parts.subrange(1 + n0 as int, 1 + n0 as int + n1 as int);
                    let ols = parts.subrange(
                        1 + n0 as int + n1 as int,
                        1 + n0 as int + n1 as int + n2 as int,
                    );
                    match (parse_node_rows(nls), parse_path_rows(pls), parse_occur_rows(ols)) {
                        (Some(nr), Some(pr), Some(or)) => Some(
                            TestRecordsV {
                                node_row_count: n0,
                                path_row_count: n1,
                                occur_row_count: n2,
                                node_rows: nr,
                                path_rows: pr,
                                occur_rows: or,
                            },
                        ),
                        _ => None,
                    }
                }
            },
            _ => None,
        }
    }
}

/// Parses a count field, as [`parse_count`] describes.
fn parse_count_str(s: &str) -> (r: Option<usize>)
    ensures
        r is Some <==> parse_count(s@) is Some,
        r matches Some(n) ==> parse_count(s@) == Some(n as nat),
{
    match parse_u64_str(s) {
        None => {
            proof {
                if is_dec(s@) {
                    assert(dec_value(s@) > u64::MAX);
                    assert(usize::MAX <= u64::MAX);
                }
            }
            None
        },
        Some(v) => {
            if v <= usize::MAX as u64 {
                Some(v as usize)
            } else {
                None
            }
        },
    }
}

/// Parses a comma-separated numeral list, as [`parse_list`] describes.
fn parse_list_str(f: &str) -> (r: Vec<u64>)
    ensures
        r@ == parse_list(f@),
{
    let pieces = split_str(f, ',');
    let mut out: Vec<u64> = Vec::new();
    let mut i: usize = 0;
    proof {
        assert(pieces.deep_view().take(0) =~~= Seq::<Seq<char>>::empty());
    }
    while i < pieces.len()
        invariant
            i <= pieces@.len(),
            pieces.deep_view().len() == pieces@.len(),
            pieces.deep_view() == split_char(f@, ','),
            out@ == parse_pieces(pieces.deep_view().take(i as int)),
        decreases pieces@.len() - i,
    {
        let ghost t = pieces.deep_view().take(i as int + 1);
        proof {
            assert(t.drop_last() =~~= pieces.deep_view().take(i as int));
            assert(t.last() == pieces.deep_view()[i as int]);
            assert(pieces.deep_view()[i as int] == pieces@[i as int]@);
        }
        match parse_u64_str(pieces[i].as_str()) {
            Some(v) => {
                out.push(v);
                proof {
                    assert(out@ =~= parse_pieces(t));
                }
            },
            None => {
                proof {
                    assert(out@ =~= parse_pieces(t));
                }
            },
        }
        i = i + 1;
    }
    proof {
        assert(pieces.deep_view().take(pieces@.len() as int) =~~= pieces.deep_view());
    }
    out
}

/// Parses one node line, as [`parse_node_line`] describes.
fn parse_node_line_str(l: &str) -> (r: Option<NodeRow>)
    ensures
        r is Some <==> parse_node_line(l@) is Some,
        r matches Some(row) ==> parse_node_line(l@) == Some(row.deep_view()),
{
    let fields = split_str(l, '\t');
    proof {
        assert(fields.deep_view().len() == fields@.len());
    }
    if fields.len() < 4 {
        return None;
    }
    proof {
        assert(fields.deep_view()[0] == fields@[0]@);
        assert(fields.deep_view()[1] == fields@[1]@);
        assert(fields.deep_view()[2] == fields@[2]@);
        assert(fields.deep_view()[3] == fields@[3]@);
    }
    let id = match parse_u64_str(fields[0].as_str()) {
        Some(id) => id,
        None => {
            return None;
        },
    };
    let seq = fields[1].as_str().as_bytes_vec();
    let left_edges = parse_list_str(fields[2].as_str());
    let right_edges = parse_list_str(fields[3].as_str());
    Some(NodeRow { node_id: id, seq, left_edges, right_edges })
}

/// Parses one path line, as [`parse_path_line`] describes.
fn parse_path_line_str(l: &str) -> (r: Option<PathRow>)
    ensures
        r is Some <==> parse_path_line(l@) is Some,
        r matches Some(row) ==> parse_path_line(l@) == Some(row.deep_view()),
{
    let fields = split_str(l, '\t');
    proof {
        assert(fields.deep_view().len() == fields@.len());
    }
    if fields.len() < 2 {
        return None;
    }
    proof {
        assert(fields.deep_view()[0] == fields@[0]@);
        assert(fields.deep_view()[1] == fields@[1]@);
    }
    let handles = parse_list_str(fields[1].as_str());
    let mut fields = fields;
    let path_name = fields.remove(0);
    Some(PathRow { path_name, handles })
}

/// Parses one occurrence line, as [`parse_occur_line`] describes.
fn parse_occur_line_str(l: &str) -> (r: Option<OccurrenceRow>)
    ensures
        r is Some <==> parse_occur_line(l@) is Some,
        r matches Some(row) ==> parse_occur_line(l@) == Some(row.deep_view()),
{
    let fields = split_str(l, '\t');
    proof {
        assert(fields.deep_view().len() == fields@.len());
    }
    if fields.len() < 3 {
        return None;
    }
    proof {
        assert(fields.deep_view()[0] == fields@[0]@);
        assert(fields.deep_view()[1] == fields@[1]@);
        assert(fields.deep_view()[2] == fields@[2]@);
    }
    let id = match parse_u64_str(fields[0].as_str()) {
        Some(id) => id,
        None => {
            return None;
        },
    };
    let step = match parse_u64_str(fields[2].as_str()) {
        Some(st) => st,
        None => {
            return None;
        },
    };
    let mut fields = fields;
    let path_name = fields.remove(1);
    Some(OccurrenceRow { node_id: id, path_name, step })
}

impl TestRecords {
    /// Reads snapshot text back into an aggregate, exactly as
    /// [`parse_records`] describes; on success the declared counts always
    /// equal the parsed row-list lengths. It fails — never panics — when
    /// the header has fewer than three fields or a count is not an
    /// in-range numeral, when fewer data lines follow than the counts
    /// require, when a node or occurrence row's id or step field is not
    /// an in-range numeral, and also when a data line has fewer
    /// tab-separated fields than its row type requires (a path line with
    /// no tab, an occurrence line with fewer than three fields), a
    /// structural case the format leaves open and this parser rejects.
    #[verifier::loop_isolation(false)]
    pub fn deserialize(text: &str) -> (r: Option<TestRecords>)
        ensures
            r is Some <==> parse_records(text@) is Some,
            r matches Some(t) ==> parse_records(text@) == Some(t@) && t@.counts_consistent(),
    {
        let ghost parts = split_char(text@, '\n');
        let lines = split_str(text, '\n');
        proof {
            crate::text::lemma_split_char_len(text@, '\n');
            assert(lines.deep_view().len() == lines@.len());
            assert(lines.deep_view()[0] == lines@[0]@);
        }
        let header = split_str(lines[0].as_str(), '\t');
        proof {
            assert(header.deep_view().len() == header@.len());
        }
        if header.len() < 3 {
            return None;
        }
        proof {
            assert(header.deep_view()[0] == header@[0]@);
            assert(header.deep_view()[1] == header@[1]@);
            assert(header.deep_view()[2] == header@[2]@);
        }
        let n0 = match parse_count_str(header[0].as_str()) {
            Some(n) => n,
            None => {
                return None;
            },
        };
        let n1 = match parse_count_str(header[1].as_str()) {
            Some(n) => n,
            None => {
                return None;
            },
        };
        let n2 = match parse_count_str(header[2].as_str()) {
            Some(n) => n,
            None => {
                return None;
            },
        };
        let data = lines.len() - 1;
        if data < n0 {
            return None;
        }
        if data - n0 < n1 {
            return None;
        }
        if data - n0 - n1 < n2 {
            return None;
        }
        let ghost nls = parts.subrange(1, 1 + n0 as int);
        let ghost pls = parts.subrange(1 + n0 as int, 1 + n0 as int + n1 as int);
        let ghost ols = parts.subrange(
            1 + n0 as int + n1 as int,
            1 + n0 as int + n1 as int + n2 as int,
        );
        proof {
            let hf = split_char(parts[0], '\t');
            assert(hf == header.deep_view());
            assert(parse_count(hf[0]) == Some(n0 as nat));
            assert(parse_count(hf[1]) == Some(n1 as nat));
            assert(parse_count(hf[2]) == Some(n2 as nat));
            assert(!(parts.len() - 1 < n0 as nat + n1 as nat + n2 as nat));
            assert((parse_node_rows(nls) is None || parse_path_rows(pls) is None
                || parse_occur_rows(ols) is None) ==> parse_records(text@) is None);
        }

        let mut node_rows: Vec<NodeRow> = Vec::new();
        let mut i: usize = 0;
        proof {
            assert(nls.take(0) =~~= Seq::<Seq<char>>::empty());
        }
        while i < n0
            invariant
                i <= n0,
                1 + n0 + n1 + n2 <= lines@.len(),
                lines.deep_view() == parts,
                lines.deep_view().len() == lines@.len(),
                nls == parts.subrange(1, 1 + n0 as int),
                node_rows@.len() == i,
                parse_node_rows(nls.take(i as int)) == Some(node_rows.deep_view()),
            decreases n0 - i,
        {
            proof {
                assert(lines.deep_view()[1 + i as int] == lines@[1 + i as int]@);
                assert(nls[i as int] == parts[1 + i as int]);
            }
            match parse_node_line_str(lines[1 + i].as_str()) {
                None => {
                    proof {
                        let t = nls.take(i as int + 1);
                        assert(t.last() == nls[i as int]);
                        assert(parse_node_rows(t) is None);
                        lemma_parse_node_rows_prefix_none(nls, i as int + 1);
                    }
                    return None;
                },
                Some(row) => {
                    let ghost prev = node_rows.deep_view();
                    node_rows.push(row);
                    proof {
                        let t = nls.take(i as int + 1);
                        assert(t.drop_last() =~~= nls.take(i as int));
                        assert(t.last() == nls[i as int]);
                        assert(node_rows.deep_view() =~~= prev.push(row.deep_view()));
                    }
                },
            }
            i = i + 1;
        }
        proof {
            assert(nls.take(n0 as int) =~~= nls);
        }

        let mut path_rows: Vec<PathRow> = Vec::new();
        let mut i: usize = 0;
        proof {
            assert(pls.take(0) =~~= Seq::<Seq<char>>::empty());
        }
        while i < n1
            invariant
                i <= n1,
                1 + n0 + n1 + n2 <= lines@.len(),
                lines.deep_view() == parts,
                lines.deep_view().len() == lines@.len(),
                pls == parts.subrange(1 + n0 as int, 1 + n0 as int + n1 as int),
                path_rows@.len() == i,
                parse_path_rows(pls.take(i as int)) == Some(path_rows.deep_view()),
            decreases n1 - i,
        {
            proof {
                assert(lines.deep_view()[1 + n0 as int + i as int] == lines@[1 + n0 as int
                    + i as int]@);
                assert(pls[i as int] == parts[1 + n0 as int + i as int]);
            }
            match parse_path_line_str(lines[1 + n0 + i].as_str()) {
                None => {
                    proof {
                        let t = pls.take(i as int + 1);
                        assert(t.last() == pls[i as int]);
                        assert(parse_path_rows(t) is None);
                        lemma_parse_path_rows_prefix_none(pls, i as int + 1);
                    }
                    return None;
                },
                Some(row) => {
                    let ghost prev = path_rows.deep_view();
                    path_rows.push(row);
                    proof {
                        let t = pls.take(i as int + 1);
                        assert(t.drop_last() =~~= pls.take(i as int));
                        assert(t.last() == pls[i as int]);
                        assert(path_rows.deep_view() =~~= prev.push(row.deep_view()));
                    }
                },
            }
            i = i + 1;
        }
        proof {
            assert(pls.take(n1 as int) =~~= pls);
        }

        let mut occur_rows: Vec<OccurrenceRow> = Vec::new();
        let mut i: usize = 0;
        proof {
            assert(ols.take(0) =~~= Seq::<Seq<char>>::empty());
        }
        while i < n2
            invariant
                i <= n2,
                1 + n0 + n1 + n2 <= lines@.len(),
                lines.deep_view() == parts,
                lines.deep_view().len() == lines@.len(),
                ols == parts.subrange(
                    1 + n0 as int + n1 as int,
                    1 + n0 as int + n1 as int + n2 as int,
                ),
                occur_rows@.len() == i,
                parse_occur_rows(ols.take(i as int)) == Some(occur_rows.deep_view()),
            decreases n2 - i,
        {
            proof {
                assert(lines.deep_view()[1 + n0 as int + n1 as int + i as int] == lines@[1
                    + n0 as int + n1 as int + i as int]@);
                assert(ols[i as int] == parts[1 + n0 as int + n1 as int + i as int]);
            }
            match parse_occur_line_str(lines[1 + n0 + n1 + i].as_str()) {
                None => {
                    proof {
                        let t = ols.take(i as int + 1);
                        assert(t.last() == ols[i as int]);
                        assert(parse_occur_rows(t) is None);
                        lemma_parse_occur_rows_prefix_none(ols, i as int + 1);
                    }
                    return None;
                },
                Some(row) => {
                    let ghost prev = occur_rows.deep_view();
                    occur_rows.push(row);
                    proof {
                        let t = ols.take(i as int + 1);
                        assert(t.drop_last() =~~= ols.take(i as int));
                        assert(t.last() == ols[i as int]);
                        assert(occur_rows.deep_view() =~~= prev.push(row.deep_view()));
                    }
                },
            }
            i = i + 1;
        }
        proof {
            assert(ols.take(n2 as int) =~~= ols);
        }

        let result = TestRecords {
            node_row_count: n0,
            path_row_count: n1,
            occur_row_count: n2,
            node_rows,
            path_rows,
            occur_rows,
        };
        proof {
            assert(parse_records(text@) == Some(result@));
        }
        Some(result)
    }
}

/// A node row whose sequence decodes to separator-free text survives the
/// snapshot format unharmed.
pub open spec fn node_row_text_ok(r: NodeRowV) -> bool {
    &&& valid_utf8(r.seq)
    &&& sep_free(decode_utf8(r.seq), '\t')
    &&& sep_free(decode_utf8(r.seq), '\n')
}

/// A path row whose name holds no separator survives the format.
pub open spec fn path_row_text_ok(r: PathRowV) -> bool {
    &&& sep_free(r.path_name, '\t')
    &&& sep_free(r.path_name, '\n')
}

/// An occurrence row whose name holds no separator survives the format.
pub open spec fn occur_row_text_ok(r: OccurrenceRowV) -> bool {
    &&& sep_free(r.path_name, '\t')
    &&& sep_free(r.path_name, '\n')
}

/// An aggregate the codec can carry through a round trip: counts equal to
/// the row-list lengths and representable, and every text field free of
/// tabs and newlines.
pub open spec fn round_trippable(v: TestRecordsV) -> bool {
    &&& v.counts_consistent()
    &&& v.node_row_count <= usize::MAX
    &&& v.path_row_count <= usize::MAX
    &&& v.occur_row_count <= usize::MAX
    &&& forall|i: int| 0 <= i < v.node_rows.len() ==> node_row_text_ok(#[trigger] v.node_rows[i])
    &&& forall|i: int| 0 <= i < v.path_rows.len() ==> path_row_text_ok(#[trigger] v.path_rows[i])
    &&& forall|i: int| 0 <= i < v.occur_rows.len() ==> occur_row_text_ok(
        #[trigger] v.occur_rows[i],
    )
}

/// Numeral lists contain digits and commas only, never a tab or newline.
proof fn lemma_encode_list_sep_free(xs: Seq<u64>)
    ensures
        sep_free(encode_list(xs), '\t'),
        sep_free(encode_list(xs), '\n'),
    decreases xs.len(),
{
    if xs.len() == 0 {
    } else if xs.len() == 1 {
        crate::text::lemma_digits_not_sep(xs[0] as nat);
    } else {
        lemma_encode_list_sep_free(xs.drop_last());
        crate::text::lemma_digits_not_sep(xs.last() as nat);
    }
}

/// Parsing a written numeral list restores the list exactly.
proof fn lemma_parse_encode_list(xs: Seq<u64>)
    ensures
        parse_list(encode_list(xs)) == xs,
    decreases xs.len(),
{
    if xs.len() == 0 {
        assert(encode_list(xs) =~= Seq::<char>::empty());
        crate::text::lemma_split_char_no_sep(Seq::<char>::empty(), ',');
        let ps = split_char(Seq::<char>::empty(), ',');
        assert(ps == seq![Seq::<char>::empty()]);
        assert(ps.drop_last() =~~= Seq::<Seq<char>>::empty());
        assert(parse_pieces(Seq::<Seq<char>>::empty()) == Seq::<u64>::empty());
        assert(parse_u64_text(ps.last()) is None);
        assert(parse_list(encode_list(xs)) =~= xs);
    } else if xs.len() == 1 {
        let ds = u64_digits(xs[0] as nat);
        crate::text::lemma_u64_digits_parse(xs[0] as nat);
        crate::text::lemma_digits_not_sep(xs[0] as nat);
        crate::text::lemma_split_char_no_sep(ds, ',');
        let ps = split_char(ds, ',');
        assert(ps == seq![ds]);
        assert(ps.drop_last() =~~= Seq::<Seq<char>>::empty());
        assert(parse_pieces(Seq::<Seq<char>>::empty()) == Seq::<u64>::empty());
        assert(ps.last() == ds);
        assert(parse_u64_text(ds) == Some(xs[0]));
        assert(parse_list(encode_list(xs)) =~= xs);
    } else {
        let pre = encode_list(xs.drop_last());
        let ds = u64_digits(xs.last() as nat);
        crate::text::lemma_u64_digits_parse(xs.last() as nat);
        crate::text::lemma_digits_not_sep(xs.last() as nat);
        crate::text::lemma_split_char_concat_last(pre, ds, ',');
        lemma_parse_encode_list(xs.drop_last());
        let ps = split_char(pre + seq![','] + ds, ',');
        assert(ps == split_char(pre, ',') + seq![ds]);
        assert(ps.drop_last() =~~= split_char(pre, ','));
        assert(ps.last() == ds);
        assert(parse_u64_text(ds) == Some(xs.last()));
        assert(parse_pieces(ps) =~= xs.drop_last() + seq![xs.last()]);
        assert(xs.drop_last() + seq![xs.last()] =~= xs);
    }
}

/// Writing then parsing one node line restores the row; the line itself
/// holds no newline.
proof fn lemma_node_line_round_trip(r: NodeRowV)
    requires
        node_row_text_ok(r),
    ensures
        parse_node_line(encode_node_line(r)) == Some(r),
        sep_free(encode_node_line(r), '\n'),
{
    let a = u64_digits(r.node_id as nat);
    let b = decode_utf8(r.seq);
    let c = encode_list(r.left_edges);
    let d = encode_list(r.right_edges);
    let line = encode_node_line(r);
    crate::text::lemma_digits_not_sep(r.node_id as nat);
    lemma_encode_list_sep_free(r.left_edges);
    lemma_encode_list_sep_free(r.right_edges);
    assert(line =~= a + seq!['\t'] + (b + seq!['\t'] + (c + seq!['\t'] + d)));
    crate::text::lemma_split_char_concat(a, b + seq!['\t'] + (c + seq!['\t'] + d), '\t');
    crate::text::lemma_split_char_concat(b, c + seq!['\t'] + d, '\t');
    crate::text::lemma_split_char_concat(c, d, '\t');
    crate::text::lemma_split_char_no_sep(d, '\t');
    let fs = split_char(line, '\t');
    assert(fs =~~= seq![a, b, c, d]);
    crate::text::lemma_u64_digits_parse(r.node_id as nat);
    assert(parse_u64_text(a) == Some(r.node_id));
    vstd::utf8::decode_utf8_encode_utf8(r.seq);
    assert(encode_utf8(b) == r.seq);
    lemma_parse_encode_list(r.left_edges);
    lemma_parse_encode_list(r.right_edges);
    assert(parse_node_line(line) == Some(r));
    assert(sep_free(line, '\n'));
}

/// Writing then parsing one path line restores the row; the line holds no
/// newline.
proof fn lemma_path_line_round_trip(r: PathRowV)
    requires
        path_row_text_ok(r),
    ensures
        parse_path_line(encode_path_line(r)) == Some(r),
        sep_free(encode_path_line(r), '\n'),
{
    let c = encode_list(r.handles);
    let line = encode_path_line(r);
    lemma_encode_list_sep_free(r.handles);
    assert(line =~= r.path_name + seq!['\t'] + c);
    crate::text::lemma_split_char_concat(r.path_name, c, '\t');
    crate::text::lemma_split_char_no_sep(c, '\t');
    let fs = split_char(line, '\t');
    assert(fs =~~= seq![r.path_name, c]);
    lemma_parse_encode_list(r.handles);
    assert(parse_path_line(line) == Some(r));
    assert(sep_free(line, '\n'));
}

/// Writing then parsing one occurrence line restores the row; the line
/// holds no newline.
proof fn lemma_occur_line_round_trip(r: OccurrenceRowV)
    requires
        occur_row_text_ok(r),
    ensures
        parse_occur_line(encode_occur_line(r)) == Some(r),
        sep_free(encode_occur_line(r), '\n'),
{
    let a = u64_digits(r.node_id as nat);
    let c = u64_digits(r.step as nat);
    let line = encode_occur_line(r);
    crate::text::lemma_digits_not_sep(r.node_id as nat);
    crate::text::lemma_digits_not_sep(r.step as nat);
    assert(line =~= a + seq!['\t'] + (r.path_name + seq!['\t'] + c));
    crate::text::lemma_split_char_concat(a, r.path_name + seq!['\t'] + c, '\t');
    crate::text::lemma_split_char_concat(r.path_name, c, '\t');
    crate::text::lemma_split_char_no_sep(c, '\t');
    let fs = split_char(line, '\t');
    assert(fs =~~= seq![a, r.path_name, c]);
    crate::text::lemma_u64_digits_parse(r.node_id as nat);
    crate::text::lemma_u64_digits_parse(r.step as nat);
    assert(parse_occur_line(line) == Some(r));
    assert(sep_free(line, '\n'));
}

pub open spec fn node_lines_of(rs: Seq<NodeRowV>) -> Seq<Seq<char>> {
    rs.map_values(|r: NodeRowV| encode_node_line(r))
}

pub open spec fn path_lines_of(rs: Seq<PathRowV>) -> Seq<Seq<char>> {
    rs.map_values(|r: PathRowV| encode_path_line(r))
}

pub open spec fn occur_lines_of(rs: Seq<OccurrenceRowV>) -> Seq<Seq<char>> {
    rs.map_values(|r: OccurrenceRowV| encode_occur_line(r))
}

/// Splitting encoded node rows followed by anything else yields one piece
/// per row, then the split of what follows.
proof fn lemma_split_encode_node_rows(rs: Seq<NodeRowV>, rest: Seq<char>)
    requires
        forall|i: int| 0 <= i < rs.len() ==> node_row_text_ok(#[trigger] rs[i]),
    ensures
        split_char(encode_node_rows(rs) + rest, '\n') == node_lines_of(rs) + split_char(
            rest,
            '\n',
        ),
    decreases rs.len(),
{
    if rs.len() == 0 {
        assert(encode_node_rows(rs) + rest =~= rest);
        assert(node_lines_of(rs) + split_char(rest, '\n') =~~= split_char(rest, '\n'));
    } else {
        let line = encode_node_line(rs.last());
        lemma_node_line_round_trip(rs.last());
        assert(encode_node_rows(rs) + rest =~= encode_node_rows(rs.drop_last()) + (line + seq![
            '\n',
        ] + rest));
        lemma_split_encode_node_rows(rs.drop_last(), line + seq!['\n'] + rest);
        crate::text::lemma_split_char_concat(line, rest, '\n');
        assert(node_lines_of(rs.drop_last()) + (seq![line] + split_char(rest, '\n'))
            =~~= node_lines_of(rs) + split_char(rest, '\n'));
    }
}

/// As [`lemma_split_encode_node_rows`], for path rows.
proof fn lemma_split_encode_path_rows(rs: Seq<PathRowV>, rest: Seq<char>)
    requires
        forall|i: int| 0 <= i < rs.len() ==> path_row_text_ok(#[trigger] rs[i]),
    ensures
        split_char(encode_path_rows(rs) + rest, '\n') == path_lines_of(rs) + split_char(
            rest,
            '\n',
        ),
    decreases rs.len(),
{
    if rs.len() == 0 {
        assert(encode_path_rows(rs) + rest =~= rest);
        assert(path_lines_of(rs) + split_char(rest, '\n') =~~= split_char(rest, '\n'));
    } else {
        let line = encode_path_line(rs.last());
        lemma_path_line_round_trip(rs.last());
        assert(encode_path_rows(rs) + rest =~= encode_path_rows(rs.drop_last()) + (line + seq![
            '\n',
        ] + rest));
        lemma_split_encode_path_rows(rs.drop_last(), line + seq!['\n'] + rest);
        crate::text::lemma_split_char_concat(line, rest, '\n');
        assert(path_lines_of(rs.drop_last()) + (seq![line] + split_char(rest, '\n'))
            =~~= path_lines_of(rs) + split_char(rest, '\n'));
    }
}

/// As [`lemma_split_encode_node_rows`], for occurrence rows.
proof fn lemma_split_encode_occur_rows(rs: Seq<OccurrenceRowV>, rest: Seq<char>)
    requires
        forall|i: int| 0 <= i < rs.len() ==> occur_row_text_ok(#[trigger] rs[i]),
    ensures
        split_char(encode_occur_rows(rs) + rest, '\n') == occur_lines_of(rs) + split_char(
            rest,
            '\n',
        ),
    decreases rs.len(),
{
    if rs.len() == 0 {
        assert(encode_occur_rows(rs) + rest =~= rest);
        assert(occur_lines_of(rs) + split_char(rest, '\n') =~~= split_char(rest, '\n'));
    } else {
        let line = encode_occur_line(rs.last());
        lemma_occur_line_round_trip(rs.last());
        assert(encode_occur_rows(rs) + rest =~= encode_occur_rows(rs.drop_last()) + (line
            + seq!['\n'] + rest));
        lemma_split_encode_occur_rows(rs.drop_last(), line + seq!['\n'] + rest);
        crate::text::lemma_split_char_concat(line, rest, '\n');
        assert(occur_lines_of(rs.drop_last()) + (seq![line] + split_char(rest, '\n'))
            =~~= occur_lines_of(rs) + split_char(rest, '\n'));
    }
}

/// Parsing the written node lines restores the rows.
proof fn lemma_parse_node_lines(rs: Seq<NodeRowV>)
    requires
        forall|i: int| 0 <= i < rs.len() ==> node_row_text_ok(#[trigger] rs[i]),
    ensures
        parse_node_rows(node_lines_of(rs)) == Some(rs),
    decreases rs.len(),
{
    let ls = node_lines_of(rs);
    if rs.len() == 0 {
        assert(ls =~~= Seq::<Seq<char>>::empty());
    } else {
        assert(ls.drop_last() =~~= node_lines_of(rs.drop_last()));
        assert(ls.last() == encode_node_line(rs.last()));
        lemma_parse_node_lines(rs.drop_last());
        lemma_node_line_round_trip(rs.last());
        assert(rs.drop_last().push(rs.last()) =~= rs);
    }
}

/// Parsing the written path lines restores the rows.
proof fn lemma_parse_path_lines(rs: Seq<PathRowV>)
    requires
        forall|i: int| 0 <= i < rs.len() ==> path_row_text_ok(#[trigger] rs[i]),
    ensures
        parse_path_rows(path_lines_of(rs)) == Some(rs),
    decreases rs.len(),
{
    let ls = path_lines_of(rs);
    if rs.len() == 0 {
        assert(ls =~~= Seq::<Seq<char>>::empty());
    } else {
        assert(ls.drop_last() =~~= path_lines_of(rs.drop_last()));
        assert(ls.last() == encode_path_line(rs.last()));
        lemma_parse_path_lines(rs.drop_last());
        lemma_path_line_round_trip(rs.last());
        assert(rs.drop_last().push(rs.last()) =~= rs);
    }
}

/// Parsing the written occurrence lines restores the rows.
proof fn lemma_parse_occur_lines(rs: Seq<OccurrenceRowV>)
    requires
        forall|i: int| 0 <= i < rs.len() ==> occur_row_text_ok(#[trigger] rs[i]),
    ensures
        parse_occur_rows(occur_lines_of(rs)) == Some(rs),
    decreases rs.len(),
{
    let ls = occur_lines_of(rs);
    if rs.len() == 0 {
        assert(ls =~~= Seq::<Seq<char>>::empty());
    } else {
        assert(ls.drop_last() =~~= occur_lines_of(rs.drop_last()));
        assert(ls.last() == encode_occur_line(rs.last()));
        lemma_parse_occur_lines(rs.drop_last());
        lemma_occur_line_round_trip(rs.last());
        assert(rs.drop_last().push(rs.last()) =~= rs);
    }
}

/// The round-trip law: deserializing the serialized form of any aggregate
/// whose counts match its rows and whose text fields hold no tab or
/// newline yields that aggregate back, exactly.
pub proof fn lemma_round_trip(v: TestRecordsV)
    requires
        round_trippable(v),
    ensures
        parse_records(encode_records(v)) == Some(v),
{
    let text = encode_records(v);
    let h0 = u64_digits(v.node_row_count) + seq!['\t'] + u64_digits(v.path_row_count) + seq![
        '\t',
    ] + u64_digits(v.occur_row_count);
    let body = encode_node_rows(v.node_rows) + (encode_path_rows(v.path_rows) + (
    encode_occur_rows(v.occur_rows) + Seq::<char>::empty()));
    crate::text::lemma_digits_not_sep(v.node_row_count);
    crate::text::lemma_digits_not_sep(v.path_row_count);
    crate::text::lemma_digits_not_sep(v.occur_row_count);
    assert(text =~= h0 + seq!['\n'] + body);
    crate::text::lemma_split_char_concat(h0, body, '\n');
    lemma_split_encode_node_rows(
        v.node_rows,
        encode_path_rows(v.path_rows) + (encode_occur_rows(v.occur_rows)
            + Seq::<char>::empty()),
    );
    lemma_split_encode_path_rows(
        v.path_rows,
        encode_occur_rows(v.occur_rows) + Seq::<char>::empty(),
    );
    lemma_split_encode_occur_rows(v.occur_rows, Seq::<char>::empty());
    crate::text::lemma_split_char_no_sep(Seq::<char>::empty(), '\n');
    let parts = split_char(text, '\n');
    let nl = node_lines_of(v.node_rows);
    let pl = path_lines_of(v.path_rows);
    let ol = occur_lines_of(v.occur_rows);
    assert(parts =~~= seq![h0] + (nl + (pl + (ol + seq![Seq::<char>::empty()]))));
    let n0 = v.node_row_count;
    let n1 = v.path_row_count;
    let n2 = v.occur_row_count;
    assert(parts.len() == 1 + n0 + n1 + n2 + 1);
    assert(parts[0] == h0);

    // header fields
    assert(h0 =~= u64_digits(n0) + seq!['\t'] + (u64_digits(n1) + seq!['\t'] + u64_digits(
        n2,
    )));
    crate::text::lemma_split_char_concat(
        u64_digits(n0),
        u64_digits(n1) + seq!['\t'] + u64_digits(n2),
        '\t',
    );
    crate::text::lemma_split_char_concat(u64_digits(n1), u64_digits(n2), '\t');
    crate::text::lemma_split_char_no_sep(u64_digits(n2), '\t');
    let hf = split_char(h0, '\t');
    assert(hf =~~= seq![u64_digits(n0), u64_digits(n1), u64_digits(n2)]);
    crate::text::lemma_u64_digits_parse(n0);
    crate::text::lemma_u64_digits_parse(n1);
    crate::text::lemma_u64_digits_parse(n2);
    assert(parse_count(hf[0]) == Some(n0));
    assert(parse_count(hf[1]) == Some(n1));
    assert(parse_count(hf[2]) == Some(n2));

    assert(!(parts.len() - 1 < n0 + n1 + n2));
    assert(parts.subrange(1, 1 + n0 as int) =~~= nl);
    assert(parts.subrange(1 + n0 as int, 1 + n0 as int + n1 as int) =~~= pl);
    assert(parts.subrange(1 + n0 as int + n1 as int, 1 + n0 as int + n1 as int + n2 as int)
        =~~= ol);
    lemma_parse_node_lines(v.node_rows);
    lemma_parse_path_lines(v.path_rows);
    lemma_parse_occur_lines(v.occur_rows);
    assert(parse_records(text) == Some(v));
}

/// If some prefix of the lines fails to parse, the whole list fails.
proof fn lemma_parse_node_rows_prefix_none(ls: Seq<Seq<char>>, k: int)
    requires
        0 <= k <= ls.len(),
        parse_node_rows(ls.take(k)) is None,
    ensures
        parse_node_rows(ls) is None,
    decreases ls.len() - k,
{
    if k < ls.len() {
        let t = ls.take(k + 1);
        assert(t.drop_last() =~~= ls.take(k));
        lemma_parse_node_rows_prefix_none(ls, k + 1);
    } else {
        assert(ls.take(k) =~~= ls);
    }
}

/// If some prefix of the lines fails to parse, the whole list fails.
proof fn lemma_parse_path_rows_prefix_none(ls: Seq<Seq<char>>, k: int)
    requires
        0 <= k <= ls.len(),
        parse_path_rows(ls.take(k)) is None,
    ensures
        parse_path_rows(ls) is None,
    decreases ls.len() - k,
{
    if k < ls.len() {
        let t = ls.take(k + 1);
        assert(t.drop_last() =~~= ls.take(k));
        lemma_parse_path_rows_prefix_none(ls, k + 1);
    } else {
        assert(ls.take(k) =~~= ls);
    }
}

/// If some prefix of the lines fails to parse, the whole list fails.
proof fn lemma_parse_occur_rows_prefix_none(ls: Seq<Seq<char>>, k: int)
    requires
        0 <= k <= ls.len(),
        parse_occur_rows(ls.take(k)) is None,
    ensures
        parse_occur_rows(ls) is None,
    decreases ls.len() - k,
{
    if k < ls.len() {
        let t = ls.take(k + 1);
        assert(t.drop_last() =~~= ls.take(k));
        lemma_parse_occur_rows_prefix_none(ls, k + 1);
    } else {
        assert(ls.take(k) =~~= ls);
    }
}

} // verus!
