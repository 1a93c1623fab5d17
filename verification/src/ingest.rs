//! The ingestion pipeline: turning tabular rows (five byte-string fields:
//! range start, range end, AS number, country, owner) into records.
//!
//! Rows whose owner field is exactly `Not routed` or `None` denote
//! unassigned space and are dropped before any parsing.  Every other row
//! has its addresses and AS number parsed, and its range decomposed into
//! CIDR networks, each yielding one record with the row's AS number,
//! country and owner.  A row whose parsed range is reversed (start above
//! end) yields no records.

use vstd::prelude::*;
use crate::record::{Record, RecordView, views_of, lemma_views_of_index, lemma_views_of_len};
use crate::parse::{is_ipv4_text, is_u32_text, ipv4_val, u32_text_val, parse_ipv4, parse_u32};
use crate::decompose::{decompose_spec, subnets, lemma_decompose_chain};
use crate::record::Network;

verus! {

broadcast use lemma_views_of_index, lemma_views_of_len;

/// One row of the tabular source, fields as raw bytes.
pub struct Row {
    pub range_start: Vec<u8>,
    pub range_end: Vec<u8>,
    pub as_number: Vec<u8>,
    pub country: Vec<u8>,
    pub owner: Vec<u8>,
}

/// Why one row could not be turned into records.
#[derive(Debug)]
pub enum TsvParseError {
    /// The row source itself failed to produce this row; the bytes carry
    /// the source's description of what went wrong.
    TsvError(Vec<u8>),
    /// An address field did not parse; the text names the field.
    AddrFieldParseError(&'static str),
    /// An integer field did not parse; the text names the field.
    IntFieldParseError(&'static str),
}

/// The mathematical value of a [`TsvParseError`].
pub ghost enum TsvParseErrorView {
    Tsv(Seq<u8>),
    Addr(Seq<char>),
    Int(Seq<char>),
}

impl View for TsvParseError {
    type V = TsvParseErrorView;

    open spec fn view(&self) -> TsvParseErrorView {
        match self {
            TsvParseError::TsvError(m) => TsvParseErrorView::Tsv(m@),
            TsvParseError::AddrFieldParseError(c) => TsvParseErrorView::Addr(c@),
            TsvParseError::IntFieldParseError(c) => TsvParseErrorView::Int(c@),
        }
    }
}

/// `Not routed`, as bytes.
pub open spec fn not_routed_text() -> Seq<u8> {
    seq![78u8, 111u8, 116u8, 32u8, 114u8, 111u8, 117u8, 116u8, 101u8, 100u8]
}

/// `None`, as bytes.
pub open spec fn none_text() -> Seq<u8> {
    seq![78u8, 111u8, 110u8, 101u8]
}

/// The row denotes unassigned space and is dropped before parsing.
pub open spec fn row_filtered(row: Row) -> bool {
    row.owner@ == not_routed_text() || row.owner@ == none_text()
}

/// All three parsed fields of the row are well formed.
pub open spec fn row_parses(row: Row) -> bool {
    &&& is_ipv4_text(row.range_start@)
    &&& is_ipv4_text(row.range_end@)
    &&& is_u32_text(row.as_number@)
}

/// The row passes the pipeline: it is either filtered out or parses.
pub open spec fn row_ok(row: Row) -> bool {
    row_filtered(row) || row_parses(row)
}

/// The error reported for a row that does not parse: the first failing
/// field, in field order.
pub open spec fn row_error(row: Row) -> TsvParseErrorView {
    if !is_ipv4_text(row.range_start@) {
        TsvParseErrorView::Addr("parsing range_start IP"@)
    } else if !is_ipv4_text(row.range_end@) {
        TsvParseErrorView::Addr("parsing range_end IP"@)
    } else {
        TsvParseErrorView::Int("parsing as_number"@)
    }
}

/// The record one decomposed network contributes for a row.
pub open spec fn net_record(net: Network, asn: u32, country: Seq<u8>, owner: Seq<u8>) -> RecordView {
    RecordView {
        ip: net.base,
        prefix_len: net.prefix_len,
        as_number: asn,
        country: country,
        owner: owner,
    }
}

/// Every record a row contributes: none when it is filtered, does not
/// parse, or has a reversed range; otherwise one per decomposed network.
pub open spec fn row_records(row: Row) -> Seq<RecordView> {
    if row_filtered(row) {
        Seq::empty()
    } else if row_parses(row) {
        let s = ipv4_val(row.range_start@);
        let e = ipv4_val(row.range_end@);
        let asn = u32_text_val(row.as_number@) as u32;
        if s <= e {
            decompose_spec(s as int, e as int).map_values(
                |net: Network| net_record(net, asn, row.country@, row.owner@),
            )
        } else {
            Seq::empty()
        }
    } else {
        Seq::empty()
    }
}

/// Filter behavior: a row whose owner is exactly `Not routed` or `None`
/// contributes no records at all.
pub proof fn lemma_filtered_row_empty(row: Row)
    requires
        row_filtered(row),
    ensures
        row_records(row) == Seq::<RecordView>::empty(),
{
}

/// Every record of a row has a prefix length within the decomposer's
/// bounds.
pub proof fn lemma_row_records_plen(row: Row)
    ensures
        forall|i: int|
            0 <= i < row_records(row).len() ==> 8 <= (#[trigger] row_records(row)[i]).prefix_len
                <= 32,
{
    if !row_filtered(row) && row_parses(row) {
        let s = ipv4_val(row.range_start@);
        let e = ipv4_val(row.range_end@);
        if s <= e {
            lemma_decompose_chain(s as int, e as int);
        }
    }
}

/// Copies a byte vector.
pub(crate) fn clone_bytes(v: &Vec<u8>) -> (out: Vec<u8>)
    ensures
        out@ == v@,
{
    let n = v.len();
    let mut out: Vec<u8> = Vec::new();
    let mut i: usize = 0;
    proof {
        assert(out@ =~= v@.subrange(0, 0));
    }
    while i < n
        invariant
            i <= n == v@.len(),
            out@ == v@.subrange(0, i as int),
        decreases n - i,
    {
        out.push(v[i]);
        proof {
            assert(out@ =~= v@.subrange(0, i + 1));
        }
        i = i + 1;
    }
    proof {
        assert(v@.subrange(0, n as int) =~= v@);
    }
    out
}

/// Whether the owner field filters the row out.
fn owner_filtered(owner: &Vec<u8>) -> (r: bool)
    ensures
        r == (owner@ == not_routed_text() || owner@ == none_text()),
{
    let n = owner.len();
    if n == 10 {
        let r = owner[0] == 78 && owner[1] == 111 && owner[2] == 116 && owner[3] == 32
            && owner[4] == 114 && owner[5] == 111 && owner[6] == 117 && owner[7] == 116
            && owner[8] == 101 && owner[9] == 100;
        proof {
            if r {
                assert(owner@ =~= not_routed_text());
            } else {
                assert(owner@ != not_routed_text());
                assert(owner@ != none_text());
            }
        }
        r
    } else if n == 4 {
        let r = owner[0] == 78 && owner[1] == 111 && owner[2] == 110 && owner[3] == 101;
        proof {
            if r {
                assert(owner@ =~= none_text());
            } else {
                assert(owner@ != none_text());
                assert(owner@ != not_routed_text());
            }
        }
        r
    } else {
        proof {
            assert(owner@ != not_routed_text());
            assert(owner@ != none_text());
        }
        false
    }
}

/// Turns one row into its records, or reports why it cannot be.
pub fn parse_row(row: &Row) -> (r: Result<Vec<Record>, TsvParseError>)
    ensures
        r is Ok <==> row_ok(*row),
        r matches Ok(recs) ==> views_of(recs@) == row_records(*row),
        r matches Err(e) ==> e@ == row_error(*row),
{
    if owner_filtered(&row.owner) {
        let out: Vec<Record> = Vec::new();
        proof {
            assert(views_of(out@) =~= row_records(*row));
        }
        return Ok(out);
    }
    let s = match parse_ipv4(&row.range_start) {
        Some(v) => v,
        None => {
            return Err(TsvParseError::AddrFieldParseError("parsing range_start IP"));
        },
    };
    let e = match parse_ipv4(&row.range_end) {
        Some(v) => v,
        None => {
            return Err(TsvParseError::AddrFieldParseError("parsing range_end IP"));
        },
    };
    let asn = match parse_u32(&row.as_number) {
        Some(v) => v,
        None => {
            return Err(TsvParseError::IntFieldParseError("parsing as_number"));
        },
    };
    let mut out: Vec<Record> = Vec::new();
    if s > e {
        proof {
            assert(views_of(out@) =~= row_records(*row));
        }
        return Ok(out);
    }
    let nets = subnets(s, e);
    let ghost target = row_records(*row);
    proof {
        assert(target == decompose_spec(s as int, e as int).map_values(
            |net: Network| net_record(net, asn, row.country@, row.owner@),
        ));
        assert(views_of(out@) =~= target.take(0));
    }
    let m = nets.len();
    let mut i: usize = 0;
    while i < m
        invariant
            i <= m == nets@.len(),
            nets@ == decompose_spec(s as int, e as int),
            target == decompose_spec(s as int, e as int).map_values(
                |net: Network| net_record(net, asn, row.country@, row.owner@),
            ),
            target.len() == m,
            views_of(out@) == target.take(i as int),
        decreases m - i,
    {
        let net = nets[i];
        let rec = Record {
            ip: net.base,
            prefix_len: net.prefix_len,
            as_number: asn,
            country: clone_bytes(&row.country),
            owner: clone_bytes(&row.owner),
        };
        let ghost pre = out@;
        proof {
            assert(rec@ == target[i as int]);
            assert(views_of(pre).len() == i);
            assert(pre.len() == i);
        }
        out.push(rec);
        proof {
            assert(out@ == pre.push(rec));
            assert forall|k: int| 0 <= k < i + 1 implies views_of(out@)[k] == target.take(i + 1)[k]
                by {
                assert(views_of(out@)[k] == out@[k]@);
                if k < i {
                    assert(pre.push(rec)[k] == pre[k]);
                    assert(views_of(pre)[k] == pre[k]@);
                    assert(views_of(pre)[k] == target.take(i as int)[k]);
                } else {
                    assert(pre.push(rec)[k] == rec);
                }
            }
            assert(views_of(out@) =~= target.take(i + 1));
        }
        i = i + 1;
    }
    proof {
        assert(target.take(m as int) =~= target);
    }
    Ok(out)
}

/// Wraps each record value as a success outcome.
pub open spec fn oks(s: Seq<RecordView>) -> Seq<Result<RecordView, TsvParseErrorView>> {
    s.map_values(|rv: RecordView| Result::<RecordView, TsvParseErrorView>::Ok(rv))
}

/// The per-row outcome of the stream: either that row's records, in
/// order, or its one error.
pub open spec fn row_stream(r: Result<Row, Vec<u8>>) -> Seq<
    Result<RecordView, TsvParseErrorView>,
> {
    match r {
        Ok(row) => if row_ok(row) {
            oks(row_records(row))
        } else {
            seq![Result::<RecordView, TsvParseErrorView>::Err(row_error(row))]
        },
        Err(m) => seq![
            Result::<RecordView, TsvParseErrorView>::Err(TsvParseErrorView::Tsv(m@)),
        ],
    }
}

/// The whole stream: the concatenated per-row outcomes.
pub open spec fn tsv_stream(rows: Seq<Result<Row, Vec<u8>>>) -> Seq<
    Result<RecordView, TsvParseErrorView>,
>
    decreases rows.len(),
{
    if rows.len() == 0 {
        Seq::empty()
    } else {
        tsv_stream(rows.drop_last()) + row_stream(rows.last())
    }
}

/// The mathematical value of one stream element.
pub open spec fn res_view(r: Result<Record, TsvParseError>) -> Result<
    RecordView,
    TsvParseErrorView,
> {
    match r {
        Ok(rec) => Ok(rec@),
        Err(e) => Err(e@),
    }
}

/// The mathematical values of a whole result sequence.
pub open spec fn stream_views(s: Seq<Result<Record, TsvParseError>>) -> Seq<
    Result<RecordView, TsvParseErrorView>,
> {
    s.map_values(|r: Result<Record, TsvParseError>| res_view(r))
}

/// Reads the whole row sequence as a flat stream of per-record results:
/// each well-formed row contributes its records, each failing row its one
/// error, in source order.
pub fn read_asn_tsv(rows: Vec<Result<Row, Vec<u8>>>) -> (out: Vec<
    Result<Record, TsvParseError>,
>)
    ensures
        stream_views(out@) == tsv_stream(rows@),
{
    let n = rows.len();
    let mut out: Vec<Result<Record, TsvParseError>> = Vec::new();
    proof {
        assert(rows@.take(0) =~= Seq::<Result<Row, Vec<u8>>>::empty());
        assert(stream_views(out@) =~= tsv_stream(rows@.take(0)));
    }
    let mut i: usize = 0;
    while i < n
        invariant
            i <= n == rows@.len(),
            stream_views(out@) == tsv_stream(rows@.take(i as int)),
        decreases n - i,
    {
        let ghost pre = out@;
        match &rows[i] {
            Err(m) => {
                out.push(Err(TsvParseError::TsvError(clone_bytes(m))));
                proof {
                    assert(stream_views(pre).len() == pre.len());
                    assert forall|k: int| 0 <= k < out@.len() implies stream_views(out@)[k] == (
                    tsv_stream(rows@.take(i as int)) + row_stream(rows@[i as int]))[k] by {
                        assert(stream_views(out@)[k] == res_view(out@[k]));
                        if k < pre.len() {
                            assert(pre.push(out@.last())[k] == pre[k]);
                            assert(stream_views(pre)[k] == res_view(pre[k]));
                        }
                    }
                    assert(stream_views(out@) =~= tsv_stream(rows@.take(i as int)) + row_stream(
                        rows@[i as int],
                    ));
                }
            },
            Ok(row) => {
                match parse_row(row) {
                    Err(e) => {
                        out.push(Err(e));
                        proof {
                            assert(stream_views(pre).len() == pre.len());
                            assert forall|k: int| 0 <= k < out@.len() implies stream_views(out@)[k]
                                == (tsv_stream(rows@.take(i as int)) + row_stream(
                                rows@[i as int],
                            ))[k] by {
                                assert(stream_views(out@)[k] == res_view(out@[k]));
                                if k < pre.len() {
                                    assert(pre.push(out@.last())[k] == pre[k]);
                                    assert(stream_views(pre)[k] == res_view(pre[k]));
                                }
                            }
                            assert(stream_views(out@) =~= tsv_stream(rows@.take(i as int))
                                + row_stream(rows@[i as int]));
                        }
                    },
                    Ok(mut recs) => {
                        let ghost rowrecs = row_records(*row);
                        let ghost total = recs@.len();
                        let mut c: usize = 0;
                        proof {
                            assert(views_of(recs@) == rowrecs);
                            assert(views_of(recs@).len() == recs@.len());
                            assert(recs.len() == recs@.len());
                            assert(total <= usize::MAX);
                            assert(rowrecs.len() == total);
                            assert(rowrecs.take(0) =~= Seq::<RecordView>::empty());
                            assert(oks(rowrecs.take(0)) =~= Seq::<
                                Result<RecordView, TsvParseErrorView>,
                            >::empty());
                            assert(stream_views(out@) =~= tsv_stream(rows@.take(i as int)) + oks(
                                rowrecs.take(0),
                            ));
                        }
                        while recs.len() > 0
                            invariant
                                c + recs@.len() == total,
                                total <= usize::MAX,
                                views_of(recs@) == rowrecs.skip(c as int),
                                rowrecs.len() == total,
                                stream_views(out@) == tsv_stream(rows@.take(i as int)) + oks(
                                    rowrecs.take(c as int),
                                ),
                            decreases recs@.len(),
                        {
                            let ghost prerecs = recs@;
                            let ghost preout = out@;
                            let rec = recs.remove(0);
                            proof {
                                assert(views_of(prerecs)[0] == prerecs[0]@);
                                assert(rec@ == rowrecs.skip(c as int)[0]);
                                assert(rec@ == rowrecs[c as int]);
                                assert(recs@ == prerecs.remove(0));
                                assert forall|k: int| 0 <= k < recs@.len() implies views_of(
                                    recs@,
                                )[k] == rowrecs.skip(c + 1)[k] by {
                                    assert(views_of(recs@)[k] == recs@[k]@);
                                    assert(prerecs.remove(0)[k] == prerecs[k + 1]);
                                    assert(views_of(prerecs)[k + 1] == prerecs[k + 1]@);
                                    assert(views_of(prerecs)[k + 1] == rowrecs.skip(c as int)[k
                                        + 1]);
                                }
                                assert(views_of(recs@) =~= rowrecs.skip(c + 1));
                            }
                            out.push(Ok(rec));
                            proof {
                                assert(out@ == preout.push(Ok(rec)));
                                assert(stream_views(preout).len() == preout.len());
                                assert(rowrecs.take(c + 1) =~= rowrecs.take(c as int).push(
                                    rowrecs[c as int],
                                ));
                                lemma_oks_snoc(rowrecs.take(c as int), rowrecs[c as int]);
                                assert forall|k: int| 0 <= k < out@.len() implies stream_views(
                                    out@,
                                )[k] == (tsv_stream(rows@.take(i as int)) + oks(
                                    rowrecs.take(c + 1),
                                ))[k] by {
                                    assert(stream_views(out@)[k] == res_view(out@[k]));
                                    if k < preout.len() {
                                        assert(preout.push(Ok(rec))[k] == preout[k]);
                                        assert(stream_views(preout)[k] == res_view(preout[k]));
                                    } else {
                                        assert(preout.push(Ok(rec))[k] == Result::<
                                            Record,
                                            TsvParseError,
                                        >::Ok(rec));
                                    }
                                }
                                assert(stream_views(out@) =~= tsv_stream(rows@.take(i as int))
                                    + oks(rowrecs.take(c + 1)));
                            }
                            c = c + 1;
                        }
                        proof {
                            assert(rowrecs.take(total as int) =~= rowrecs);
                            assert(row_stream(rows@[i as int]) == oks(rowrecs));
                        }
                    },
                }
            },
        }
        proof {
            assert(rows@.take(i + 1).drop_last() =~= rows@.take(i as int));
            assert(rows@.take(i + 1).last() == rows@[i as int]);
            assert(stream_views(out@) =~= tsv_stream(rows@.take(i + 1)));
        }
        i = i + 1;
    }
    proof {
        assert(rows@.take(n as int) =~= rows@);
    }
    out
}

/// Wrapping distributes over appending one element.
proof fn lemma_oks_snoc(s: Seq<RecordView>, r: RecordView)
    ensures
        oks(s.push(r)) == oks(s).push(Result::<RecordView, TsvParseErrorView>::Ok(r)),
{
    assert forall|k: int| 0 <= k < s.len() + 1 implies oks(s.push(r))[k] == oks(s).push(
        Result::<RecordView, TsvParseErrorView>::Ok(r),
    )[k] by {
        if k < s.len() {
            assert(s.push(r)[k] == s[k]);
        } else {
            assert(s.push(r)[k] == r);
        }
    }
    assert(oks(s.push(r)) =~= oks(s).push(Result::<RecordView, TsvParseErrorView>::Ok(r)));
}

} // verus!

