//! The record database: an immutable sequence of AS records sorted by
//! network base address, built once from tabular rows or from a cache
//! image, then queried read-only.
//!
//! Ordering and equality of records go by the base address alone.  Rows
//! may produce records sharing a base address; construction keeps them
//! all, in source order (a stable sort), and lookup takes the last of an
//! equal run, so the record from the last-processed source row wins.
//! Overlapping networks are not rejected: lookup prefers the record with
//! the greatest base address at or below the queried address.

use vstd::prelude::*;
use vstd::arithmetic::power2::{pow2, lemma_pow2_pos};
use crate::record::{
    Record, RecordView, net_size, views_of, sorted_by_ip, lemma_views_of_index, lemma_views_of_len,
};
use crate::ingest::{
    Row, TsvParseError, TsvParseErrorView, row_ok, row_error, row_records, parse_row, clone_bytes,
    lemma_row_records_plen,
};
use crate::decompose::pow2_u64;
use crate::codec;
use crate::codec::{enc_store, enc_records, enc_record, recs_valid, store_bytes_ok, le_bytes, le_val};

verus! {

broadcast use lemma_views_of_index, lemma_views_of_len;

/// Why a database could not be built or loaded.
#[derive(Debug)]
pub enum DbError {
    /// A row of the tabular source failed.
    TsvError(TsvParseError),
    /// The cache image is not one of ours: wrong tag or version.
    DbDataError(&'static str),
    /// An input or output channel failed; the bytes carry its description
    /// and the text names the phase.
    FileError(Vec<u8>, &'static str),
    /// The cache image's payload is malformed; the text names the phase.
    DecodeError(&'static str),
}

/// The mathematical value of a [`DbError`].
pub ghost enum DbErrorView {
    Tsv(TsvParseErrorView),
    Data(Seq<char>),
    File(Seq<u8>, Seq<char>),
    Decode(Seq<char>),
}

impl View for DbError {
    type V = DbErrorView;

    open spec fn view(&self) -> DbErrorView {
        match self {
            DbError::TsvError(e) => DbErrorView::Tsv(e@),
            DbError::DbDataError(m) => DbErrorView::Data(m@),
            DbError::FileError(m, c) => DbErrorView::File(m@, c@),
            DbError::DecodeError(c) => DbErrorView::Decode(c@),
        }
    }
}

/// A well-formed store: sorted by base address, every prefix length
/// within an address.
pub open spec fn store_wf(s: Seq<RecordView>) -> bool {
    &&& sorted_by_ip(s)
    &&& forall|i: int| 0 <= i < s.len() ==> (#[trigger] s[i]).prefix_len <= 32
}

/// ASN record database, optimized for lookup by an IP address.
pub struct Db(Vec<Record>);

impl View for Db {
    type V = Seq<RecordView>;

    closed spec fn view(&self) -> Seq<RecordView> {
        views_of(self.0@)
    }
}

/// The greatest index whose record's base address is at or below `q`,
/// or -1 when there is none (scanning from the back, so among equal
/// base addresses the last one is picked).
pub open spec fn floor_index(s: Seq<RecordView>, q: u32) -> int
    decreases s.len(),
{
    if s.len() == 0 {
        -1
    } else if s.last().ip <= q {
        s.len() - 1
    } else {
        floor_index(s.drop_last(), q)
    }
}

/// What lookup returns: the floor record, if the queried address lies
/// inside its network.
pub open spec fn lookup_spec(s: Seq<RecordView>, q: u32) -> Option<RecordView> {
    let j = floor_index(s, q);
    if j >= 0 && s[j].net().contains(q) {
        Some(s[j])
    } else {
        None
    }
}

/// The floor index is in range, and its record's address is at or below
/// the query, while everything after it is above.
pub proof fn lemma_floor_index_props(s: Seq<RecordView>, q: u32)
    ensures
        -1 <= floor_index(s, q) < s.len(),
        floor_index(s, q) >= 0 ==> s[floor_index(s, q)].ip <= q,
        forall|m: int| floor_index(s, q) < m < s.len() ==> s[m].ip > q,
    decreases s.len(),
{
    if s.len() > 0 && s.last().ip > q {
        lemma_floor_index_props(s.drop_last(), q);
        assert(forall|m: int| 0 <= m < s.len() - 1 ==> s.drop_last()[m] == s[m]);
    }
}

/// Any index that is at or below the query, with everything after it
/// above, is the floor index.
pub proof fn lemma_floor_index_char(s: Seq<RecordView>, q: u32, j: int)
    requires
        -1 <= j < s.len(),
        j >= 0 ==> s[j].ip <= q,
        forall|m: int| j < m < s.len() ==> s[m].ip > q,
    ensures
        floor_index(s, q) == j,
    decreases s.len(),
{
    if s.len() > 0 {
        if j == s.len() - 1 {
        } else {
            assert(s.last().ip > q);
            assert(forall|m: int| 0 <= m < s.len() - 1 ==> s.drop_last()[m] == s[m]);
            lemma_floor_index_char(s.drop_last(), q, j);
        }
    }
}

/// Binary search for the insertion point: the number of records at or
/// below `q` counted up to the floor, i.e. `floor_index + 1`.
fn floor_search(v: &Vec<Record>, q: u32) -> (r: usize)
    requires
        sorted_by_ip(views_of(v@)),
    ensures
        r == floor_index(views_of(v@), q) + 1,
{
    let ghost s = views_of(v@);
    let mut lo: usize = 0;
    let mut hi: usize = v.len();
    proof {
        assert(s.len() == v@.len());
    }
    while lo < hi
        invariant
            0 <= lo <= hi <= s.len() == v@.len(),
            s == views_of(v@),
            sorted_by_ip(s),
            forall|m: int| 0 <= m < lo ==> s[m].ip <= q,
            forall|m: int| hi <= m < s.len() ==> s[m].ip > q,
        decreases hi - lo,
    {
        let mid = lo + (hi - lo) / 2;
        if v[mid].ip <= q {
            proof {
                assert(s[mid as int].ip <= q);
                assert(forall|m: int| 0 <= m <= mid ==> s[m].ip <= s[mid as int].ip);
            }
            lo = mid + 1;
        } else {
            proof {
                assert(s[mid as int].ip > q);
                assert(forall|m: int| mid <= m < s.len() ==> s[m].ip >= s[mid as int].ip);
            }
            hi = mid;
        }
    }
    proof {
        lemma_floor_index_char(s, q, lo - 1);
    }
    lo
}

/// Inserting one record just after all records at or below its address:
/// the stable insertion step of the construction sort.
pub open spec fn stable_insert(s: Seq<RecordView>, r: RecordView) -> Seq<RecordView>
    decreases s.len(),
{
    if s.len() == 0 {
        seq![r]
    } else if s.last().ip <= r.ip {
        s.push(r)
    } else {
        stable_insert(s.drop_last(), r).push(s.last())
    }
}

/// The construction sort: records inserted one by one, in source order.
/// Equal base addresses keep their source order, so of an equal run the
/// last-processed row's record ends up last.
pub open spec fn sort_records(rs: Seq<RecordView>) -> Seq<RecordView>
    decreases rs.len(),
{
    if rs.len() == 0 {
        Seq::empty()
    } else {
        stable_insert(sort_records(rs.drop_last()), rs.last())
    }
}

/// The stable insertion step lands exactly at the floor position.
pub proof fn lemma_stable_insert_at(s: Seq<RecordView>, r: RecordView)
    ensures
        stable_insert(s, r) == s.insert(floor_index(s, r.ip) + 1, r),
    decreases s.len(),
{
    if s.len() == 0 {
        assert(stable_insert(s, r) =~= s.insert(0, r));
    } else if s.last().ip <= r.ip {
        assert(s.push(r) =~= s.insert(s.len() as int, r));
    } else {
        lemma_stable_insert_at(s.drop_last(), r);
        let p = floor_index(s.drop_last(), r.ip) + 1;
        lemma_floor_index_props(s.drop_last(), r.ip);
        assert(stable_insert(s, r) == s.drop_last().insert(p, r).push(s.last()));
        assert(s.drop_last().insert(p, r).push(s.last()) =~= s.insert(p, r));
    }
}

/// The stable insertion step keeps the store sorted.
pub proof fn lemma_stable_insert_sorted(s: Seq<RecordView>, r: RecordView)
    requires
        sorted_by_ip(s),
    ensures
        sorted_by_ip(stable_insert(s, r)),
    decreases s.len(),
{
    if s.len() == 0 {
    } else if s.last().ip <= r.ip {
        assert forall|i: int, j: int| 0 <= i <= j < s.push(r).len() implies s.push(r)[i].ip
            <= s.push(r)[j].ip by {
            if j < s.len() {
                assert(s.push(r)[i] == s[i] && s.push(r)[j] == s[j]);
            } else if i < s.len() {
                assert(s.push(r)[i] == s[i]);
                assert(s[i].ip <= s.last().ip);
            }
        }
    } else {
        let t = s.drop_last();
        assert(forall|m: int| 0 <= m < t.len() ==> t[m] == s[m]);
        lemma_stable_insert_sorted(t, r);
        let u = stable_insert(t, r);
        lemma_stable_insert_at(t, r);
        lemma_floor_index_props(t, r.ip);
        // every element of u is an element of t or r, all at or below
        // s.last().ip
        assert forall|i: int, j: int| 0 <= i <= j < u.push(s.last()).len() implies u.push(
            s.last(),
        )[i].ip <= u.push(s.last())[j].ip by {
            let p = floor_index(t, r.ip) + 1;
            assert(forall|m: int| 0 <= m < p ==> u[m] == t[m]);
            assert(u[p] == r);
            assert(forall|m: int| p < m < u.len() ==> u[m] == t[m - 1]);
            if j < u.len() {
                assert(u.push(s.last())[i] == u[i] && u.push(s.last())[j] == u[j]);
            } else if i < u.len() {
                assert(u.push(s.last())[i] == u[i]);
                assert(u[i].ip <= s.last().ip);
            }
        }
    }
}

/// Sortedness invariant: whatever the source order, the construction
/// sort leaves the records non-decreasing by base address.
pub proof fn lemma_sort_records_sorted(rs: Seq<RecordView>)
    ensures
        sorted_by_ip(sort_records(rs)),
    decreases rs.len(),
{
    if rs.len() > 0 {
        lemma_sort_records_sorted(rs.drop_last());
        lemma_stable_insert_sorted(sort_records(rs.drop_last()), rs.last());
    }
}

/// The sorted store holds exactly the elements that went in.
pub proof fn lemma_stable_insert_contains(s: Seq<RecordView>, r: RecordView, x: RecordView)
    ensures
        stable_insert(s, r).contains(x) <==> (s.contains(x) || x == r),
    decreases s.len(),
{
    lemma_stable_insert_at(s, r);
    let p = floor_index(s, r.ip) + 1;
    lemma_floor_index_props(s, r.ip);
    let u = s.insert(p, r);
    assert(forall|m: int| 0 <= m < p ==> u[m] == s[m]);
    assert(u[p] == r);
    assert(forall|m: int| p < m < u.len() ==> u[m] == s[m - 1]);
    if s.contains(x) {
        let w = choose|w: int| 0 <= w < s.len() && s[w] == x;
        if w < p {
            assert(u[w] == x);
        } else {
            assert(u[w + 1] == x);
        }
        assert(u.contains(x));
    }
    if u.contains(x) && x != r {
        let w = choose|w: int| 0 <= w < u.len() && u[w] == x;
        if w < p {
            assert(s[w] == x);
        } else {
            assert(w != p);
            assert(s[w - 1] == x);
        }
        assert(s.contains(x));
    }
    assert(u.contains(r)) by {
        assert(u[p] == r);
    }
}

/// Every record of the sorted store came from the source sequence.
pub proof fn lemma_sort_records_contains(rs: Seq<RecordView>, x: RecordView)
    ensures
        sort_records(rs).contains(x) ==> rs.contains(x),
    decreases rs.len(),
{
    if rs.len() > 0 {
        lemma_sort_records_contains(rs.drop_last(), x);
        lemma_stable_insert_contains(sort_records(rs.drop_last()), rs.last(), x);
        if sort_records(rs).contains(x) {
            if x == rs.last() {
                assert(rs[rs.len() - 1] == x);
            } else {
                let w = choose|w: int| 0 <= w < rs.drop_last().len() && rs.drop_last()[w] == x;
                assert(rs[w] == x);
            }
        }
    }
}

/// The subsequence of records with one base address, in order.
pub open spec fn with_ip(s: Seq<RecordView>, ip: u32) -> Seq<RecordView>
    decreases s.len(),
{
    if s.len() == 0 {
        Seq::empty()
    } else if s.last().ip == ip {
        with_ip(s.drop_last(), ip).push(s.last())
    } else {
        with_ip(s.drop_last(), ip)
    }
}

/// Selecting one base address distributes over concatenation.
proof fn lemma_with_ip_add(a: Seq<RecordView>, b: Seq<RecordView>, ip: u32)
    ensures
        with_ip(a + b, ip) == with_ip(a, ip) + with_ip(b, ip),
    decreases b.len(),
{
    if b.len() == 0 {
        assert(a + b =~= a);
        assert(with_ip(b, ip) == Seq::<RecordView>::empty());
        assert(with_ip(a, ip) + with_ip(b, ip) =~= with_ip(a, ip));
    } else {
        lemma_with_ip_add(a, b.drop_last(), ip);
        assert((a + b).drop_last() =~= a + b.drop_last());
        assert((a + b).last() == b.last());
        if b.last().ip == ip {
            assert(with_ip(a, ip) + with_ip(b.drop_last(), ip).push(b.last()) =~= (with_ip(a, ip)
                + with_ip(b.drop_last(), ip)).push(b.last()));
        }
    }
}

/// A sequence without the base address selects to nothing.
proof fn lemma_with_ip_none(s: Seq<RecordView>, ip: u32)
    requires
        forall|i: int| 0 <= i < s.len() ==> (#[trigger] s[i]).ip != ip,
    ensures
        with_ip(s, ip) == Seq::<RecordView>::empty(),
    decreases s.len(),
{
    if s.len() > 0 {
        assert(forall|i: int| 0 <= i < s.len() - 1 ==> s.drop_last()[i] == s[i]);
        lemma_with_ip_none(s.drop_last(), ip);
    }
}

/// Selecting a base address meets something exactly when some record
/// carries it.
proof fn lemma_with_ip_mem(s: Seq<RecordView>, ip: u32)
    ensures
        with_ip(s, ip).len() > 0 <==> exists|i: int| 0 <= i < s.len() && (#[trigger] s[i]).ip
            == ip,
    decreases s.len(),
{
    if s.len() > 0 {
        assert(forall|i: int| 0 <= i < s.len() - 1 ==> s.drop_last()[i] == s[i]);
        lemma_with_ip_mem(s.drop_last(), ip);
        if s.last().ip == ip {
            assert(s[s.len() - 1].ip == ip);
        } else if exists|i: int| 0 <= i < s.len() && (#[trigger] s[i]).ip == ip {
            let w = choose|i: int| 0 <= i < s.len() && (#[trigger] s[i]).ip == ip;
            assert(s.drop_last()[w].ip == ip);
        }
    }
}

/// The stable insertion step appends to its address's run and leaves
/// every other address's run alone.
proof fn lemma_with_ip_insert(s: Seq<RecordView>, r: RecordView, ip: u32)
    ensures
        with_ip(stable_insert(s, r), ip) == if r.ip == ip {
            with_ip(s, ip).push(r)
        } else {
            with_ip(s, ip)
        },
{
    lemma_stable_insert_at(s, r);
    lemma_floor_index_props(s, r.ip);
    let p = floor_index(s, r.ip) + 1;
    let u = s.insert(p, r);
    assert(u =~= s.take(p) + (seq![r] + s.skip(p)));
    assert(s =~= s.take(p) + s.skip(p));
    lemma_with_ip_add(s.take(p), seq![r] + s.skip(p), ip);
    lemma_with_ip_add(seq![r], s.skip(p), ip);
    lemma_with_ip_add(s.take(p), s.skip(p), ip);
    assert(seq![r].drop_last() =~= Seq::<RecordView>::empty());
    assert(with_ip(Seq::<RecordView>::empty(), ip) == Seq::<RecordView>::empty());
    assert(seq![r].last() == r);
    assert(Seq::<RecordView>::empty().push(r) =~= seq![r]);
    assert(with_ip(seq![r], ip) == if r.ip == ip { seq![r] } else { Seq::<RecordView>::empty() });
    if r.ip == ip {
        // everything past the insertion point has a greater address
        assert(forall|k: int| 0 <= k < s.skip(p).len() ==> (#[trigger] s.skip(p)[k]).ip != ip)
            by {
            assert(forall|k: int|
                0 <= k < s.skip(p).len() ==> #[trigger] s.skip(p)[k] == s[p + k]);
        }
        lemma_with_ip_none(s.skip(p), ip);
        assert(with_ip(u, ip) =~= with_ip(s, ip).push(r));
    } else {
        assert(with_ip(u, ip) =~= with_ip(s, ip));
    }
}

/// Stability of the construction sort: for every base address, the run
/// of records carrying it comes out in exactly its source order.
pub proof fn lemma_sort_records_stable(rs: Seq<RecordView>, ip: u32)
    ensures
        with_ip(sort_records(rs), ip) == with_ip(rs, ip),
    decreases rs.len(),
{
    if rs.len() > 0 {
        lemma_sort_records_stable(rs.drop_last(), ip);
        lemma_with_ip_insert(sort_records(rs.drop_last()), rs.last(), ip);
    }
}

/// In a sorted store, the floor record of an exactly matched address is
/// the last record carrying that address.
proof fn lemma_sorted_floor_is_last_match(s: Seq<RecordView>, q: u32)
    requires
        sorted_by_ip(s),
        floor_index(s, q) >= 0,
        s[floor_index(s, q)].ip == q,
    ensures
        with_ip(s, q).len() > 0,
        s[floor_index(s, q)] == with_ip(s, q).last(),
{
    lemma_floor_index_props(s, q);
    let j = floor_index(s, q);
    assert(s =~= s.take(j + 1) + s.skip(j + 1));
    lemma_with_ip_add(s.take(j + 1), s.skip(j + 1), q);
    assert(forall|k: int| 0 <= k < s.skip(j + 1).len() ==> (#[trigger] s.skip(j + 1)[k]).ip != q)
        by {
        assert(forall|k: int|
            0 <= k < s.skip(j + 1).len() ==> #[trigger] s.skip(j + 1)[k] == s[j + 1 + k]);
    }
    lemma_with_ip_none(s.skip(j + 1), q);
    let t = s.take(j + 1);
    assert(t.last() == s[j]);
    assert(with_ip(t, q) == with_ip(t.drop_last(), q).push(s[j]));
    assert(with_ip(s, q) =~= with_ip(t.drop_last(), q).push(s[j]));
}

/// The deterministic tie-break, resolved: when several source records
/// share a base address, a lookup that hits that address exactly returns
/// the record of the last-processed source row.
pub proof fn lemma_last_row_wins(rs: Seq<RecordView>, q: u32)
    requires
        with_ip(rs, q).len() > 0,
        forall|i: int| 0 <= i < rs.len() ==> (#[trigger] rs[i]).prefix_len <= 32,
    ensures
        lookup_spec(sort_records(rs), q) == Some(with_ip(rs, q).last()),
{
    let s = sort_records(rs);
    lemma_sort_records_sorted(rs);
    lemma_sort_records_stable(rs, q);
    lemma_with_ip_mem(s, q);
    assert forall|i: int| 0 <= i < s.len() implies (#[trigger] s[i]).prefix_len <= 32 by {
        let x = s[i];
        assert(s.contains(x));
        lemma_sort_records_contains(rs, x);
        let w = choose|w: int| 0 <= w < rs.len() && rs[w] == x;
        assert(rs[w].prefix_len <= 32);
    }
    let i = choose|i: int| 0 <= i < s.len() && (#[trigger] s[i]).ip == q;
    lemma_lookup_exact(s, q, i);
    lemma_sorted_floor_is_last_match(s, q);
}

/// Sorting an already sorted sequence changes nothing.
pub proof fn lemma_sort_records_of_sorted(rs: Seq<RecordView>)
    requires
        sorted_by_ip(rs),
    ensures
        sort_records(rs) == rs,
    decreases rs.len(),
{
    if rs.len() > 0 {
        assert(forall|i: int| 0 <= i < rs.len() - 1 ==> rs.drop_last()[i] == rs[i]);
        lemma_sort_records_of_sorted(rs.drop_last());
        if rs.len() == 1 {
            assert(stable_insert(rs.drop_last(), rs.last()) =~= rs);
        } else {
            assert(rs.drop_last().last().ip <= rs.last().ip);
            assert(rs.drop_last().push(rs.last()) =~= rs);
        }
    }
}

/// Every address inside one ingested row's range is answered: a store
/// built from that row alone returns, for each address of the range, a
/// record carrying the row's AS number, country and owner, whose network
/// contains the address.
pub proof fn lemma_row_range_found(row: Row, addr: u32)
    requires
        !crate::ingest::row_filtered(row),
        crate::ingest::row_parses(row),
        crate::parse::ipv4_val(row.range_start@) <= addr <= crate::parse::ipv4_val(
            row.range_end@,
        ),
    ensures
        ({
            let rr = row_records(row);
            &&& lookup_spec(sort_records(rr), addr) matches Some(rec)
            &&& lookup_spec(sort_records(rr), addr) == Some(
                rr[floor_index(rr, addr)],
            )
            &&& lookup_spec(sort_records(rr), addr).unwrap().net().contains(addr)
            &&& lookup_spec(sort_records(rr), addr).unwrap().as_number
                == crate::parse::u32_text_val(row.as_number@)
            &&& lookup_spec(sort_records(rr), addr).unwrap().country == row.country@
            &&& lookup_spec(sort_records(rr), addr).unwrap().owner == row.owner@
        }),
{
    let lo = crate::parse::ipv4_val(row.range_start@);
    let hi = crate::parse::ipv4_val(row.range_end@);
    let nets = crate::decompose::decompose_spec(lo as int, hi as int);
    let rr = row_records(row);
    crate::decompose::lemma_decompose_covers(lo, hi);
    assert(rr.len() == nets.len());
    assert(forall|i: int| 0 <= i < rr.len() ==> (#[trigger] rr[i]).ip == nets[i].base
        && rr[i].prefix_len == nets[i].prefix_len && rr[i].as_number == crate::parse::u32_text_val(
        row.as_number@,
    ) && rr[i].country == row.country@ && rr[i].owner == row.owner@);
    assert(sorted_by_ip(rr)) by {
        assert forall|i: int, j: int| 0 <= i <= j < rr.len() implies rr[i].ip <= rr[j].ip by {
            if i < j {
                assert(nets[j].base > nets[i].top());
                lemma_pow2_pos((32 - nets[i].prefix_len) as nat);
            }
        }
    }
    lemma_sort_records_of_sorted(rr);
    assert(crate::decompose::covered_by(nets, addr));
    let i = choose|i: int| 0 <= i < nets.len() && (#[trigger] nets[i]).contains(addr);
    assert(floor_index(rr, addr) == i) by {
        assert forall|m: int| i < m < rr.len() implies rr[m].ip > addr by {
            assert(nets[m].base > nets[i].top());
        }
        lemma_floor_index_char(rr, addr, i);
    }
    assert(rr[i].net() == nets[i]);
}

/// Idempotent lookup: the result is a function of the store's value and
/// the queried address alone, so repeated lookups on an unmodified store
/// return the same result every time.
pub proof fn lemma_lookup_idempotent(
    s: Seq<RecordView>,
    q: u32,
    r1: Option<RecordView>,
    r2: Option<RecordView>,
)
    requires
        r1 == lookup_spec(s, q),
        r2 == lookup_spec(s, q),
    ensures
        r1 == r2,
{
}

/// Exact-match boundary: a query equal to some record's base address
/// finds a record with exactly that base address.
pub proof fn lemma_lookup_exact(s: Seq<RecordView>, q: u32, i: int)
    requires
        store_wf(s),
        0 <= i < s.len(),
        s[i].ip == q,
    ensures
        lookup_spec(s, q) matches Some(rec) && rec.ip == q,
{
    lemma_floor_index_props(s, q);
    let j = floor_index(s, q);
    assert(j >= i) by {
        if j < i {
            assert(s[i].ip > q);
        }
    }
    assert(s[j].ip >= s[i].ip);
    assert(s[j].ip == q);
    lemma_pow2_pos((32 - s[j].prefix_len) as nat);
    assert(s[j].net().contains(q));
}

/// Below-range boundary: a query below every record's base address finds
/// nothing.
pub proof fn lemma_lookup_below(s: Seq<RecordView>, q: u32)
    requires
        store_wf(s),
        s.len() == 0 || q < s[0].ip,
    ensures
        lookup_spec(s, q) is None,
{
    lemma_floor_index_props(s, q);
    let j = floor_index(s, q);
    if j >= 0 {
        assert(s[0].ip <= s[j].ip);
    }
}

/// Inserts one record just after all records with a base address at or
/// below its own, keeping the store sorted.
fn insert_sorted(store: &mut Vec<Record>, rec: Record)
    requires
        sorted_by_ip(views_of(old(store)@)),
    ensures
        views_of(final(store)@) == stable_insert(views_of(old(store)@), rec@),
        sorted_by_ip(views_of(final(store)@)),
{
    let ghost s = views_of(store@);
    let pos = floor_search(store, rec.ip);
    proof {
        lemma_floor_index_props(s, rec@.ip);
        assert(s.len() == store@.len());
    }
    store.insert(pos, rec);
    proof {
        lemma_stable_insert_at(s, rec@);
        let u = old(store)@.insert(pos as int, rec);
        assert(store@ == u);
        assert forall|k: int| 0 <= k < u.len() implies views_of(u)[k] == s.insert(
            pos as int,
            rec@,
        )[k] by {
            old(store)@.insert_ensures(pos as int, rec);
            s.insert_ensures(pos as int, rec@);
            assert(views_of(u)[k] == u[k]@);
            if k < pos {
                assert(u[k] == old(store)@[k]);
                assert(views_of(old(store)@)[k] == old(store)@[k]@);
            } else if k == pos {
                assert(u[k] == rec);
            } else {
                assert(u[k] == old(store)@[k - 1]);
                assert(views_of(old(store)@)[k - 1] == old(store)@[k - 1]@);
            }
        }
        assert(views_of(u) =~= s.insert(pos as int, rec@));
        lemma_stable_insert_sorted(s, rec@);
    }
}

/// The row result passes the pipeline.
pub open spec fn res_ok(r: Result<Row, Vec<u8>>) -> bool {
    match r {
        Ok(row) => row_ok(row),
        Err(_) => false,
    }
}

/// The error a failing row result is reported with.
pub open spec fn res_error(r: Result<Row, Vec<u8>>) -> TsvParseErrorView {
    match r {
        Ok(row) => row_error(row),
        Err(m) => TsvParseErrorView::Tsv(m@),
    }
}

/// The records a row result contributes.
pub open spec fn res_records(r: Result<Row, Vec<u8>>) -> Seq<RecordView> {
    match r {
        Ok(row) => row_records(row),
        Err(_) => Seq::empty(),
    }
}

/// Every row of the source passes the pipeline.
pub open spec fn rows_all_ok(rows: Seq<Result<Row, Vec<u8>>>) -> bool {
    forall|i: int| 0 <= i < rows.len() ==> res_ok(#[trigger] rows[i])
}

/// All records the source contributes, in source order.
pub open spec fn source_records(rows: Seq<Result<Row, Vec<u8>>>) -> Seq<RecordView>
    decreases rows.len(),
{
    if rows.len() == 0 {
        Seq::empty()
    } else {
        source_records(rows.drop_last()) + res_records(rows.last())
    }
}

impl Db {
    /// The database's well-formedness: sorted by base address, prefix
    /// lengths within an address.
    pub open spec fn wf(&self) -> bool {
        store_wf(self@)
    }

    /// The records, in lookup order.
    pub fn records(&self) -> (r: &Vec<Record>)
        ensures
            views_of(r@) == self@,
    {
        &self.0
    }

    /// Performs lookup by an IP address (host byte order) for the record
    /// of the network this address belongs to: the record with the
    /// greatest base address at or below the query, if the query lies
    /// within its network.
    pub fn lookup(&self, ip: u32) -> (r: Option<&Record>)
        requires
            self.wf(),
        ensures
            match r {
                Some(rec) => lookup_spec(self@, ip) == Some(rec@),
                None => lookup_spec(self@, ip) is None,
            },
    {
        let idx = floor_search(&self.0, ip);
        proof {
            lemma_floor_index_props(self@, ip);
        }
        if idx == 0 {
            return None;
        }
        let rec = &self.0[idx - 1];
        proof {
            assert(rec@ == self@[idx - 1]);
            assert(rec@.prefix_len <= 32);
        }
        let shift = 32 - rec.prefix_len;
        let size = pow2_u64(shift as u64);
        proof {
            assert(net_size(rec@.prefix_len) == pow2(shift as nat));
            lemma_pow2_pos(shift as nat);
        }
        if (ip - rec.ip) as u64 <= size - 1 {
            Some(rec)
        } else {
            None
        }
    }

    /// Builds a database from tabular rows: filters unassigned rows,
    /// parses the rest, decomposes each range, and sorts all records by
    /// base address (stably, so of records sharing a base address the one
    /// from the last-processed row ends up effective).  The first failing
    /// row aborts the whole build.
    pub fn form_tsv(rows: Vec<Result<Row, Vec<u8>>>) -> (r: Result<Db, DbError>)
        ensures
            r is Ok <==> rows_all_ok(rows@),
            r matches Ok(db) ==> db.wf() && recs_valid(db@) && db@ == sort_records(
                source_records(rows@),
            ),
            r matches Err(e) ==> exists|k: int|
                0 <= k < rows@.len() && !res_ok(#[trigger] rows@[k]) && (forall|j: int|
                    0 <= j < k ==> res_ok(#[trigger] rows@[j])) && e@ == DbErrorView::Tsv(
                    res_error(rows@[k]),
                ),
    {
        let n = rows.len();
        let mut store: Vec<Record> = Vec::new();
        proof {
            assert(rows@.take(0) =~= Seq::<Result<Row, Vec<u8>>>::empty());
            assert(source_records(rows@.take(0)) == Seq::<RecordView>::empty());
            assert(sort_records(source_records(rows@.take(0))) == Seq::<RecordView>::empty());
            assert(views_of(store@) =~= Seq::<RecordView>::empty());
        }
        let mut i: usize = 0;
        while i < n
            invariant
                i <= n == rows@.len(),
                forall|j: int| 0 <= j < i ==> res_ok(#[trigger] rows@[j]),
                views_of(store@) == sort_records(source_records(rows@.take(i as int))),
                sorted_by_ip(views_of(store@)),
            decreases n - i,
        {
            let ghost prefix = source_records(rows@.take(i as int));
            match &rows[i] {
                Err(m) => {
                    return Err(DbError::TsvError(TsvParseError::TsvError(clone_bytes(m))));
                },
                Ok(row) => {
                    match parse_row(row) {
                        Err(e) => {
                            return Err(DbError::TsvError(e));
                        },
                        Ok(mut recs) => {
                            let ghost rowrecs = row_records(*row);
                            let ghost total = recs@.len();
                            let mut c: usize = 0;
                            proof {
                                assert(views_of(recs@) == rowrecs);
                                assert(views_of(recs@).len() == recs@.len());
                                assert(recs.len() == recs@.len());
                                assert(total <= usize::MAX);
                                assert(rowrecs.len() == total);
                                assert(prefix + rowrecs.take(0) =~= prefix);
                            }
                            while recs.len() > 0
                                invariant
                                    c + recs@.len() == total,
                                    total <= usize::MAX,
                                    views_of(recs@) == rowrecs.skip(c as int),
                                    rowrecs.len() == total,
                                    views_of(store@) == sort_records(prefix + rowrecs.take(
                                        c as int,
                                    )),
                                    sorted_by_ip(views_of(store@)),
                                decreases recs@.len(),
                            {
                                let ghost prerecs = recs@;
                                let rec = recs.remove(0);
                                proof {
                                    assert(views_of(prerecs)[0] == prerecs[0]@);
                                    assert(rec@ == rowrecs.skip(c as int)[0]);
                                    assert(rec@ == rowrecs[c as int]);
                                    assert(recs@ == prerecs.remove(0));
                                    assert forall|k: int| 0 <= k < recs@.len() implies views_of(
                                        recs@,
                                    )[k] == rowrecs.skip(c + 1)[k] by {
                                        assert(views_of(recs@)[k] == recs@[k]@);
                                        assert(prerecs.remove(0)[k] == prerecs[k + 1]);
                                        assert(views_of(prerecs)[k + 1] == prerecs[k + 1]@);
                                        assert(views_of(prerecs)[k + 1] == rowrecs.skip(
                                            c as int,
                                        )[k + 1]);
                                    }
                                    assert(views_of(recs@) =~= rowrecs.skip(c + 1));
                                }
                                insert_sorted(&mut store, rec);
                                proof {
                                    let z = prefix + rowrecs.take(c + 1);
                                    assert(z.drop_last() =~= prefix + rowrecs.take(c as int));
                                    assert(z.last() == rowrecs[c as int]);
                                    assert(sort_records(z) == stable_insert(
                                        sort_records(prefix + rowrecs.take(c as int)),
                                        rowrecs[c as int],
                                    ));
                                }
                                c = c + 1;
                            }
                            proof {
                                assert(rowrecs.take(total as int) =~= rowrecs);
                            }
                        },
                    }
                },
            }
            proof {
                assert(rows@.take(i + 1).drop_last() =~= rows@.take(i as int));
                assert(rows@.take(i + 1).last() == rows@[i as int]);
                assert(source_records(rows@.take(i + 1)) == prefix + res_records(
                    rows@[i as int],
                ));
                assert(views_of(store@) == sort_records(source_records(rows@.take(i + 1))));
            }
            i = i + 1;
        }
        proof {
            assert(rows@.take(n as int) =~= rows@);
            lemma_store_wf(source_records(rows@), rows@);
            vstd::std_specs::vec::axiom_spec_len(&store);
            lemma_vec_records_valid(store@, views_of(store@));
        }
        Ok(Db(store))
    }

    /// Serializes the database as a cache image for fast reloading.
    pub fn store(&self) -> (out: Vec<u8>)
        ensures
            out@ == enc_store(self@),
    {
        codec::encode(&self.0)
    }

    /// Loads a database from a cache image written by [`Db::store`].
    ///
    /// The load is strictly fail-fast: a wrong tag or version fails
    /// before any record is decoded, and any malformed payload (a
    /// truncated field, records out of order, or bytes left over after
    /// the announced records) aborts the whole load — no partial
    /// database is ever returned.  A complete well-formed image is
    /// always accepted, and acceptance pins the image down: the bytes
    /// are exactly the encoding of the returned database.
    pub fn load(data: &Vec<u8>) -> (r: Result<Db, DbError>)
        ensures
            r is Ok <==> store_bytes_ok(data@),
            r matches Ok(db) ==> db.wf() && recs_valid(db@) && data@ == enc_store(db@),
            data@.len() >= 4 && data@.subrange(0, 4) != codec::tag_bytes() ==> (r matches Err(e)
                && e@ == DbErrorView::Data("bad database data tag"@)),
            data@.len() >= 8 && data@.subrange(0, 4) == codec::tag_bytes() && data@.subrange(4, 8)
                != codec::version_bytes() ==> (r matches Err(e) && e@ == DbErrorView::Data(
                "unsupported database version"@,
            )),
    {
        let n = data.len();
        if n < 4 {
            proof {
                lemma_not_store_bytes_short(data@);
            }
            return Err(DbError::DecodeError("reading database tag"));
        }
        if data[0] != 65 || data[1] != 83 || data[2] != 68 || data[3] != 66 {
            proof {
                assert(data@.subrange(0, 4) != codec::tag_bytes());
                assert forall|recs: Seq<RecordView>|
                    !(data@ == #[trigger] enc_store(recs) && recs_valid(recs)) by {
                    codec::lemma_enc_store_parts(recs);
                }
            }
            return Err(DbError::DbDataError("bad database data tag"));
        }
        proof {
            assert(data@.subrange(0, 4) =~= codec::tag_bytes());
        }
        if n < 8 {
            proof {
                lemma_not_store_bytes_short(data@);
            }
            return Err(DbError::DecodeError("reading database version"));
        }
        if data[4] != 98 || data[5] != 105 || data[6] != 110 || data[7] != 49 {
            proof {
                assert(data@.subrange(4, 8) != codec::version_bytes());
                assert forall|recs: Seq<RecordView>|
                    !(data@ == #[trigger] enc_store(recs) && recs_valid(recs)) by {
                    codec::lemma_enc_store_parts(recs);
                }
            }
            return Err(DbError::DbDataError("unsupported database version"));
        }
        proof {
            assert(data@.subrange(4, 8) =~= codec::version_bytes());
        }
        if n < 16 {
            proof {
                lemma_not_store_bytes_short(data@);
            }
            return Err(DbError::DecodeError("reading record count"));
        }
        let count = codec::read_le(data, 8, 8);
        let mut recs: Vec<Record> = Vec::new();
        let mut pos: usize = 16;
        let mut i: u64 = 0;
        proof {
            assert(data@.subrange(16, 16) =~= Seq::<u8>::empty());
            assert(views_of(recs@) =~= Seq::<RecordView>::empty());
            assert(enc_records(views_of(recs@)) == Seq::<u8>::empty());
        }
        while i < count
            invariant
                16 <= pos <= n == data@.len(),
                i <= count,
                count == le_val(data@.subrange(8, 16)),
                data@.subrange(0, 4) == codec::tag_bytes(),
                data@.subrange(4, 8) == codec::version_bytes(),
                views_of(recs@).len() == i,
                data@.subrange(16, pos as int) == enc_records(views_of(recs@)),
                sorted_by_ip(views_of(recs@)),
                forall|k: int|
                    0 <= k < views_of(recs@).len() ==> (#[trigger] views_of(recs@)[k]).prefix_len
                        <= 32 && views_of(recs@)[k].country.len() <= u64::MAX && views_of(
                        recs@,
                    )[k].owner.len() <= u64::MAX,
            decreases count - i,
        {
            let ghost cur = views_of(recs@);
            match codec::decode_record(data, pos) {
                None => {
                    proof {
                        assert(!store_bytes_ok(data@)) by {
                            if store_bytes_ok(data@) {
                                let recs0 = choose|recs0: Seq<RecordView>|
                                    data@ == #[trigger] enc_store(recs0) && recs_valid(recs0);
                                lemma_load_count(data@, recs0, count);
                                lemma_load_state(data@, recs0, cur, pos as int, i as int);
                            }
                        }
                    }
                    return Err(DbError::DecodeError("decoding record"));
                },
                Some(pair) => {
                    let (rec, np) = pair;
                    let mut out_of_order = false;
                    if recs.len() > 0 {
                        let last_ip = recs[recs.len() - 1].ip;
                        if last_ip > rec.ip {
                            out_of_order = true;
                        }
                    }
                    if out_of_order {
                        proof {
                            assert(cur.len() > 0 && cur.last().ip > rec@.ip);
                            assert(!store_bytes_ok(data@)) by {
                                if store_bytes_ok(data@) {
                                    let recs0 = choose|recs0: Seq<RecordView>|
                                        data@ == #[trigger] enc_store(recs0) && recs_valid(recs0);
                                    lemma_load_count(data@, recs0, count);
                                    lemma_load_state(data@, recs0, cur, pos as int, i as int);
                                    assert(enc_record(rec@).is_prefix_of(
                                        data@.skip(pos as int),
                                    )) by {
                                        assert(enc_record(rec@) =~= data@.skip(
                                            pos as int,
                                        ).subrange(0, np - pos));
                                    }
                                    codec::lemma_enc_record_prefix_unique(
                                        rec@,
                                        recs0[i as int],
                                        data@.skip(pos as int),
                                    );
                                    assert(cur.last() == recs0[i - 1]);
                                    assert(recs0[i - 1].ip <= recs0[i as int].ip);
                                }
                            }
                        }
                        return Err(DbError::DecodeError("records out of order"));
                    }
                    proof {
                        codec::lemma_enc_record_parts(rec@);
                        assert(enc_record(rec@).len() == np - pos);
                        let newcur = cur.push(rec@);
                        codec::lemma_enc_records_snoc(cur, rec@);
                        assert(data@.subrange(16, np as int) =~= data@.subrange(16, pos as int)
                            + data@.subrange(pos as int, np as int));
                        assert forall|a: int, b: int| 0 <= a <= b < newcur.len() implies newcur[
                            a
                        ].ip <= newcur[b].ip by {
                            if b < cur.len() {
                                assert(newcur[a] == cur[a] && newcur[b] == cur[b]);
                            } else if a < cur.len() {
                                assert(newcur[a] == cur[a]);
                                assert(cur[a].ip <= cur.last().ip);
                            }
                        }
                    }
                    let ghost pre = recs@;
                    recs.push(rec);
                    proof {
                        assert(recs@ == pre.push(rec));
                        assert forall|k: int| 0 <= k < recs@.len() implies views_of(recs@)[k]
                            == cur.push(rec@)[k] by {
                            assert(views_of(recs@)[k] == recs@[k]@);
                            if k < pre.len() {
                                assert(pre.push(rec)[k] == pre[k]);
                                assert(views_of(pre)[k] == pre[k]@);
                            } else {
                                assert(pre.push(rec)[k] == rec);
                            }
                        }
                        assert(views_of(recs@) =~= cur.push(rec@));
                    }
                    pos = np;
                },
            }
            i = i + 1;
        }
        if pos != n {
            proof {
                assert(!store_bytes_ok(data@)) by {
                    if store_bytes_ok(data@) {
                        let recs0 = choose|recs0: Seq<RecordView>|
                            data@ == #[trigger] enc_store(recs0) && recs_valid(recs0);
                        lemma_load_count(data@, recs0, count);
                        lemma_load_state(
                            data@,
                            recs0,
                            views_of(recs@),
                            pos as int,
                            i as int,
                        );
                    }
                }
            }
            return Err(DbError::DecodeError("trailing bytes after records"));
        }
        proof {
            let views = views_of(recs@);
            codec::lemma_le_bytes_of_val(data@.subrange(8, 16));
            assert(data@.subrange(8, 16) == le_bytes(count as nat, 8));
            assert(count == views.len());
            assert(data@ =~= data@.subrange(0, 4) + data@.subrange(4, 8) + data@.subrange(8, 16)
                + data@.subrange(16, n as int));
            assert(data@ == enc_store(views));
            assert(recs_valid(views));
            assert(store_bytes_ok(data@));
        }
        Ok(Db(recs))
    }
}

/// An image shorter than its fixed header is no cache image.
proof fn lemma_not_store_bytes_short(data: Seq<u8>)
    requires
        data.len() < 16,
    ensures
        !store_bytes_ok(data),
{
    assert forall|recs: Seq<RecordView>|
        !(data == #[trigger] enc_store(recs) && recs_valid(recs)) by {
        codec::lemma_enc_store_parts(recs);
    }
}

/// The count field of a well-formed image is its record count.
proof fn lemma_load_count(data: Seq<u8>, recs0: Seq<RecordView>, count: u64)
    requires
        data == enc_store(recs0),
        recs_valid(recs0),
        data.len() >= 16,
        count == le_val(data.subrange(8, 16)),
    ensures
        count == recs0.len(),
{
    codec::lemma_enc_store_parts(recs0);
    assert(vstd::arithmetic::power2::pow2(64) == 0x10000000000000000) by {
        vstd::arithmetic::power2::lemma2_to64_rest();
    }
    codec::lemma_le_bytes_val(recs0.len(), 8);
}

/// Mid-load invariant against a well-formed image: the records read so
/// far are exactly the image's first records, and the next record's
/// encoding (when one is left) starts at the current position.
proof fn lemma_load_state(
    data: Seq<u8>,
    recs0: Seq<RecordView>,
    cur: Seq<RecordView>,
    pos: int,
    i: int,
)
    requires
        data == enc_store(recs0),
        recs_valid(recs0),
        0 <= i <= recs0.len(),
        cur.len() == i,
        16 <= pos <= data.len(),
        data.subrange(16, pos) == enc_records(cur),
        codec::recs_sized(cur),
    ensures
        cur == recs0.take(i),
        i < recs0.len() ==> enc_record(recs0[i]).is_prefix_of(data.skip(pos)) && recs0[
            i
        ].prefix_len <= 32 && recs0[i].country.len() <= u64::MAX && recs0[i].owner.len()
            <= u64::MAX,
        i == recs0.len() ==> pos == data.len(),
{
    codec::lemma_enc_store_parts(recs0);
    codec::lemma_enc_records_split(recs0, i);
    let x = data.skip(16);
    assert(x == enc_records(recs0));
    assert(enc_records(cur).is_prefix_of(x)) by {
        assert(enc_records(cur) =~= x.subrange(0, pos - 16));
    }
    assert(enc_records(recs0.take(i)).is_prefix_of(x)) by {
        codec::lemma_concat_prefix(x, enc_records(recs0.take(i)), enc_records(recs0.skip(i)));
        assert((enc_records(recs0.take(i)) + enc_records(recs0.skip(i))).is_prefix_of(x)) by {
            assert(enc_records(recs0.take(i)) + enc_records(recs0.skip(i)) =~= x.subrange(
                0,
                x.len() as int,
            ));
        }
    }
    assert(codec::recs_sized(recs0.take(i))) by {
        assert(forall|m: int| 0 <= m < i ==> recs0.take(i)[m] == recs0[m]);
    }
    codec::lemma_enc_records_prefix_unique(cur, recs0.take(i), x);
    assert(pos - 16 == enc_records(recs0.take(i)).len());
    assert(data.skip(pos) =~= enc_records(recs0.skip(i))) by {
        assert(x =~= enc_records(recs0.take(i)) + enc_records(recs0.skip(i)));
    }
    if i < recs0.len() {
        let rest = recs0.skip(i);
        assert(rest[0] == recs0[i]);
        assert(rest.drop_first() =~= recs0.skip(i + 1));
        assert(enc_records(rest) == enc_record(recs0[i]) + enc_records(recs0.skip(i + 1)));
        codec::lemma_concat_prefix(
            data.skip(pos),
            enc_record(recs0[i]),
            enc_records(recs0.skip(i + 1)),
        );
        assert(enc_record(recs0[i]).is_prefix_of(data.skip(pos)));
    } else {
        assert(recs0.skip(i) =~= Seq::<RecordView>::empty());
        assert(enc_records(recs0.skip(i)) == Seq::<u8>::empty());
    }
}

/// Records held in an executable vector always fit the codec's 64-bit
/// count and length fields.
proof fn lemma_vec_records_valid(s: Seq<Record>, views: Seq<RecordView>)
    requires
        views == views_of(s),
        sorted_by_ip(views),
        forall|i: int| 0 <= i < views.len() ==> (#[trigger] views[i]).prefix_len <= 32,
        s.len() <= usize::MAX,
    ensures
        recs_valid(views),
{
    assert forall|k: int|
        0 <= k < views.len() implies (#[trigger] views[k]).prefix_len <= 32 && views[
        k
    ].country.len() <= u64::MAX && views[k].owner.len() <= u64::MAX by {
        assert(views[k] == s[k]@);
        vstd::std_specs::vec::axiom_spec_len(&s[k].country);
        vstd::std_specs::vec::axiom_spec_len(&s[k].owner);
    }
}

/// The built store is well formed: sorted, with every prefix length in
/// the decomposer's range.
proof fn lemma_store_wf(src: Seq<RecordView>, rows: Seq<Result<Row, Vec<u8>>>)
    requires
        src == source_records(rows),
    ensures
        store_wf(sort_records(src)),
    decreases rows.len(),
{
    lemma_sort_records_sorted(src);
    lemma_source_records_plen(rows);
    assert forall|i: int| 0 <= i < sort_records(src).len() implies (#[trigger] sort_records(
        src,
    )[i]).prefix_len <= 32 by {
        let x = sort_records(src)[i];
        assert(sort_records(src).contains(x));
        lemma_sort_records_contains(src, x);
        let w = choose|w: int| 0 <= w < src.len() && src[w] == x;
        assert(8 <= src[w].prefix_len <= 32);
    }
}

/// Every source record's prefix length is in the decomposer's range.
proof fn lemma_source_records_plen(rows: Seq<Result<Row, Vec<u8>>>)
    ensures
        forall|i: int|
            0 <= i < source_records(rows).len() ==> 8 <= (#[trigger] source_records(
                rows,
            )[i]).prefix_len <= 32,
    decreases rows.len(),
{
    if rows.len() > 0 {
        lemma_source_records_plen(rows.drop_last());
        let pre = source_records(rows.drop_last());
        let last = res_records(rows.last());
        assert(forall|i: int|
            0 <= i < last.len() ==> 8 <= (#[trigger] last[i]).prefix_len <= 32) by {
            match rows.last() {
                Ok(row) => {
                    lemma_row_records_plen(row);
                },
                Err(_) => {},
            }
        }
        assert forall|i: int| 0 <= i < source_records(rows).len() implies 8 <= (
        #[trigger] source_records(rows)[i]).prefix_len <= 32 by {
            if i < pre.len() {
                assert(source_records(rows)[i] == pre[i]);
            } else {
                assert(source_records(rows)[i] == last[i - pre.len()]);
            }
        }
    }
}

} // verus!

