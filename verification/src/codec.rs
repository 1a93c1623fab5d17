//! The binary cache encoding of a record sequence.
//!
//! Layout, fixed for interoperability with previously written caches:
//! a 4-byte magic tag `ASDB`, a 4-byte format version `bin1`, then the
//! records: their count as a little-endian 64-bit integer, and each record
//! as base address (4 bytes little endian), prefix length (1 byte), AS
//! number (4 bytes little endian), then country and owner each as a
//! little-endian 64-bit byte count followed by that many bytes.

use vstd::prelude::*;
use vstd::arithmetic::power2::{pow2, lemma_pow2_adds, lemma_pow2_pos, lemma2_to64, lemma2_to64_rest};
use vstd::arithmetic::div_mod::{
    lemma_div_denominator, lemma_fundamental_div_mod, lemma_fundamental_div_mod_converse,
};
use crate::record::{Record, RecordView, views_of, sorted_by_ip};

verus! {

/// The 4-byte magic tag, `ASDB` in ASCII.
pub open spec fn tag_bytes() -> Seq<u8> {
    seq![65u8, 83u8, 68u8, 66u8]
}

/// The 4-byte format version, `bin1` in ASCII.
pub open spec fn version_bytes() -> Seq<u8> {
    seq![98u8, 105u8, 110u8, 49u8]
}

/// The little-endian bytes of `v`, `n` bytes wide.
pub open spec fn le_bytes(v: nat, n: nat) -> Seq<u8> {
    Seq::new(n, |i: int| ((v / pow2((8 * i) as nat)) % 256) as u8)
}

/// The number denoted by little-endian bytes.
pub open spec fn le_val(s: Seq<u8>) -> nat
    decreases s.len(),
{
    if s.len() == 0 {
        0
    } else {
        (s[0] + 256 * le_val(s.drop_first())) as nat
    }
}

/// The encoding of one record.
pub open spec fn enc_record(r: RecordView) -> Seq<u8> {
    le_bytes(r.ip as nat, 4) + seq![r.prefix_len] + le_bytes(r.as_number as nat, 4)
        + le_bytes(r.country.len(), 8) + r.country + le_bytes(r.owner.len(), 8) + r.owner
}

/// The concatenated encodings of a record sequence.
pub open spec fn enc_records(s: Seq<RecordView>) -> Seq<u8>
    decreases s.len(),
{
    if s.len() == 0 {
        Seq::empty()
    } else {
        enc_record(s[0]) + enc_records(s.drop_first())
    }
}

/// The encoding of a whole store: tag, version, record count, records.
pub open spec fn enc_store(s: Seq<RecordView>) -> Seq<u8> {
    tag_bytes() + version_bytes() + le_bytes(s.len(), 8) + enc_records(s)
}

/// The record sequences that the codec produces and accepts: prefix
/// lengths within an address, sorted by base address, and sizes that the
/// 64-bit count and length fields can carry.
pub open spec fn recs_valid(s: Seq<RecordView>) -> bool {
    &&& forall|i: int|
        0 <= i < s.len() ==> (#[trigger] s[i]).prefix_len <= 32 && s[i].country.len()
            <= u64::MAX && s[i].owner.len() <= u64::MAX
    &&& sorted_by_ip(s)
    &&& s.len() <= u64::MAX
}

/// `data` is a complete well-formed cache image.
pub open spec fn store_bytes_ok(data: Seq<u8>) -> bool {
    exists|recs: Seq<RecordView>| data == #[trigger] enc_store(recs) && recs_valid(recs)
}

/// `le_val` stays below `pow2(8 * len)`.
pub proof fn lemma_le_val_bound(s: Seq<u8>)
    ensures
        le_val(s) < pow2((8 * s.len()) as nat),
    decreases s.len(),
{
    if s.len() == 0 {
        assert(pow2(0) == 1) by { lemma2_to64(); }
    } else {
        lemma_le_val_bound(s.drop_first());
        lemma_pow2_adds(8, (8 * (s.len() - 1)) as nat);
        assert(pow2(8) == 256) by { lemma2_to64(); }
    }
}

/// Shifting the value right by one byte drops the first encoded byte.
proof fn lemma_le_bytes_shift(v: nat, n: nat)
    requires
        n >= 1,
    ensures
        le_bytes(v, n).drop_first() =~= le_bytes(v / 256, (n - 1) as nat),
{
    assert forall|i: int| 0 <= i < n - 1 implies le_bytes(v, n).drop_first()[i] == le_bytes(
        v / 256,
        (n - 1) as nat,
    )[i] by {
        assert(le_bytes(v, n).drop_first()[i] == le_bytes(v, n)[i + 1]);
        lemma_pow2_adds(8, (8 * i) as nat);
        assert(pow2(8) == 256) by { lemma2_to64(); }
        lemma_pow2_pos((8 * i) as nat);
        lemma_div_denominator(v as int, 256, pow2((8 * i) as nat) as int);
        assert((8 * (i + 1)) as nat == (8 + 8 * i) as nat);
    }
}

/// Round trip: the bytes of `v` denote `v` again.
pub proof fn lemma_le_bytes_val(v: nat, n: nat)
    requires
        v < pow2((8 * n) as nat),
    ensures
        le_val(le_bytes(v, n)) == v,
    decreases n,
{
    if n == 0 {
        assert(pow2(0) == 1) by { lemma2_to64(); }
        assert(le_bytes(v, 0).len() == 0);
    } else {
        lemma_le_bytes_shift(v, n);
        lemma_pow2_adds(8, (8 * (n - 1)) as nat);
        assert(pow2(8) == 256) by { lemma2_to64(); }
        lemma_pow2_pos((8 * (n - 1)) as nat);
        // v / 256 < pow2(8 * (n - 1))
        assert(v / 256 < pow2((8 * (n - 1)) as nat)) by {
            let m = pow2((8 * (n - 1)) as nat) as int;
            assert(v < 256 * m);
            lemma_div_denominator(v as int, 256, m);
            // (v / 256) / m == v / (256 * m) == 0
            vstd::arithmetic::div_mod::lemma_basic_div(v as int, 256 * m);
            if v / 256 >= m {
                vstd::arithmetic::div_mod::lemma_div_non_zero(v as int / 256, m);
                assert((v as int / 256) / m >= 1);
            }
        }
        lemma_le_bytes_val(v / 256, (n - 1) as nat);
        assert(le_bytes(v, n)[0] == ((v / pow2(0)) % 256) as u8);
        assert(pow2(0) == 1) by { lemma2_to64(); }
        assert(v as int / 1 == v) by {
            vstd::arithmetic::div_mod::lemma_div_basics(v as int);
        }
        assert(le_bytes(v, n)[0] == (v % 256) as u8);
        lemma_fundamental_div_mod(v as int, 256);
        assert(le_val(le_bytes(v, n)) == (v % 256) + 256 * (v / 256));
    }
}

/// Round trip the other way: `le_val`'s bytes are the original bytes.
pub proof fn lemma_le_bytes_of_val(s: Seq<u8>)
    ensures
        le_bytes(le_val(s), s.len()) =~= s,
    decreases s.len(),
{
    if s.len() > 0 {
        let v = le_val(s);
        let t = s.drop_first();
        lemma_le_bytes_of_val(t);
        assert(v == s[0] + 256 * le_val(t));
        lemma_fundamental_div_mod_converse(v as int, 256, le_val(t) as int, s[0] as int);
        assert(v % 256 == s[0] && v / 256 == le_val(t));
        assert(pow2(0) == 1) by { lemma2_to64(); }
        assert(v as int / 1 == v) by {
            vstd::arithmetic::div_mod::lemma_div_basics(v as int);
        }
        assert(le_bytes(v, s.len())[0] == ((v / pow2(0)) % 256) as u8);
        assert(le_bytes(v, s.len())[0] == (v % 256) as u8);
        lemma_le_bytes_shift(v, s.len());
        assert(le_bytes(v, s.len()).drop_first() =~= le_bytes(le_val(t), t.len()));
        assert forall|i: int| 0 <= i < s.len() implies le_bytes(v, s.len())[i] == s[i] by {
            if i > 0 {
                assert(le_bytes(v, s.len())[i] == le_bytes(v, s.len()).drop_first()[i - 1]);
            }
        }
    }
}

/// Appends the `width` little-endian bytes of `v`.
fn push_le(out: &mut Vec<u8>, v: u64, width: usize)
    requires
        width <= 8,
    ensures
        final(out)@ == old(out)@ + le_bytes(v as nat, width as nat),
{
    let ghost base = out@;
    let mut i: usize = 0;
    let mut w: u64 = v;
    proof {
        assert(pow2(0) == 1) by { lemma2_to64(); }
        assert(v as int / 1 == v) by {
            vstd::arithmetic::div_mod::lemma_div_basics(v as int);
        }
        assert(out@ =~= base + le_bytes(v as nat, 0));
    }
    while i < width
        invariant
            i <= width <= 8,
            w == v as nat / pow2((8 * i) as nat),
            out@ == base + le_bytes(v as nat, i as nat),
        decreases width - i,
    {
        out.push((w % 256) as u8);
        proof {
            assert((w % 256) as u8 == le_bytes(v as nat, (i + 1) as nat)[i as int]);
            assert(out@ =~= base + le_bytes(v as nat, (i + 1) as nat));
            lemma_pow2_adds((8 * i) as nat, 8);
            assert(pow2(8) == 256) by { lemma2_to64(); }
            lemma_pow2_pos((8 * i) as nat);
            lemma_div_denominator(v as int, pow2((8 * i) as nat) as int, 256);
            assert((8 * (i + 1)) as nat == (8 * i + 8) as nat);
        }
        w = w / 256;
        i = i + 1;
    }
}

/// Reads `width` little-endian bytes at `pos`.
pub(crate) fn read_le(data: &Vec<u8>, pos: usize, width: usize) -> (r: u64)
    requires
        width <= 8,
        pos + width <= data@.len(),
    ensures
        r == le_val(data@.subrange(pos as int, pos + width)),
{
    let n = data.len();
    let mut i: usize = 0;
    let mut acc: u64 = 0;
    proof {
        assert(pos + width <= n);
        assert(data@.subrange(pos + width, pos + width) =~= Seq::<u8>::empty());
        lemma_le_val_bound(data@.subrange(pos + width, pos + width));
    }
    while i < width
        invariant
            i <= width <= 8,
            pos + width <= n == data@.len(),
            acc == le_val(data@.subrange(pos + width - i, pos + width)),
            acc < pow2((8 * i) as nat),
        decreases width - i,
    {
        proof {
            lemma_pow2_adds((8 * i) as nat, 8);
            assert(pow2(8) == 256) by { lemma2_to64(); }
            lemma2_to64_rest();
            vstd::arithmetic::power2::lemma_pow2_strictly_increases(
                (8 * i) as nat,
                (8 * i + 8) as nat,
            );
            if 8 * i + 8 < 64 {
                vstd::arithmetic::power2::lemma_pow2_strictly_increases((8 * i + 8) as nat, 64);
            }
            let old_seg = data@.subrange(pos + width - i, pos + width);
            let seg = data@.subrange(pos + width - i - 1, pos + width);
            assert(seg.drop_first() =~= old_seg);
            assert(seg[0] == data@[pos + width - i - 1]);
        }
        acc = acc * 256 + data[pos + width - 1 - i] as u64;
        i = i + 1;
    }
    proof {
        assert(data@.subrange(pos as int, pos + width) =~= data@.subrange(
            pos + width - width,
            pos + width,
        ));
    }
    acc
}

/// Where each field lies inside one record's encoding.
pub proof fn lemma_enc_record_parts(r: RecordView)
    ensures
        ({
            let e = enc_record(r);
            let lc = r.country.len() as int;
            let lo = r.owner.len() as int;
            &&& e.len() == 25 + lc + lo
            &&& e.subrange(0, 4) == le_bytes(r.ip as nat, 4)
            &&& e[4] == r.prefix_len
            &&& e.subrange(5, 9) == le_bytes(r.as_number as nat, 4)
            &&& e.subrange(9, 17) == le_bytes(r.country.len(), 8)
            &&& e.subrange(17, 17 + lc) == r.country
            &&& e.subrange(17 + lc, 25 + lc) == le_bytes(r.owner.len(), 8)
            &&& e.subrange(25 + lc, 25 + lc + lo) == r.owner
        }),
{
    let e = enc_record(r);
    let lc = r.country.len() as int;
    let lo = r.owner.len() as int;
    assert(e.subrange(0, 4) =~= le_bytes(r.ip as nat, 4));
    assert(e.subrange(5, 9) =~= le_bytes(r.as_number as nat, 4));
    assert(e.subrange(9, 17) =~= le_bytes(r.country.len(), 8));
    assert(e.subrange(17, 17 + lc) =~= r.country);
    assert(e.subrange(17 + lc, 25 + lc) =~= le_bytes(r.owner.len(), 8));
    assert(e.subrange(25 + lc, 25 + lc + lo) =~= r.owner);
}

/// A subrange of a prefix is the same subrange of the whole.
proof fn lemma_prefix_subrange(x: Seq<u8>, y: Seq<u8>, a: int, b: int)
    requires
        y.is_prefix_of(x),
        0 <= a <= b <= y.len(),
    ensures
        x.subrange(a, b) == y.subrange(a, b),
{
    assert(x.subrange(a, b) =~= y.subrange(a, b));
}

/// Two records whose encodings both start the same byte string are the
/// same record: the encoding reads back deterministically.
pub proof fn lemma_enc_record_prefix_unique(r1: RecordView, r2: RecordView, x: Seq<u8>)
    requires
        enc_record(r1).is_prefix_of(x),
        enc_record(r2).is_prefix_of(x),
        r1.country.len() <= u64::MAX,
        r1.owner.len() <= u64::MAX,
        r2.country.len() <= u64::MAX,
        r2.owner.len() <= u64::MAX,
    ensures
        r1 == r2,
{
    lemma_enc_record_parts(r1);
    lemma_enc_record_parts(r2);
    lemma2_to64();
    lemma2_to64_rest();
    let e1 = enc_record(r1);
    let e2 = enc_record(r2);
    lemma_prefix_subrange(x, e1, 0, 4);
    lemma_prefix_subrange(x, e2, 0, 4);
    lemma_le_bytes_val(r1.ip as nat, 4);
    lemma_le_bytes_val(r2.ip as nat, 4);
    assert(r1.ip == r2.ip);
    assert(e1[4] == x[4] && e2[4] == x[4]) by {
        assert(x.subrange(0, e1.len() as int) == e1);
        assert(x.subrange(0, e2.len() as int) == e2);
        assert(x.subrange(0, e1.len() as int)[4] == x[4]);
        assert(x.subrange(0, e2.len() as int)[4] == x[4]);
    }
    assert(r1.prefix_len == r2.prefix_len);
    lemma_prefix_subrange(x, e1, 5, 9);
    lemma_prefix_subrange(x, e2, 5, 9);
    lemma_le_bytes_val(r1.as_number as nat, 4);
    lemma_le_bytes_val(r2.as_number as nat, 4);
    assert(r1.as_number == r2.as_number);
    lemma_prefix_subrange(x, e1, 9, 17);
    lemma_prefix_subrange(x, e2, 9, 17);
    lemma_le_bytes_val(r1.country.len(), 8);
    lemma_le_bytes_val(r2.country.len(), 8);
    assert(pow2(64) == 0x10000000000000000);
    assert(r1.country.len() == r2.country.len());
    let lc = r1.country.len() as int;
    lemma_prefix_subrange(x, e1, 17, 17 + lc);
    lemma_prefix_subrange(x, e2, 17, 17 + lc);
    assert(r1.country == r2.country);
    lemma_prefix_subrange(x, e1, 17 + lc, 25 + lc);
    lemma_prefix_subrange(x, e2, 17 + lc, 25 + lc);
    lemma_le_bytes_val(r1.owner.len(), 8);
    lemma_le_bytes_val(r2.owner.len(), 8);
    assert(r1.owner.len() == r2.owner.len());
    let lo = r1.owner.len() as int;
    lemma_prefix_subrange(x, e1, 25 + lc, 25 + lc + lo);
    lemma_prefix_subrange(x, e2, 25 + lc, 25 + lc + lo);
    assert(r1.owner == r2.owner);
}

/// Appending one record appends its encoding.
pub proof fn lemma_enc_records_snoc(s: Seq<RecordView>, r: RecordView)
    ensures
        enc_records(s.push(r)) == enc_records(s) + enc_record(r),
    decreases s.len(),
{
    if s.len() == 0 {
        assert(s.push(r)[0] == r);
        assert(s.push(r).drop_first() =~= Seq::<RecordView>::empty());
        assert(enc_records(Seq::<RecordView>::empty()) == Seq::<u8>::empty());
        assert(s =~= Seq::<RecordView>::empty());
        assert(enc_records(s.push(r)) == enc_record(r) + Seq::<u8>::empty());
        assert(enc_records(s.push(r)) =~= enc_records(s) + enc_record(r));
    } else {
        assert(s.push(r).drop_first() =~= s.drop_first().push(r));
        lemma_enc_records_snoc(s.drop_first(), r);
        assert(s.push(r)[0] == s[0]);
        assert(enc_records(s.push(r)) == enc_record(s[0]) + (enc_records(s.drop_first())
            + enc_record(r)));
        assert(enc_record(s[0]) + (enc_records(s.drop_first()) + enc_record(r)) =~= (enc_record(
            s[0],
        ) + enc_records(s.drop_first())) + enc_record(r));
    }
}

/// The encoding of a sequence splits at any point.
pub proof fn lemma_enc_records_split(s: Seq<RecordView>, i: int)
    requires
        0 <= i <= s.len(),
    ensures
        enc_records(s) == enc_records(s.take(i)) + enc_records(s.skip(i)),
    decreases i,
{
    if i == 0 {
        assert(s.take(0) =~= Seq::<RecordView>::empty());
        assert(s.skip(0) =~= s);
        assert(enc_records(s) =~= enc_records(s.take(0)) + enc_records(s.skip(0)));
    } else {
        let t = s.drop_first();
        lemma_enc_records_split(t, i - 1);
        assert(s.take(i)[0] == s[0]);
        assert(s.take(i).drop_first() =~= t.take(i - 1));
        assert(s.skip(i) =~= t.skip(i - 1));
        assert(enc_records(s.take(i)) == enc_record(s[0]) + enc_records(t.take(i - 1)));
        assert(enc_records(s) == enc_record(s[0]) + (enc_records(t.take(i - 1)) + enc_records(
            t.skip(i - 1),
        )));
        assert(enc_record(s[0]) + (enc_records(t.take(i - 1)) + enc_records(t.skip(i - 1))) =~= (
        enc_record(s[0]) + enc_records(t.take(i - 1))) + enc_records(t.skip(i - 1)));
    }
}

/// The per-record size bounds of `recs_valid`, alone.
pub open spec fn recs_sized(s: Seq<RecordView>) -> bool {
    forall|i: int|
        0 <= i < s.len() ==> (#[trigger] s[i]).country.len() <= u64::MAX && s[i].owner.len()
            <= u64::MAX
}

/// Splitting a prefix: both halves of a concatenated prefix are prefixes
/// in turn, the second of the remainder.
pub(crate) proof fn lemma_concat_prefix(x: Seq<u8>, y: Seq<u8>, z: Seq<u8>)
    requires
        (y + z).is_prefix_of(x),
    ensures
        y.is_prefix_of(x),
        z.is_prefix_of(x.skip(y.len() as int)),
{
    assert(forall|i: int| 0 <= i < y.len() + z.len() ==> (y + z)[i] == x[i]);
    assert(y =~= x.subrange(0, y.len() as int));
    assert(z =~= x.skip(y.len() as int).subrange(0, z.len() as int));
}

/// Two equally long record sequences whose encodings both start the same
/// byte string are the same sequence.
pub proof fn lemma_enc_records_prefix_unique(u: Seq<RecordView>, w: Seq<RecordView>, x: Seq<u8>)
    requires
        u.len() == w.len(),
        enc_records(u).is_prefix_of(x),
        enc_records(w).is_prefix_of(x),
        recs_sized(u),
        recs_sized(w),
    ensures
        u == w,
    decreases u.len(),
{
    if u.len() == 0 {
        assert(u =~= w);
    } else {
        let eu = enc_record(u[0]);
        let ew = enc_record(w[0]);
        assert(enc_records(u) == eu + enc_records(u.drop_first()));
        assert(enc_records(w) == ew + enc_records(w.drop_first()));
        lemma_concat_prefix(x, eu, enc_records(u.drop_first()));
        lemma_concat_prefix(x, ew, enc_records(w.drop_first()));
        lemma_enc_record_prefix_unique(u[0], w[0], x);
        assert(ew == eu);
        let x2 = x.skip(eu.len() as int);
        assert(recs_sized(u.drop_first())) by {
            assert(forall|i: int|
                0 <= i < u.drop_first().len() ==> u.drop_first()[i] == u[i + 1]);
        }
        assert(recs_sized(w.drop_first())) by {
            assert(forall|i: int|
                0 <= i < w.drop_first().len() ==> w.drop_first()[i] == w[i + 1]);
        }
        lemma_enc_records_prefix_unique(u.drop_first(), w.drop_first(), x2);
        assert(u =~= w) by {
            assert(forall|i: int| 1 <= i < u.len() ==> u[i] == u.drop_first()[i - 1]);
            assert(forall|i: int| 1 <= i < w.len() ==> w[i] == w.drop_first()[i - 1]);
        }
    }
}

/// Where each part of a whole store image lies.
pub proof fn lemma_enc_store_parts(s: Seq<RecordView>)
    ensures
        ({
            let e = enc_store(s);
            &&& e.len() == 16 + enc_records(s).len()
            &&& e.subrange(0, 4) == tag_bytes()
            &&& e.subrange(4, 8) == version_bytes()
            &&& e.subrange(8, 16) == le_bytes(s.len(), 8)
            &&& e.skip(16) == enc_records(s)
        }),
{
    let e = enc_store(s);
    assert(e.subrange(0, 4) =~= tag_bytes());
    assert(e.subrange(4, 8) =~= version_bytes());
    assert(e.subrange(8, 16) =~= le_bytes(s.len(), 8));
    assert(e.skip(16) =~= enc_records(s));
}

/// The encoding of a store determines the store: the codec's round trip
/// gives back the same record sequence, field for field and in order.
pub proof fn lemma_enc_store_injective(a: Seq<RecordView>, b: Seq<RecordView>)
    requires
        enc_store(a) == enc_store(b),
        a.len() <= u64::MAX,
        b.len() <= u64::MAX,
        recs_sized(a),
        recs_sized(b),
    ensures
        a == b,
{
    lemma_enc_store_parts(a);
    lemma_enc_store_parts(b);
    assert(pow2(64) == 0x10000000000000000) by {
        lemma2_to64_rest();
    }
    lemma_le_bytes_val(a.len(), 8);
    lemma_le_bytes_val(b.len(), 8);
    assert(a.len() == b.len());
    let x = enc_records(a);
    assert(enc_records(b) == enc_store(b).skip(16));
    assert(enc_records(b) == x);
    assert(x.is_prefix_of(x)) by {
        assert(x =~= x.subrange(0, x.len() as int));
    }
    lemma_enc_records_prefix_unique(a, b, x);
}

/// Round trip: the image of a valid store is itself a well-formed cache
/// image, and every valid store that shares this image is the original,
/// so decoding an encoded store yields the identical record sequence,
/// ordering and field values.
pub proof fn lemma_store_roundtrip(s: Seq<RecordView>)
    requires
        recs_valid(s),
    ensures
        store_bytes_ok(enc_store(s)),
        forall|t: Seq<RecordView>|
            #[trigger] enc_store(t) == enc_store(s) && recs_valid(t) ==> t == s,
{
    assert(enc_store(s) == enc_store(s) && recs_valid(s));
    assert forall|t: Seq<RecordView>|
        #[trigger] enc_store(t) == enc_store(s) && recs_valid(t) implies t == s by {
        if enc_store(t) == enc_store(s) && recs_valid(t) {
            lemma_enc_store_injective(t, s);
        }
    }
}

/// Copies `len` bytes starting at `at` into a fresh vector.
fn copy_range(data: &Vec<u8>, at: usize, len: usize) -> (out: Vec<u8>)
    requires
        at + len <= data@.len(),
    ensures
        out@ == data@.subrange(at as int, at + len),
{
    let n = data.len();
    let mut out: Vec<u8> = Vec::new();
    let mut i: usize = 0;
    proof {
        assert(out@ =~= data@.subrange(at as int, at as int));
    }
    while i < len
        invariant
            i <= len,
            at + len <= n == data@.len(),
            out@ == data@.subrange(at as int, at + i),
        decreases len - i,
    {
        out.push(data[at + i]);
        proof {
            assert(out@ =~= data@.subrange(at as int, at + i + 1));
        }
        i = i + 1;
    }
    out
}

/// Appends all bytes of `src`.
fn append_bytes(out: &mut Vec<u8>, src: &Vec<u8>)
    ensures
        final(out)@ == old(out)@ + src@,
{
    let ghost base = out@;
    let n = src.len();
    let mut i: usize = 0;
    proof {
        assert(out@ =~= base + src@.subrange(0, 0));
    }
    while i < n
        invariant
            i <= n == src@.len(),
            out@ == base + src@.subrange(0, i as int),
        decreases n - i,
    {
        out.push(src[i]);
        proof {
            assert(out@ =~= base + src@.subrange(0, i + 1));
        }
        i = i + 1;
    }
    proof {
        assert(src@.subrange(0, n as int) =~= src@);
    }
}

/// Serializes a record sequence as a complete cache image.
pub fn encode(records: &Vec<Record>) -> (out: Vec<u8>)
    ensures
        out@ == enc_store(views_of(records@)),
{
    let ghost views = views_of(records@);
    let mut out: Vec<u8> = Vec::new();
    out.push(65);
    out.push(83);
    out.push(68);
    out.push(66);
    out.push(98);
    out.push(105);
    out.push(110);
    out.push(49);
    let n = records.len();
    push_le(&mut out, n as u64, 8);
    proof {
        assert(views.len() == n);
        assert(views.take(0) =~= Seq::<RecordView>::empty());
        assert(enc_records(views.take(0)) == Seq::<u8>::empty());
        assert(out@ =~= tag_bytes() + version_bytes() + le_bytes(n as nat, 8) + enc_records(
            views.take(0),
        ));
    }
    let mut idx: usize = 0;
    while idx < n
        invariant
            idx <= n == records@.len(),
            views == views_of(records@),
            views.len() == n,
            out@ == tag_bytes() + version_bytes() + le_bytes(n as nat, 8) + enc_records(
                views.take(idx as int),
            ),
        decreases n - idx,
    {
        let ghost pre = out@;
        let r = &records[idx];
        push_le(&mut out, r.ip as u64, 4);
        out.push(r.prefix_len);
        push_le(&mut out, r.as_number as u64, 4);
        push_le(&mut out, r.country.len() as u64, 8);
        append_bytes(&mut out, &r.country);
        push_le(&mut out, r.owner.len() as u64, 8);
        append_bytes(&mut out, &r.owner);
        proof {
            assert(views[idx as int] == r@);
            assert(out@ =~= pre + enc_record(r@));
            lemma_enc_records_snoc(views.take(idx as int), views[idx as int]);
            assert(views.take(idx + 1) =~= views.take(idx as int).push(views[idx as int]));
            assert(out@ =~= tag_bytes() + version_bytes() + le_bytes(n as nat, 8) + enc_records(
                views.take(idx + 1),
            ));
        }
        idx = idx + 1;
    }
    proof {
        assert(views.take(n as int) =~= views);
    }
    out
}

/// Reads one record at `pos`, returning it with the position just past
/// its encoding.  The bytes consumed are exactly the record's encoding,
/// and whenever some record's encoding starts at `pos`, reading succeeds.
pub fn decode_record(data: &Vec<u8>, pos: usize) -> (r: Option<(Record, usize)>)
    requires
        pos <= data@.len(),
    ensures
        r matches Some(p) ==> pos < p.1 <= data@.len() && p.0@.prefix_len <= 32
            && data@.subrange(pos as int, p.1 as int) == enc_record(p.0@),
        (exists|rv: RecordView|
            (#[trigger] enc_record(rv)).is_prefix_of(data@.skip(pos as int)) && rv.prefix_len <= 32
                && rv.country.len() <= u64::MAX && rv.owner.len() <= u64::MAX) ==> r is Some,
{
    let ghost tail = data@.skip(pos as int);
    proof {
        assert(forall|i: int| 0 <= i < tail.len() ==> tail[i] == data@[pos + i]);
        assert(forall|a: int, b: int|
            0 <= a <= b <= tail.len() ==> tail.subrange(a, b) =~= data@.subrange(pos + a, pos + b));
    }
    let n = data.len();
    if n - pos < 25 {
        proof {
            assert forall|rv: RecordView|
                !((#[trigger] enc_record(rv)).is_prefix_of(tail) && rv.prefix_len <= 32
                    && rv.country.len() <= u64::MAX && rv.owner.len() <= u64::MAX) by {
                lemma_enc_record_parts(rv);
            }
        }
        return None;
    }
    let ip = read_le(data, pos, 4) as u32;
    let plen = data[pos + 4];
    let asn = read_le(data, pos + 5, 4) as u32;
    let clen64 = read_le(data, pos + 9, 8);
    proof {
        lemma_le_val_bound(data@.subrange(pos as int, pos + 4));
        lemma_le_val_bound(data@.subrange(pos + 5, pos + 9));
        lemma2_to64();
    }
    if plen > 32 {
        proof {
            assert forall|rv: RecordView|
                !((#[trigger] enc_record(rv)).is_prefix_of(tail) && rv.prefix_len <= 32
                    && rv.country.len() <= u64::MAX && rv.owner.len() <= u64::MAX) by {
                lemma_enc_record_parts(rv);
                if enc_record(rv).is_prefix_of(tail) && rv.prefix_len <= 32 {
                    assert(tail[4] == enc_record(rv)[4]);
                }
            }
        }
        return None;
    }
    if clen64 > (n - pos - 25) as u64 {
        proof {
            assert forall|rv: RecordView|
                !((#[trigger] enc_record(rv)).is_prefix_of(tail) && rv.prefix_len <= 32
                    && rv.country.len() <= u64::MAX && rv.owner.len() <= u64::MAX) by {
                lemma_enc_record_parts(rv);
                if enc_record(rv).is_prefix_of(tail) && rv.country.len() <= u64::MAX {
                    lemma_prefix_subrange(tail, enc_record(rv), 9, 17);
                    assert(data@.subrange(pos + 9, pos + 17) == le_bytes(rv.country.len(), 8));
                    assert(pow2(64) == 0x10000000000000000) by {
                        lemma2_to64_rest();
                    }
                    lemma_le_bytes_val(rv.country.len(), 8);
                    assert(clen64 == rv.country.len());
                    assert(enc_record(rv).len() <= tail.len());
                }
            }
        }
        return None;
    }
    let clen = clen64 as usize;
    let olen64 = read_le(data, pos + 17 + clen, 8);
    if olen64 > (n - pos - 25 - clen) as u64 {
        proof {
            assert forall|rv: RecordView|
                !((#[trigger] enc_record(rv)).is_prefix_of(tail) && rv.prefix_len <= 32
                    && rv.country.len() <= u64::MAX && rv.owner.len() <= u64::MAX) by {
                lemma_enc_record_parts(rv);
                if enc_record(rv).is_prefix_of(tail) && rv.country.len() <= u64::MAX
                    && rv.owner.len() <= u64::MAX {
                    assert(pow2(64) == 0x10000000000000000) by {
                        lemma2_to64_rest();
                    }
                    lemma_prefix_subrange(tail, enc_record(rv), 9, 17);
                    assert(data@.subrange(pos + 9, pos + 17) == le_bytes(rv.country.len(), 8));
                    lemma_le_bytes_val(rv.country.len(), 8);
                    assert(clen == rv.country.len());
                    let lc = rv.country.len() as int;
                    lemma_prefix_subrange(tail, enc_record(rv), 17 + lc, 25 + lc);
                    assert(data@.subrange(pos + 17 + lc, pos + 25 + lc) == le_bytes(
                        rv.owner.len(),
                        8,
                    ));
                    lemma_le_bytes_val(rv.owner.len(), 8);
                    assert(olen64 == rv.owner.len());
                    assert(enc_record(rv).len() <= tail.len());
                }
            }
        }
        return None;
    }
    let olen = olen64 as usize;
    let country = copy_range(data, pos + 17, clen);
    let owner = copy_range(data, pos + 25 + clen, olen);
    let np = pos + 25 + clen + olen;
    let rec = Record { ip, prefix_len: plen, as_number: asn, country, owner };
    proof {
        lemma_le_bytes_of_val(data@.subrange(pos as int, pos + 4));
        lemma_le_bytes_of_val(data@.subrange(pos + 5, pos + 9));
        lemma_le_bytes_of_val(data@.subrange(pos + 9, pos + 17));
        lemma_le_bytes_of_val(data@.subrange(pos + 17 + clen, pos + 25 + clen));
        lemma_le_val_bound(data@.subrange(pos + 9, pos + 17));
        lemma_le_val_bound(data@.subrange(pos + 17 + clen, pos + 25 + clen));
        assert(data@.subrange(pos as int, pos + 4) == le_bytes(rec@.ip as nat, 4));
        assert(data@.subrange(pos + 5, pos + 9) == le_bytes(rec@.as_number as nat, 4));
        assert(rec@.country.len() == clen && rec@.owner.len() == olen);
        assert(data@.subrange(pos + 9, pos + 17) == le_bytes(rec@.country.len(), 8));
        assert(data@.subrange(pos + 17 + clen, pos + 25 + clen) == le_bytes(rec@.owner.len(), 8));
        assert(data@.subrange(pos as int, np as int) =~= data@.subrange(pos as int, pos + 4)
            + seq![plen] + data@.subrange(pos + 5, pos + 9) + data@.subrange(pos + 9, pos + 17)
            + data@.subrange(pos + 17, pos + 17 + clen) + data@.subrange(
            pos + 17 + clen,
            pos + 25 + clen,
        ) + data@.subrange(pos + 25 + clen, pos + 25 + clen + olen));
        assert(data@.subrange(pos as int, np as int) == enc_record(rec@));
    }
    Some((rec, np))
}

} // verus!
