//! Parsing of textual row fields, on raw bytes: dotted-quad IPv4 addresses
//! and decimal unsigned 32-bit integers.
//!
//! The grammars are stated over the canonical decimal text `dec_text(n)` of
//! a number: an IPv4 address is exactly four canonical octet texts joined
//! by dots (so leading zeros are rejected), and an integer is an optional
//! `+` sign followed by decimal digits whose value fits in 32 bits (leading
//! zeros allowed).

use vstd::prelude::*;
use vstd::arithmetic::div_mod::lemma_fundamental_div_mod_converse;

verus! {

/// ASCII `.`
pub const DOT: u8 = 46;

/// ASCII `+`
pub const PLUS: u8 = 43;

/// ASCII `0`
pub const ZERO: u8 = 48;

/// ASCII decimal digit.
pub open spec fn is_digit(c: u8) -> bool {
    48 <= c <= 57
}

/// Every byte of `s` is an ASCII decimal digit.
pub open spec fn all_digits(s: Seq<u8>) -> bool {
    forall|i: int| 0 <= i < s.len() ==> is_digit(#[trigger] s[i])
}

/// The number denoted by a digit string (most significant digit first).
pub open spec fn digits_val(s: Seq<u8>) -> nat
    decreases s.len(),
{
    if s.len() == 0 {
        0
    } else {
        (digits_val(s.drop_last()) * 10 + (s.last() - 48)) as nat
    }
}

/// The canonical decimal text of a number: no sign, no leading zeros.
pub open spec fn dec_text(n: nat) -> Seq<u8>
    decreases n,
{
    if n < 10 {
        seq![(n + 48) as u8]
    } else {
        dec_text(n / 10).push((n % 10 + 48) as u8)
    }
}

/// Facts about canonical decimal text: it is a nonempty digit string
/// without a leading zero, it denotes the number it was built from, and
/// small numbers give short texts.
pub proof fn lemma_dec_text_props(n: nat)
    ensures
        dec_text(n).len() >= 1,
        all_digits(dec_text(n)),
        dec_text(n).len() > 1 ==> dec_text(n)[0] != ZERO,
        n >= 1 ==> dec_text(n)[0] != ZERO,
        digits_val(dec_text(n)) == n,
        n < 10 ==> dec_text(n).len() == 1,
        n < 100 ==> dec_text(n).len() <= 2,
        n < 1000 ==> dec_text(n).len() <= 3,
    decreases n,
{
    let s = dec_text(n);
    assert(digits_val(Seq::<u8>::empty()) == 0);
    if n < 10 {
        assert(s == seq![(n + 48) as u8]);
        assert(s.drop_last() =~= Seq::<u8>::empty());
        assert(digits_val(s) == n);
    } else {
        lemma_dec_text_props(n / 10);
        let p = dec_text(n / 10);
        assert(s == p.push((n % 10 + 48) as u8));
        assert(s.drop_last() =~= p);
        assert(s.last() == (n % 10 + 48) as u8);
        assert(digits_val(s) == digits_val(p) * 10 + n % 10);
        assert((n / 10) * 10 + n % 10 == n) by {
            vstd::arithmetic::div_mod::lemma_fundamental_div_mod(n as int, 10);
        }
        assert(forall|i: int| 0 <= i < s.len() - 1 ==> s[i] == p[i]);
        assert(s[0] == p[0]);
        assert(n / 10 >= 1);
    }
}

/// A nonempty digit string with no leading zero is the canonical text of
/// its value.
pub proof fn lemma_canonical_digits(s: Seq<u8>)
    requires
        all_digits(s),
        s.len() >= 1,
        s.len() > 1 ==> s[0] != ZERO,
    ensures
        s == dec_text(digits_val(s)),
    decreases s.len(),
{
    let v = digits_val(s);
    if s.len() == 1 {
        assert(v == s[0] - 48) by {
            assert(s.drop_last() =~= Seq::<u8>::empty());
            assert(digits_val(Seq::<u8>::empty()) == 0);
        }
        assert(dec_text(v) == seq![(v + 48) as u8]);
        assert(s =~= dec_text(v));
    } else {
        let p = s.drop_last();
        assert(p[0] == s[0]);
        assert(forall|i: int| 0 <= i < p.len() ==> p[i] == s[i]);
        lemma_canonical_digits(p);
        lemma_digits_val_pos(p);
        let q = digits_val(p);
        let r = (s.last() - 48) as int;
        assert(v == q * 10 + r);
        assert(v >= 10);
        lemma_fundamental_div_mod_converse(v as int, 10, q as int, r);
        assert(v / 10 == q && v % 10 == r);
        assert(dec_text(v) == dec_text(q).push((v % 10 + 48) as u8));
        assert((v % 10 + 48) as u8 == s.last());
        assert(dec_text(v) =~= s);
    }
}

/// A digit string that does not start with `0` denotes a positive number.
proof fn lemma_digits_val_pos(s: Seq<u8>)
    requires
        all_digits(s),
        s.len() >= 1,
        s[0] != ZERO,
    ensures
        digits_val(s) >= 1,
    decreases s.len(),
{
    if s.len() > 1 {
        let p = s.drop_last();
        assert(p[0] == s[0]);
        lemma_digits_val_pos(p);
    }
}

/// Dropping trailing digits can only shrink the denoted value.
pub proof fn lemma_digits_val_take(s: Seq<u8>, i: int)
    requires
        all_digits(s),
        0 <= i <= s.len(),
    ensures
        digits_val(s.take(i)) <= digits_val(s),
    decreases s.len() - i,
{
    if i == s.len() {
        assert(s.take(i) =~= s);
    } else {
        lemma_digits_val_take(s, i + 1);
        let t = s.take(i + 1);
        assert(t.drop_last() =~= s.take(i));
        assert(is_digit(t.last()));
        assert(digits_val(t) == digits_val(s.take(i)) * 10 + (t.last() - 48));
    }
}

/// The dotted-quad text of four octet values.
pub open spec fn ipv4_text_of(a: u8, b: u8, c: u8, d: u8) -> Seq<u8> {
    dec_text(a as nat) + seq![DOT] + dec_text(b as nat) + seq![DOT] + dec_text(c as nat)
        + seq![DOT] + dec_text(d as nat)
}

/// The address value of four octets.
pub open spec fn quad_val(a: u8, b: u8, c: u8, d: u8) -> u32 {
    (a * 0x100_0000 + b * 0x1_0000 + c * 0x100 + d) as u32
}

/// `s` is the dotted-quad text of the address `v`.
pub open spec fn is_ipv4_repr(s: Seq<u8>, v: u32) -> bool {
    exists|a: u8, b: u8, c: u8, d: u8|
        s == #[trigger] ipv4_text_of(a, b, c, d) && v == quad_val(a, b, c, d)
}

/// `s` is a well-formed dotted-quad IPv4 address text.
pub open spec fn is_ipv4_text(s: Seq<u8>) -> bool {
    exists|v: u32| is_ipv4_repr(s, v)
}

/// The address denoted by a well-formed IPv4 text.
pub open spec fn ipv4_val(s: Seq<u8>) -> u32 {
    choose|v: u32| is_ipv4_repr(s, v)
}

/// Where the dots and the four octet texts of a dotted-quad text lie.
pub proof fn lemma_ipv4_structure(s: Seq<u8>, a: u8, b: u8, c: u8, d: u8)
    requires
        s == ipv4_text_of(a, b, c, d),
    ensures
        ({
            let ta = dec_text(a as nat);
            let tb = dec_text(b as nat);
            let tc = dec_text(c as nat);
            let td = dec_text(d as nat);
            let p1 = ta.len() as int;
            let p2 = p1 + 1 + tb.len();
            let p3 = p2 + 1 + tc.len();
            &&& s.len() == p3 + 1 + td.len()
            &&& s[p1] == DOT && s[p2] == DOT && s[p3] == DOT
            &&& forall|i: int| 0 <= i < p1 ==> s[i] != DOT
            &&& forall|i: int| p1 < i < p2 ==> s[i] != DOT
            &&& forall|i: int| p2 < i < p3 ==> s[i] != DOT
            &&& forall|i: int| p3 < i < s.len() ==> s[i] != DOT
            &&& s.subrange(0, p1) == ta
            &&& s.subrange(p1 + 1, p2) == tb
            &&& s.subrange(p2 + 1, p3) == tc
            &&& s.subrange(p3 + 1, s.len() as int) == td
        }),
{
    lemma_dec_text_props(a as nat);
    lemma_dec_text_props(b as nat);
    lemma_dec_text_props(c as nat);
    lemma_dec_text_props(d as nat);
    let ta = dec_text(a as nat);
    let tb = dec_text(b as nat);
    let tc = dec_text(c as nat);
    let td = dec_text(d as nat);
    let p1 = ta.len() as int;
    let p2 = p1 + 1 + tb.len();
    let p3 = p2 + 1 + tc.len();
    assert(s.len() == p3 + 1 + td.len());
    assert(forall|i: int| 0 <= i < p1 ==> s[i] == ta[i]);
    assert(s[p1] == DOT);
    assert(forall|i: int| p1 < i < p2 ==> s[i] == tb[i - p1 - 1]);
    assert(s[p2] == DOT);
    assert(forall|i: int| p2 < i < p3 ==> s[i] == tc[i - p2 - 1]);
    assert(s[p3] == DOT);
    assert(forall|i: int| p3 < i < s.len() ==> s[i] == td[i - p3 - 1]);
    assert(s.subrange(0, p1) =~= ta);
    assert(s.subrange(p1 + 1, p2) =~= tb);
    assert(s.subrange(p2 + 1, p3) =~= tc);
    assert(s.subrange(p3 + 1, s.len() as int) =~= td);
}

/// Two octet quads with the same dotted-quad text are the same quad, so a
/// text denotes at most one address.
pub proof fn lemma_ipv4_repr_unique(s: Seq<u8>, v1: u32, v2: u32)
    requires
        is_ipv4_repr(s, v1),
        is_ipv4_repr(s, v2),
    ensures
        v1 == v2,
{
    let (a1, b1, c1, d1) = choose|a: u8, b: u8, c: u8, d: u8|
        s == #[trigger] ipv4_text_of(a, b, c, d) && v1 == quad_val(a, b, c, d);
    let (a2, b2, c2, d2) = choose|a: u8, b: u8, c: u8, d: u8|
        s == #[trigger] ipv4_text_of(a, b, c, d) && v2 == quad_val(a, b, c, d);
    lemma_ipv4_structure(s, a1, b1, c1, d1);
    lemma_ipv4_structure(s, a2, b2, c2, d2);
    lemma_dec_text_props(a1 as nat);
    lemma_dec_text_props(a2 as nat);
    lemma_dec_text_props(b1 as nat);
    lemma_dec_text_props(b2 as nat);
    lemma_dec_text_props(c1 as nat);
    lemma_dec_text_props(c2 as nat);
    lemma_dec_text_props(d1 as nat);
    lemma_dec_text_props(d2 as nat);
    let q1 = dec_text(a1 as nat).len() as int;
    let q2 = dec_text(a2 as nat).len() as int;
    assert(q1 == q2) by {
        if q1 < q2 {
            assert(s[q1] == DOT);
        } else if q2 < q1 {
            assert(s[q2] == DOT);
        }
    }
    assert(dec_text(a1 as nat) == dec_text(a2 as nat));
    assert(a1 == a2);
    let r1 = q1 + 1 + dec_text(b1 as nat).len();
    let r2 = q2 + 1 + dec_text(b2 as nat).len();
    assert(r1 == r2) by {
        if r1 < r2 {
            assert(s[r1] == DOT);
        } else if r2 < r1 {
            assert(s[r2] == DOT);
        }
    }
    assert(dec_text(b1 as nat) == dec_text(b2 as nat));
    assert(b1 == b2);
    let w1 = r1 + 1 + dec_text(c1 as nat).len();
    let w2 = r2 + 1 + dec_text(c2 as nat).len();
    assert(w1 == w2) by {
        if w1 < w2 {
            assert(s[w1] == DOT);
        } else if w2 < w1 {
            assert(s[w2] == DOT);
        }
    }
    assert(dec_text(c1 as nat) == dec_text(c2 as nat));
    assert(c1 == c2);
    assert(dec_text(d1 as nat) == dec_text(d2 as nat));
    assert(d1 == d2);
}

/// A representation pins down both well-formedness and the denoted value.
pub proof fn lemma_ipv4_val(s: Seq<u8>, v: u32)
    requires
        is_ipv4_repr(s, v),
    ensures
        is_ipv4_text(s),
        ipv4_val(s) == v,
{
    let v0 = ipv4_val(s);
    assert(is_ipv4_repr(s, v0));
    lemma_ipv4_repr_unique(s, v0, v);
}

/// Finds the first `.` at or after `from`.
fn find_dot(s: &Vec<u8>, from: usize) -> (r: Option<usize>)
    requires
        from <= s@.len(),
    ensures
        match r {
            Some(p) => from <= p < s@.len() && s@[p as int] == DOT && forall|i: int|
                from <= i < p ==> s@[i] != DOT,
            None => forall|i: int| from <= i < s@.len() ==> s@[i] != DOT,
        },
{
    let mut i = from;
    while i < s.len()
        invariant
            from <= i <= s@.len(),
            forall|j: int| from <= j < i ==> s@[j] != DOT,
        decreases s@.len() - i,
    {
        if s[i] == DOT {
            return Some(i);
        }
        i = i + 1;
    }
    None
}

/// Parses `s[lo..hi]` as a canonical octet text (a value 0..=255 written
/// with no sign and no leading zero).
fn parse_octet(s: &Vec<u8>, lo: usize, hi: usize) -> (r: Option<u8>)
    requires
        lo <= hi <= s@.len(),
    ensures
        ({
            let seg = s@.subrange(lo as int, hi as int);
            match r {
                Some(v) => seg == dec_text(v as nat),
                None => forall|v: u8| seg != dec_text(v as nat),
            }
        }),
{
    let ghost seg = s@.subrange(lo as int, hi as int);
    let n = hi - lo;
    if n == 0 || n > 3 {
        proof {
            assert forall|v: u8| seg != dec_text(v as nat) by {
                lemma_dec_text_props(v as nat);
            }
        }
        return None;
    }
    let mut i = lo;
    while i < hi
        invariant
            lo <= i <= hi <= s@.len(),
            seg == s@.subrange(lo as int, hi as int),
            forall|j: int| lo <= j < i ==> is_digit(s@[j]),
        decreases hi - i,
    {
        if s[i] < 48 || s[i] > 57 {
            proof {
                assert forall|v: u8| seg != dec_text(v as nat) by {
                    lemma_dec_text_props(v as nat);
                    if seg == dec_text(v as nat) {
                        assert(is_digit(seg[i - lo]));
                        assert(seg[i - lo] == s@[i as int]);
                    }
                }
            }
            return None;
        }
        i = i + 1;
    }
    assert(forall|j: int| 0 <= j < seg.len() ==> seg[j] == s@[lo + j] && is_digit(#[trigger] seg[j]));
    if n > 1 && s[lo] == ZERO {
        proof {
            assert forall|v: u8| seg != dec_text(v as nat) by {
                lemma_dec_text_props(v as nat);
                if seg == dec_text(v as nat) {
                    assert(seg[0] == s@[lo as int]);
                }
            }
        }
        return None;
    }
    let mut val: u32 = 0;
    let mut j = lo;
    while j < hi
        invariant
            lo <= j <= hi <= s@.len(),
            hi - lo <= 3,
            seg == s@.subrange(lo as int, hi as int),
            forall|t: int| 0 <= t < seg.len() ==> seg[t] == s@[lo + t] && is_digit(#[trigger] seg[t]),
            val == digits_val(seg.take(j - lo)),
            j - lo == 0 ==> val == 0,
            j - lo == 1 ==> val <= 9,
            j - lo == 2 ==> val <= 99,
            j - lo == 3 ==> val <= 999,
        decreases hi - j,
    {
        proof {
            let t = seg.take(j - lo + 1);
            assert(t.drop_last() =~= seg.take(j - lo));
            assert(t.last() == s@[j as int]);
        }
        val = val * 10 + (s[j] - 48) as u32;
        j = j + 1;
    }
    proof {
        assert(seg.take(hi - lo) =~= seg);
    }
    if val > 255 {
        proof {
            assert forall|v: u8| seg != dec_text(v as nat) by {
                lemma_dec_text_props(v as nat);
            }
        }
        return None;
    }
    proof {
        lemma_canonical_digits(seg);
    }
    Some(val as u8)
}

/// Parses a whole byte string as a dotted-quad IPv4 address, as
/// `is_ipv4_text` describes: exactly four canonical octet texts joined by
/// single dots.
pub fn parse_ipv4(s: &Vec<u8>) -> (r: Option<u32>)
    ensures
        r matches Some(v) ==> is_ipv4_repr(s@, v) && is_ipv4_text(s@) && v == ipv4_val(s@),
        r is None ==> !is_ipv4_text(s@),
{
    let n = s.len();
    let p1 = match find_dot(s, 0) {
        Some(p) => p,
        None => {
            proof {
                assert(!is_ipv4_text(s@)) by {
                    if is_ipv4_text(s@) {
                        let v0 = choose|v: u32| is_ipv4_repr(s@, v);
                        let (a, b, c, d) = choose|a: u8, b: u8, c: u8, d: u8|
                            s@ == #[trigger] ipv4_text_of(a, b, c, d) && v0 == quad_val(a, b, c, d);
                        lemma_ipv4_structure(s@, a, b, c, d);
                    }
                }
            }
            return None;
        },
    };
    let oa = parse_octet(s, 0, p1);
    let p2 = match find_dot(s, p1 + 1) {
        Some(p) => p,
        None => {
            proof {
                assert(!is_ipv4_text(s@)) by {
                    if is_ipv4_text(s@) {
                        let v0 = choose|v: u32| is_ipv4_repr(s@, v);
                        let (a, b, c, d) = choose|a: u8, b: u8, c: u8, d: u8|
                            s@ == #[trigger] ipv4_text_of(a, b, c, d) && v0 == quad_val(a, b, c, d);
                        lemma_ipv4_structure(s@, a, b, c, d);
                        let q1 = dec_text(a as nat).len() as int;
                        assert(p1 == q1) by {
                            if p1 < q1 {
                                assert(s@[p1 as int] == DOT);
                            } else if q1 < p1 {
                                assert(s@[q1] == DOT);
                            }
                        }
                    }
                }
            }
            return None;
        },
    };
    let ob = parse_octet(s, p1 + 1, p2);
    let p3 = match find_dot(s, p2 + 1) {
        Some(p) => p,
        None => {
            proof {
                assert(!is_ipv4_text(s@)) by {
                    if is_ipv4_text(s@) {
                        let v0 = choose|v: u32| is_ipv4_repr(s@, v);
                        let (a, b, c, d) = choose|a: u8, b: u8, c: u8, d: u8|
                            s@ == #[trigger] ipv4_text_of(a, b, c, d) && v0 == quad_val(a, b, c, d);
                        lemma_ipv4_structure(s@, a, b, c, d);
                        let q1 = dec_text(a as nat).len() as int;
                        assert(p1 == q1) by {
                            if p1 < q1 {
                                assert(s@[p1 as int] == DOT);
                            } else if q1 < p1 {
                                assert(s@[q1] == DOT);
                            }
                        }
                        let q2 = q1 + 1 + dec_text(b as nat).len();
                        assert(p2 == q2) by {
                            if p2 < q2 {
                                assert(s@[p2 as int] == DOT);
                            } else if q2 < p2 {
                                assert(s@[q2] == DOT);
                            }
                        }
                    }
                }
            }
            return None;
        },
    };
    let oc = parse_octet(s, p2 + 1, p3);
    let od = parse_octet(s, p3 + 1, n);
    proof {
        // Wherever a dotted-quad reading of `s` exists, the dots found above
        // are its separators and the four segments are its octet texts.
        if is_ipv4_text(s@) {
            let v0 = choose|v: u32| is_ipv4_repr(s@, v);
            let (a, b, c, d) = choose|a: u8, b: u8, c: u8, d: u8|
                s@ == #[trigger] ipv4_text_of(a, b, c, d) && v0 == quad_val(a, b, c, d);
            lemma_ipv4_structure(s@, a, b, c, d);
            let q1 = dec_text(a as nat).len() as int;
            assert(p1 == q1) by {
                if p1 < q1 {
                    assert(s@[p1 as int] == DOT);
                } else if q1 < p1 {
                    assert(s@[q1] == DOT);
                }
            }
            let q2 = q1 + 1 + dec_text(b as nat).len();
            assert(p2 == q2) by {
                if p2 < q2 {
                    assert(s@[p2 as int] == DOT);
                } else if q2 < p2 {
                    assert(s@[q2] == DOT);
                }
            }
            let q3 = q2 + 1 + dec_text(c as nat).len();
            assert(p3 == q3) by {
                if p3 < q3 {
                    assert(s@[p3 as int] == DOT);
                } else if q3 < p3 {
                    assert(s@[q3] == DOT);
                }
            }
            assert(s@.subrange(0, p1 as int) == dec_text(a as nat));
            assert(s@.subrange(p1 + 1, p2 as int) == dec_text(b as nat));
            assert(s@.subrange(p2 + 1, p3 as int) == dec_text(c as nat));
            assert(s@.subrange(p3 + 1, s@.len() as int) == dec_text(d as nat));
            assert(exists|x: u8| s@.subrange(0, p1 as int) == dec_text(x as nat));
            assert(exists|x: u8| s@.subrange(p1 + 1, p2 as int) == dec_text(x as nat));
            assert(exists|x: u8| s@.subrange(p2 + 1, p3 as int) == dec_text(x as nat));
            assert(exists|x: u8| s@.subrange(p3 + 1, s@.len() as int) == dec_text(x as nat));
        }
        assert(is_ipv4_text(s@) ==> exists|x: u8| s@.subrange(0, p1 as int) == dec_text(x as nat));
        assert(is_ipv4_text(s@) ==> exists|x: u8| s@.subrange(p1 + 1, p2 as int) == dec_text(
            x as nat,
        ));
        assert(is_ipv4_text(s@) ==> exists|x: u8| s@.subrange(p2 + 1, p3 as int) == dec_text(
            x as nat,
        ));
        assert(is_ipv4_text(s@) ==> exists|x: u8| s@.subrange(p3 + 1, s@.len() as int) == dec_text(
            x as nat,
        ));
    }
    let a = match oa {
        Some(v) => v,
        None => {
            proof {
                assert(!is_ipv4_text(s@)) by {
                    if is_ipv4_text(s@) {
                        let x = choose|x: u8| s@.subrange(0, p1 as int) == dec_text(x as nat);
                        assert(s@.subrange(0, p1 as int) != dec_text(x as nat));
                    }
                }
            }
            return None;
        },
    };
    let b = match ob {
        Some(v) => v,
        None => {
            proof {
                assert(!is_ipv4_text(s@)) by {
                    if is_ipv4_text(s@) {
                        let x = choose|x: u8| s@.subrange(p1 + 1, p2 as int) == dec_text(x as nat);
                        assert(s@.subrange(p1 + 1, p2 as int) != dec_text(x as nat));
                    }
                }
            }
            return None;
        },
    };
    let c = match oc {
        Some(v) => v,
        None => {
            proof {
                assert(!is_ipv4_text(s@)) by {
                    if is_ipv4_text(s@) {
                        let x = choose|x: u8| s@.subrange(p2 + 1, p3 as int) == dec_text(x as nat);
                        assert(s@.subrange(p2 + 1, p3 as int) != dec_text(x as nat));
                    }
                }
            }
            return None;
        },
    };
    let d = match od {
        Some(v) => v,
        None => {
            proof {
                assert(!is_ipv4_text(s@)) by {
                    if is_ipv4_text(s@) {
                        let x = choose|x: u8|
                            s@.subrange(p3 + 1, s@.len() as int) == dec_text(x as nat);
                        assert(s@.subrange(p3 + 1, s@.len() as int) != dec_text(x as nat));
                    }
                }
            }
            return None;
        },
    };
    let v = (a as u32) * 0x100_0000 + (b as u32) * 0x1_0000 + (c as u32) * 0x100 + (d as u32);
    proof {
        let sa = s@.subrange(0, p1 as int);
        let sb = s@.subrange(p1 + 1, p2 as int);
        let sc = s@.subrange(p2 + 1, p3 as int);
        let sd = s@.subrange(p3 + 1, s@.len() as int);
        assert(s@ =~= sa + seq![DOT] + sb + seq![DOT] + sc + seq![DOT] + sd);
        assert(s@ == ipv4_text_of(a, b, c, d));
        assert(v == quad_val(a, b, c, d));
        assert(is_ipv4_repr(s@, v));
        lemma_ipv4_val(s@, v);
    }
    Some(v)
}

/// The digit part of an integer text: everything after one optional
/// leading `+` sign.
pub open spec fn u32_core(s: Seq<u8>) -> Seq<u8> {
    if s.len() >= 1 && s[0] == PLUS {
        s.drop_first()
    } else {
        s
    }
}

/// `s` is a decimal unsigned 32-bit integer text: an optional `+`, then
/// one or more digits (leading zeros allowed), denoting a value that fits
/// in 32 bits.
pub open spec fn is_u32_text(s: Seq<u8>) -> bool {
    &&& u32_core(s).len() >= 1
    &&& all_digits(u32_core(s))
    &&& digits_val(u32_core(s)) <= u32::MAX
}

/// The value denoted by an integer text.
pub open spec fn u32_text_val(s: Seq<u8>) -> nat {
    digits_val(u32_core(s))
}

/// Parses a whole byte string as a decimal unsigned 32-bit integer, as
/// `is_u32_text` describes.
pub fn parse_u32(s: &Vec<u8>) -> (r: Option<u32>)
    ensures
        r is Some <==> is_u32_text(s@),
        r matches Some(v) ==> v == u32_text_val(s@),
{
    let start: usize = if s.len() >= 1 && s[0] == PLUS {
        1
    } else {
        0
    };
    let ghost core = u32_core(s@);
    proof {
        assert(core =~= s@.subrange(start as int, s@.len() as int));
        assert(digits_val(Seq::<u8>::empty()) == 0);
    }
    if s.len() == start {
        return None;
    }
    let mut i = start;
    let mut val: u64 = 0;
    while i < s.len()
        invariant
            start <= i <= s@.len(),
            core == u32_core(s@),
            core == s@.subrange(start as int, s@.len() as int),
            core.len() == s@.len() - start,
            forall|j: int| 0 <= j < core.len() ==> core[j] == s@[start + j],
            all_digits(core.take(i - start)),
            val == digits_val(core.take(i - start)),
            val <= u32::MAX,
        decreases s@.len() - i,
    {
        let c = s[i];
        if c < 48 || c > 57 {
            proof {
                assert(core[i - start] == s@[i as int]);
                assert(!all_digits(core));
            }
            return None;
        }
        let v2 = val * 10 + (c - 48) as u64;
        proof {
            let t = core.take(i - start + 1);
            assert(t.drop_last() =~= core.take(i - start));
            assert(t.last() == s@[i as int]);
        }
        if v2 > 0xFFFF_FFFF {
            proof {
                if all_digits(core) {
                    lemma_digits_val_take(core, i - start + 1);
                }
            }
            return None;
        }
        val = v2;
        i = i + 1;
    }
    proof {
        assert(core.take(s@.len() - start) =~= core);
    }
    Some(val as u32)
}

} // verus!
