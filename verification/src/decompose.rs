//! Range decomposition: converting a closed address range `[start, end]`
//! into consecutive CIDR networks that cover it exactly.
//!
//! The networks are emitted in address order, are pairwise disjoint, and
//! their union is exactly the requested range.  A deliberate floor bounds
//! how much address space one network may span: no network wider than a /8
//! is ever produced (every emitted prefix length is at least 8), so a huge
//! range decomposes into a bounded run of /8 blocks rather than one giant
//! prefix.

use vstd::prelude::*;
use vstd::arithmetic::power2::{pow2, lemma_pow2_adds, lemma_pow2_pos, lemma2_to64};
use vstd::arithmetic::div_mod::lemma_mod_mod;
use crate::record::Network;

verus! {

/// The floor: no emitted network spans more than `pow2(MAX_BLOCK_BITS)`
/// addresses, i.e. no prefix shorter than /8 is produced.
pub const MAX_BLOCK_BITS: u64 = 24;

/// A block of `pow2(k)` addresses starting at `cur` is aligned and does not
/// run past `end`.
pub open spec fn fits(cur: int, end: int, k: nat) -> bool {
    &&& cur % (pow2(k) as int) == 0
    &&& cur + pow2(k) - 1 <= end
}

/// The greatest `k' <= k` such that a block of `pow2(k')` addresses fits at
/// `cur` (0 always fits when `cur <= end`).
pub open spec fn max_k_below(cur: int, end: int, k: nat) -> nat
    decreases k,
{
    if k == 0 {
        0
    } else if fits(cur, end, k) {
        k
    } else {
        max_k_below(cur, end, (k - 1) as nat)
    }
}

/// The block exponent the decomposition picks at `cur`: the largest fitting
/// block, capped by the /8 floor.
pub open spec fn max_k(cur: int, end: int) -> nat {
    max_k_below(cur, end, MAX_BLOCK_BITS as nat)
}

/// The decomposition of `[cur, end]` into CIDR networks: greedily take the
/// largest aligned block that fits (capped at `pow2(MAX_BLOCK_BITS)`
/// addresses), then continue just past it.
pub open spec fn decompose_spec(cur: int, end: int) -> Seq<Network>
    decreases end - cur
        when 0 <= cur <= end <= u32::MAX via decompose_spec_decreases
{
    if 0 <= cur && cur <= end && end <= u32::MAX {
        let k = max_k(cur, end);
        let first = Network { base: cur as u32, prefix_len: (32 - k) as u8 };
        if cur + pow2(k) <= end {
            seq![first] + decompose_spec(cur + pow2(k), end)
        } else {
            seq![first]
        }
    } else {
        Seq::empty()
    }
}

#[via_fn]
proof fn decompose_spec_decreases(cur: int, end: int) {
    lemma_pow2_pos(max_k(cur, end));
}

/// A smaller block fits wherever a larger one does.
proof fn lemma_fits_down(cur: int, end: int, k1: nat, k2: nat)
    requires
        0 <= cur,
        k1 <= k2,
        fits(cur, end, k2),
    ensures
        fits(cur, end, k1),
{
    lemma_pow2_adds(k1, (k2 - k1) as nat);
    lemma_pow2_pos(k1);
    lemma_pow2_pos((k2 - k1) as nat);
    let a = pow2(k1) as int;
    let b = pow2((k2 - k1) as nat) as int;
    // cur % pow2(k2) == 0 and pow2(k2) == pow2(k1) * pow2(k2 - k1)
    assert(pow2(k2) as int == a * b);
    lemma_mod_mod(cur, a, b);
    assert((cur % (a * b)) % a == cur % a);
    assert(cur % (a * b) == 0);
    assert(0int % a == 0) by {
        vstd::arithmetic::div_mod::lemma_small_mod(0, pow2(k1));
    }
    if k1 < k2 {
        vstd::arithmetic::power2::lemma_pow2_strictly_increases(k1, k2);
    }
}

/// `max_k_below` never exceeds its cap and always picks a fitting block.
proof fn lemma_max_k_below_fits(cur: int, end: int, k: nat)
    requires
        0 <= cur <= end,
    ensures
        max_k_below(cur, end, k) <= k,
        fits(cur, end, max_k_below(cur, end, k)),
    decreases k,
{
    if k == 0 || !fits(cur, end, k) {
        if k != 0 {
            lemma_max_k_below_fits(cur, end, (k - 1) as nat);
        } else {
            assert(pow2(0) == 1) by { lemma2_to64(); }
        }
    }
}

/// A fitting exponent that cannot be raised (it is the cap, or the next
/// block up does not fit) is exactly `max_k_below`.
proof fn lemma_max_k_below_char(cur: int, end: int, cap: nat, k: nat)
    requires
        0 <= cur,
        k <= cap,
        fits(cur, end, k),
        k == cap || !fits(cur, end, (k + 1) as nat),
    ensures
        max_k_below(cur, end, cap) == k,
    decreases cap,
{
    if cap > k {
        // !fits at k+1, hence at every exponent above k, in particular cap.
        if fits(cur, end, cap) {
            lemma_fits_down(cur, end, (k + 1) as nat, cap);
        }
        lemma_max_k_below_char(cur, end, (cap - 1) as nat, k);
    }
}

/// `pow2` for small exponents, as an executable value.
pub fn pow2_u64(e: u64) -> (r: u64)
    requires
        e <= 32,
    ensures
        r == pow2(e as nat),
{
    proof { lemma2_to64(); }
    let mut i: u64 = 0;
    let mut r: u64 = 1;
    while i < e
        invariant
            i <= e <= 32,
            r == pow2(i as nat),
        decreases e - i,
    {
        proof {
            lemma_pow2_adds(i as nat, 1);
            lemma2_to64();
            vstd::arithmetic::power2::lemma_pow2_strictly_increases(i as nat, 33);
        }
        r = r * 2;
        i = i + 1;
    }
    r
}

/// Decomposes the closed range `[range_start, range_end]` into consecutive
/// CIDR networks.  Each call produces a fresh decomposition of the same
/// range.
pub fn subnets(range_start: u32, range_end: u32) -> (out: Vec<Network>)
    requires
        range_start <= range_end,
    ensures
        out@ == decompose_spec(range_start as int, range_end as int),
{
    let end: u64 = range_end as u64;
    let mut out: Vec<Network> = Vec::new();
    let mut cur: u64 = range_start as u64;
    proof {
        assert(out@ + decompose_spec(cur as int, end as int)
            =~= decompose_spec(range_start as int, range_end as int));
    }
    while cur <= end
        invariant
            end == range_end,
            cur <= end + 1,
            cur <= end ==> out@ + decompose_spec(cur as int, end as int)
                == decompose_spec(range_start as int, range_end as int),
            cur > end ==> out@ == decompose_spec(range_start as int, range_end as int),
        decreases end + 1 - cur,
    {
        let rem: u64 = end - cur + 1;
        let mut k: u64 = 0;
        let mut size: u64 = 1;
        proof {
            assert(pow2(0) == 1) by { lemma2_to64(); }
        }
        while k < MAX_BLOCK_BITS && cur % (size * 2) == 0 && size * 2 <= rem
            invariant
                k <= MAX_BLOCK_BITS,
                size == pow2(k as nat),
                1 <= size <= 0x100_0000,
                size <= rem,
                rem == end - cur + 1,
                cur <= end,
                end <= u32::MAX,
                fits(cur as int, end as int, k as nat),
            decreases MAX_BLOCK_BITS - k,
        {
            proof {
                lemma_pow2_adds(k as nat, 1);
                lemma2_to64();
                if k + 1 < MAX_BLOCK_BITS {
                    vstd::arithmetic::power2::lemma_pow2_strictly_increases(
                        (k + 1) as nat,
                        MAX_BLOCK_BITS as nat,
                    );
                }
            }
            size = size * 2;
            k = k + 1;
        }
        proof {
            lemma_pow2_adds(k as nat, 1);
            lemma2_to64();
            lemma_max_k_below_char(cur as int, end as int, MAX_BLOCK_BITS as nat, k as nat);
        }
        let net = Network { base: cur as u32, prefix_len: (32 - k) as u8 };
        out.push(net);
        proof {
            let ghost prev = out@.drop_last();
            let ghost full = decompose_spec(range_start as int, range_end as int);
            if cur + size <= end {
                assert(decompose_spec(cur as int, end as int)
                    == seq![net] + decompose_spec(cur + size, end as int));
                assert(out@ + decompose_spec(cur + size, end as int)
                    =~= prev + decompose_spec(cur as int, end as int));
            } else {
                assert(decompose_spec(cur as int, end as int) == seq![net]);
                assert(out@ =~= prev + decompose_spec(cur as int, end as int));
            }
        }
        cur = cur + size;
    }
    out
}

/// The structural facts of a decomposition: it starts at `cur`, its blocks
/// are consecutive, every block is a well-formed network no wider than a
/// /8, and the last block ends exactly at `end`.
pub proof fn lemma_decompose_chain(cur: int, end: int)
    requires
        0 <= cur <= end <= u32::MAX,
    ensures
        ({
            let s = decompose_spec(cur, end);
            &&& s.len() >= 1
            &&& s[0].base == cur
            &&& s.last().top() == end
            &&& forall|i: int|
                0 <= i < s.len() ==> (#[trigger] s[i]).wf() && 8 <= s[i].prefix_len <= 32
            &&& forall|i: int| 0 <= i < s.len() - 1 ==> s[i + 1].base == (#[trigger] s[i]).top() + 1
        }),
    decreases end - cur,
{
    let s = decompose_spec(cur, end);
    let k = max_k(cur, end);
    lemma_max_k_below_fits(cur, end, MAX_BLOCK_BITS as nat);
    lemma_pow2_pos(k);
    let first = Network { base: cur as u32, prefix_len: (32 - k) as u8 };
    assert(crate::record::net_size(first.prefix_len) == pow2(k)) by {
        assert((32 - first.prefix_len) as nat == k);
    }
    assert(first.wf());
    assert(first.top() == cur + pow2(k) - 1);
    let next = cur + pow2(k);
    if next > end {
        assert(s == seq![first]);
        assert(s.last() == first);
        assert(first.top() == end);
    } else {
        lemma_decompose_chain(next, end);
        let rest = decompose_spec(next, end);
        assert(s == seq![first] + rest);
        assert(forall|i: int| 0 <= i < rest.len() ==> s[i + 1] == rest[i]);
        assert(s.last() == rest.last());
        assert(s[1] == rest[0]);
        assert(forall|i: int| 1 <= i < s.len() - 1 ==> #[trigger] s[i + 1] == rest[i] && s[i] == rest[i - 1]);
    }
}

/// Every pair of consecutive-chain blocks keeps increasing: a later block
/// starts past an earlier block's top.
proof fn lemma_chain_mono(s: Seq<Network>, i: int, j: int)
    requires
        forall|m: int| 0 <= m < s.len() ==> (#[trigger] s[m]).wf(),
        forall|m: int| 0 <= m < s.len() - 1 ==> s[m + 1].base == (#[trigger] s[m]).top() + 1,
        0 <= i < j < s.len(),
    ensures
        s[j].base > s[i].top(),
        s[j].top() >= s[i].top(),
    decreases j - i,
{
    lemma_pow2_pos((32 - s[j].prefix_len) as nat);
    if j == i + 1 {
        assert(s[j].base == s[i].top() + 1);
    } else {
        lemma_chain_mono(s, i, j - 1);
        lemma_pow2_pos((32 - s[(j - 1) as int].prefix_len) as nat);
        assert(s[j].base == s[j - 1].top() + 1);
    }
}

/// Some block of `s` contains `addr`.
pub open spec fn covered_by(s: Seq<Network>, addr: u32) -> bool {
    exists|i: int| 0 <= i < s.len() && (#[trigger] s[i]).contains(addr)
}

/// Every address of `[lo, hi]` is inside some block of a chain covering
/// `[lo, hi]`.
proof fn lemma_chain_covers(s: Seq<Network>, lo: int, hi: int, addr: u32)
    requires
        s.len() >= 1,
        s[0].base == lo,
        s.last().top() == hi,
        forall|m: int| 0 <= m < s.len() ==> (#[trigger] s[m]).wf(),
        forall|m: int| 0 <= m < s.len() - 1 ==> s[m + 1].base == (#[trigger] s[m]).top() + 1,
        lo <= addr <= hi,
    ensures
        exists|i: int| 0 <= i < s.len() && (#[trigger] s[i]).contains(addr),
    decreases s.len(),
{
    if addr <= s[0].top() {
        assert(s[0].contains(addr));
    } else {
        let rest = s.drop_first();
        assert(s.len() >= 2) by {
            if s.len() == 1 {
                assert(s.last() == s[0]);
            }
        }
        assert(forall|m: int| 0 <= m < rest.len() ==> rest[m] == s[m + 1]);
        assert(rest[0].base == s[0].top() + 1);
        assert(rest.last() == s.last());
        lemma_chain_covers(rest, s[0].top() + 1, hi, addr);
        let w = choose|i: int| 0 <= i < rest.len() && (#[trigger] rest[i]).contains(addr);
        assert(s[w + 1].contains(addr));
    }
}

/// Decomposition coverage: the blocks of `subnets(range_start, range_end)`
/// are pairwise disjoint, cover every address of `[range_start, range_end]`
/// and nothing outside it, and none is wider than a /8 (every prefix length
/// is in `[8, 32]`).
pub proof fn lemma_decompose_covers(range_start: u32, range_end: u32)
    requires
        range_start <= range_end,
    ensures
        ({
            let s = decompose_spec(range_start as int, range_end as int);
            &&& forall|addr: u32|
                range_start <= addr <= range_end ==> #[trigger] covered_by(s, addr)
            &&& forall|addr: u32, i: int|
                0 <= i < s.len() && #[trigger] s[i].contains(addr) ==> range_start <= addr
                    <= range_end
            &&& forall|addr: u32, i: int, j: int|
                0 <= i < j < s.len() ==> !(#[trigger] s[i].contains(addr)
                    && #[trigger] s[j].contains(addr))
            &&& forall|i: int|
                0 <= i < s.len() ==> (#[trigger] s[i]).wf() && 8 <= s[i].prefix_len <= 32
            &&& forall|i: int, j: int| 0 <= i < j < s.len() ==> (#[trigger] s[j]).base > (
            #[trigger] s[i]).top()
        }),
{
    let lo = range_start as int;
    let hi = range_end as int;
    let s = decompose_spec(lo, hi);
    lemma_decompose_chain(lo, hi);
    assert forall|addr: u32| range_start <= addr <= range_end implies #[trigger] covered_by(
        s,
        addr,
    ) by {
        lemma_chain_covers(s, lo, hi, addr);
    }
    assert forall|addr: u32, i: int|
        0 <= i < s.len() && #[trigger] s[i].contains(addr) implies range_start <= addr
        <= range_end by {
        if i > 0 {
            lemma_chain_mono(s, 0, i);
        }
        if i < s.len() - 1 {
            lemma_chain_mono(s, i, s.len() - 1);
        }
        lemma_pow2_pos((32 - s[0].prefix_len) as nat);
    }
    assert forall|addr: u32, i: int, j: int| 0 <= i < j < s.len() implies !(#[trigger] s[i].contains(addr) && #[trigger] s[j].contains(addr)) by {
        lemma_chain_mono(s, i, j);
    }
    assert forall|i: int, j: int| 0 <= i < j < s.len() implies (#[trigger] s[j]).base > (
    #[trigger] s[i]).top() by {
        lemma_chain_mono(s, i, j);
    }
}

} // verus!
