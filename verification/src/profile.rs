//! Extraction of ell-adic profiles from invariant-factor lists.
//!
//! The ell-adic profile of a factor list is the descending sequence of
//! the positive ell-adic valuations of its entries; entries not divisible
//! by ell are dropped.  Downstream code only ever looks at how often each
//! exponent occurs, which `count_in` and `count_val` capture.

use vstd::prelude::*;

verus! {

use vstd::arithmetic::div_mod::{lemma_div_is_strictly_smaller, lemma_fundamental_div_mod};
use vstd::arithmetic::power2::{pow2, lemma_pow2_strictly_increases, lemma2_to64, lemma2_to64_rest};

/// Exponent of `ell` in `n`: how many times `ell` divides `n` before a
/// non-multiple remains.  The valuation of 0 is 0 by convention, and any
/// base below 2 yields 0.
pub open spec fn ell_val(n: nat, ell: nat) -> nat
    decreases n,
    via ell_val_dec
{
    if ell < 2 || n == 0 || n % ell != 0 {
        0
    } else {
        1 + ell_val(n / ell, ell)
    }
}

#[via_fn]
proof fn ell_val_dec(n: nat, ell: nat) {
    if !(ell < 2 || n == 0 || n % ell != 0) {
        lemma_div_is_strictly_smaller(n as int, ell as int);
    }
}

/// For a positive magnitude, two to the valuation is no more than the
/// magnitude itself, since every division step at least halves it.
proof fn lemma_pow2_le_magnitude(n: nat, ell: nat)
    requires
        ell >= 2,
        n >= 1,
    ensures
        pow2(ell_val(n, ell)) <= n,
    decreases n,
{
    if n % ell != 0 {
        assert(ell_val(n, ell) == 0);
        lemma2_to64();
    } else {
        let m = n / ell;
        lemma_fundamental_div_mod(n as int, ell as int);
        assert(n == ell * m);
        assert(m >= 1) by (nonlinear_arith)
            requires
                n == ell * m,
                n >= 1,
                ell >= 2,
        ;
        lemma_div_is_strictly_smaller(n as int, ell as int);
        lemma_pow2_le_magnitude(m, ell);
        let v = ell_val(m, ell);
        assert(ell_val(n, ell) == 1 + v);
        assert(pow2(v + 1) == 2 * pow2(v)) by {
            vstd::arithmetic::power2::lemma_pow2_adds(v, 1);
            lemma2_to64();
        }
        assert(2 * pow2(v) <= 2 * m);
        assert(2 * m <= ell * m) by (nonlinear_arith)
            requires
                ell >= 2,
                m >= 0,
        ;
    }
}

/// The valuation of any `u64` magnitude is at most 63.
pub proof fn lemma_ell_val_bound(n: nat, ell: nat)
    requires
        n <= u64::MAX,
    ensures
        ell_val(n, ell) <= 63,
{
    if ell < 2 || n == 0 {
        assert(ell_val(n, ell) == 0);
    } else {
        lemma_pow2_le_magnitude(n, ell);
        let v = ell_val(n, ell);
        if v > 63 {
            lemma2_to64();
            lemma2_to64_rest();
            if v > 64 {
                lemma_pow2_strictly_increases(64, v);
            }
            assert(pow2(64) <= pow2(v));
            assert(false);
        }
    }
}

/// Largest `k` such that `ell^k` divides `n`, with `ell_valuation(0, ell) == 0`.
pub fn ell_valuation(n: u64, ell: u64) -> (k: u32)
    ensures
        k as nat == ell_val(n as nat, ell as nat),
        k <= 63,
{
    if ell < 2 || n == 0 {
        return 0;
    }
    let ghost n0 = n as nat;
    let mut m = n;
    let mut k: u32 = 0;
    proof {
        lemma2_to64();
        lemma2_to64_rest();
    }
    while m % ell == 0
        invariant
            ell >= 2,
            m >= 1,
            ell_val(n0, ell as nat) == k + ell_val(m as nat, ell as nat),
            (m as nat) * pow2(k as nat) <= n0,
            n0 <= u64::MAX,
            k <= 63,
            pow2(64) > u64::MAX,
        decreases m,
    {
        let next = m / ell;
        proof {
            lemma_fundamental_div_mod(m as int, ell as int);
            assert(m == ell * next);
            assert(next >= 1) by (nonlinear_arith)
                requires
                    m as nat == (ell as nat) * (next as nat),
                    m >= 1,
                    ell >= 2,
            ;
            lemma_div_is_strictly_smaller(m as int, ell as int);
            assert(ell_val(m as nat, ell as nat) == 1 + ell_val(next as nat, ell as nat));
            let kk = k as nat;
            assert(pow2(kk + 1) == 2 * pow2(kk)) by {
                vstd::arithmetic::power2::lemma_pow2_adds(kk, 1);
                lemma2_to64();
            }
            assert((next as nat) * pow2(kk + 1) == (next as nat) * 2 * pow2(kk)) by (nonlinear_arith)
                requires
                    pow2(kk + 1) == 2 * pow2(kk),
            ;
            assert((next as nat) * 2 <= m as nat) by (nonlinear_arith)
                requires
                    ell >= 2,
                    next >= 0,
                    m as nat == (ell as nat) * (next as nat),
            ;
            assert((next as nat) * 2 * pow2(kk) <= (m as nat) * pow2(kk)) by (nonlinear_arith)
                requires
                    (next as nat) * 2 <= m as nat,
                    pow2(kk) >= 0,
            ;
            assert((next as nat) * pow2(kk + 1) <= n0);
            assert(k + 1 <= 63) by {
                assert(pow2(kk + 1) <= (next as nat) * pow2(kk + 1)) by (nonlinear_arith)
                    requires
                        next >= 1,
                        pow2(kk + 1) >= 0,
                ;
                if k + 1 > 63 {
                    assert(kk + 1 == 64);
                    assert(pow2(64) <= n0);
                    assert(false);
                }
            }
        }
        m = next;
        k = k + 1;
    }
    assert(ell_val(m as nat, ell as nat) == 0);
    k
}

/// Number of occurrences of the value `v` in a profile.
pub open spec fn count_in(s: Seq<u32>, v: int) -> nat
    decreases s.len(),
{
    if s.len() == 0 {
        0
    } else {
        count_in(s.drop_last(), v) + (if s.last() == v {
            1nat
        } else {
            0nat
        })
    }
}

/// Number of entries of an invariant-factor list whose ell-adic
/// valuation equals `v`.
pub open spec fn count_val(invs: Seq<u64>, ell: u64, v: int) -> nat
    decreases invs.len(),
{
    if invs.len() == 0 {
        0
    } else {
        count_val(invs.drop_last(), ell, v) + (if ell_val(invs.last() as nat, ell as nat) == v {
            1nat
        } else {
            0nat
        })
    }
}

/// Largest ell-adic valuation over an invariant-factor list, 0 if empty.
pub open spec fn max_val(invs: Seq<u64>, ell: u64) -> nat
    decreases invs.len(),
{
    if invs.len() == 0 {
        0
    } else {
        let rest = max_val(invs.drop_last(), ell);
        let v = ell_val(invs.last() as nat, ell as nat);
        if v > rest {
            v
        } else {
            rest
        }
    }
}

pub proof fn lemma_count_val_above_max(invs: Seq<u64>, ell: u64, v: int)
    requires
        v > max_val(invs, ell),
    ensures
        count_val(invs, ell, v) == 0,
    decreases invs.len(),
{
    if invs.len() > 0 {
        lemma_count_val_above_max(invs.drop_last(), ell, v);
    }
}

pub proof fn lemma_max_val_bound(invs: Seq<u64>, ell: u64)
    ensures
        max_val(invs, ell) <= 63,
    decreases invs.len(),
{
    if invs.len() > 0 {
        lemma_max_val_bound(invs.drop_last(), ell);
        lemma_ell_val_bound(invs.last() as nat, ell as nat);
    }
}

/// Count of occurrences of `n` in a profile.
pub fn count_factor(profile: &Vec<u32>, n: u32) -> (c: usize)
    ensures
        c as nat == count_in(profile@, n as int),
{
    let mut c: usize = 0;
    let mut i: usize = 0;
    while i < profile.len()
        invariant
            i <= profile@.len(),
            c as nat == count_in(profile@.take(i as int), n as int),
            c <= i,
        decreases profile@.len() - i,
    {
        proof {
            assert(profile@.take(i + 1).drop_last() =~= profile@.take(i as int));
            assert(profile@.take(i + 1).last() == profile@[i as int]);
        }
        if profile[i] == n {
            c = c + 1;
        }
        i = i + 1;
    }
    proof {
        assert(profile@.take(profile@.len() as int) =~= profile@);
    }
    c
}

/// Count of entries of `invs` whose valuation equals `v`.
fn count_val_exec(invs: &Vec<u64>, ell: u64, v: u32) -> (c: usize)
    ensures
        c as nat == count_val(invs@, ell, v as int),
{
    let mut c: usize = 0;
    let mut i: usize = 0;
    while i < invs.len()
        invariant
            i <= invs@.len(),
            c as nat == count_val(invs@.take(i as int), ell, v as int),
            c <= i,
        decreases invs@.len() - i,
    {
        proof {
            assert(invs@.take(i + 1).drop_last() =~= invs@.take(i as int));
            assert(invs@.take(i + 1).last() == invs@[i as int]);
        }
        if ell_valuation(invs[i], ell) == v {
            c = c + 1;
        }
        i = i + 1;
    }
    proof {
        assert(invs@.take(invs@.len() as int) =~= invs@);
    }
    c
}

/// Largest valuation found in `invs`, 0 for an empty list.
pub fn max_valuation(invs: &Vec<u64>, ell: u64) -> (mx: u32)
    ensures
        mx as nat == max_val(invs@, ell),
        mx <= 63,
{
    let mut mx: u32 = 0;
    let mut i: usize = 0;
    while i < invs.len()
        invariant
            i <= invs@.len(),
            mx as nat == max_val(invs@.take(i as int), ell),
            mx <= 63,
        decreases invs@.len() - i,
    {
        proof {
            assert(invs@.take(i + 1).drop_last() =~= invs@.take(i as int));
            assert(invs@.take(i + 1).last() == invs@[i as int]);
        }
        let v = ell_valuation(invs[i], ell);
        if v > mx {
            mx = v;
        }
        i = i + 1;
    }
    proof {
        assert(invs@.take(invs@.len() as int) =~= invs@);
    }
    mx
}

/// `c` copies of the value `v`.
pub open spec fn rep(v: u32, c: nat) -> Seq<u32> {
    Seq::new(c, |i| v)
}

/// The profile entries with values from `hi` down to `lo`: for each value,
/// as many copies as there are invariant factors with that valuation.
pub open spec fn profile_seg(invs: Seq<u64>, ell: u64, hi: int, lo: int) -> Seq<u32>
    decreases hi - lo + 1,
{
    if hi < lo {
        Seq::empty()
    } else {
        rep(hi as u32, count_val(invs, ell, hi)) + profile_seg(invs, ell, hi - 1, lo)
    }
}

/// The ell-adic profile of an invariant-factor list: all positive
/// valuations, in descending order.
pub open spec fn profile_spec(invs: Seq<u64>, ell: u64) -> Seq<u32> {
    profile_seg(invs, ell, 63, 1)
}

/// `s[i] >= s[j]` whenever `i <= j`.
pub open spec fn sorted_desc(s: Seq<u32>) -> bool {
    forall|i: int, j: int| 0 <= i <= j < s.len() ==> s[i] >= s[j]
}

proof fn lemma_seg_low_split(invs: Seq<u64>, ell: u64, hi: int, lo: int)
    requires
        hi >= lo,
        0 <= lo,
        hi <= u32::MAX,
    ensures
        profile_seg(invs, ell, hi, lo) == profile_seg(invs, ell, hi, lo + 1) + rep(
            lo as u32,
            count_val(invs, ell, lo),
        ),
    decreases hi - lo,
{
    if hi == lo {
        assert(profile_seg(invs, ell, hi, lo + 1) =~= Seq::<u32>::empty());
        assert(profile_seg(invs, ell, hi - 1, lo) =~= Seq::<u32>::empty());
        assert(profile_seg(invs, ell, hi, lo) =~= profile_seg(invs, ell, hi, lo + 1) + rep(
            lo as u32,
            count_val(invs, ell, lo),
        ));
    } else {
        lemma_seg_low_split(invs, ell, hi - 1, lo);
        assert(profile_seg(invs, ell, hi, lo) =~= profile_seg(invs, ell, hi, lo + 1) + rep(
            lo as u32,
            count_val(invs, ell, lo),
        ));
    }
}

proof fn lemma_seg_range_sorted(invs: Seq<u64>, ell: u64, hi: int, lo: int)
    requires
        0 <= lo,
        hi <= u32::MAX,
    ensures
        forall|i: int|
            0 <= i < profile_seg(invs, ell, hi, lo).len() ==> lo <= #[trigger] profile_seg(
                invs,
                ell,
                hi,
                lo,
            )[i] <= hi,
        sorted_desc(profile_seg(invs, ell, hi, lo)),
    decreases hi - lo + 1,
{
    if hi >= lo {
        lemma_seg_range_sorted(invs, ell, hi - 1, lo);
        let head = rep(hi as u32, count_val(invs, ell, hi));
        let tail = profile_seg(invs, ell, hi - 1, lo);
        let whole = profile_seg(invs, ell, hi, lo);
        assert(whole == head + tail);
        assert forall|i: int| 0 <= i < whole.len() implies lo <= #[trigger] whole[i] <= hi by {
            if i < head.len() {
                assert(whole[i] == hi as u32);
            } else {
                assert(whole[i] == tail[i - head.len()]);
            }
        }
        assert forall|i: int, j: int| 0 <= i <= j < whole.len() implies whole[i] >= whole[j] by {
            if i < head.len() {
                assert(whole[i] == hi as u32);
                if j >= head.len() {
                    assert(whole[j] == tail[j - head.len()]);
                    assert(whole[j] <= (hi - 1) as u32 || tail.len() == 0);
                }
            } else {
                assert(whole[i] == tail[i - head.len()]);
                assert(whole[j] == tail[j - head.len()]);
            }
        }
    }
}

proof fn lemma_count_in_concat(a: Seq<u32>, b: Seq<u32>, v: int)
    ensures
        count_in(a + b, v) == count_in(a, v) + count_in(b, v),
    decreases b.len(),
{
    if b.len() == 0 {
        assert(a + b =~= a);
    } else {
        lemma_count_in_concat(a, b.drop_last(), v);
        assert((a + b).drop_last() =~= a + b.drop_last());
        assert((a + b).last() == b.last());
    }
}

proof fn lemma_count_in_rep(v: u32, c: nat, w: int)
    ensures
        count_in(rep(v, c), w) == if v == w {
            c
        } else {
            0
        },
    decreases c,
{
    if c > 0 {
        lemma_count_in_rep(v, (c - 1) as nat, w);
        assert(rep(v, c).drop_last() =~= rep(v, (c - 1) as nat));
    }
}

proof fn lemma_seg_count(invs: Seq<u64>, ell: u64, hi: int, lo: int, v: int)
    requires
        0 <= lo,
        hi <= u32::MAX,
    ensures
        count_in(profile_seg(invs, ell, hi, lo), v) == if lo <= v <= hi {
            count_val(invs, ell, v)
        } else {
            0
        },
    decreases hi - lo + 1,
{
    if hi < lo {
    } else {
        lemma_seg_count(invs, ell, hi - 1, lo, v);
        let head = rep(hi as u32, count_val(invs, ell, hi));
        let tail = profile_seg(invs, ell, hi - 1, lo);
        lemma_count_in_concat(head, tail, v);
        lemma_count_in_rep(hi as u32, count_val(invs, ell, hi), v);
    }
}

/// Extract the ell-adic profile of `invariants`: one entry per factor
/// divisible by `ell`, equal to its valuation, sorted descending.
pub fn ell_profile(invariants: &Vec<u64>, ell: u64) -> (profile: Vec<u32>)
    ensures
        profile@ == profile_spec(invariants@, ell),
        sorted_desc(profile@),
        forall|i: int| 0 <= i < profile@.len() ==> 1 <= #[trigger] profile@[i] <= 63,
        forall|v: int| v >= 1 ==> count_in(profile@, v) == count_val(invariants@, ell, v),
{
    let mut profile: Vec<u32> = Vec::new();
    let mut v: u32 = 63;
    proof {
        assert(profile@ =~= profile_seg(invariants@, ell, 63, 64));
    }
    while v >= 1
        invariant
            v <= 63,
            profile@ == profile_seg(invariants@, ell, 63, v as int + 1),
        decreases v,
    {
        let c = count_val_exec(invariants, ell, v);
        let ghost before = profile@;
        let mut j: usize = 0;
        while j < c
            invariant
                j <= c,
                c as nat == count_val(invariants@, ell, v as int),
                profile@ == before + rep(v, j as nat),
            decreases c - j,
        {
            profile.push(v);
            proof {
                assert(before + rep(v, j as nat + 1) =~= (before + rep(v, j as nat)).push(v));
            }
            j = j + 1;
        }
        proof {
            lemma_seg_low_split(invariants@, ell, 63, v as int);
        }
        v = v - 1;
    }
    proof {
        lemma_seg_range_sorted(invariants@, ell, 63, 1);
        assert forall|w: int| w >= 1 implies count_in(profile@, w) == count_val(
            invariants@,
            ell,
            w,
        ) by {
            lemma_seg_count(invariants@, ell, 63, 1, w);
            if w > 63 {
                lemma_max_val_bound(invariants@, ell);
                lemma_count_val_above_max(invariants@, ell, w);
            }
        }
    }
    profile
}

/// A value occurs in a profile exactly when its count there is positive.
pub proof fn lemma_count_positive_iff_present(s: Seq<u32>, v: int)
    ensures
        count_in(s, v) > 0 <==> (exists|i: int| 0 <= i < s.len() && s[i] == v),
    decreases s.len(),
{
    if s.len() > 0 {
        lemma_count_positive_iff_present(s.drop_last(), v);
        if count_in(s, v) > 0 {
            if s.last() == v {
                assert(s[s.len() - 1] == v);
            } else {
                let i = choose|i: int| 0 <= i < s.drop_last().len() && s.drop_last()[i] == v;
                assert(s[i] == v);
            }
        }
        if exists|i: int| 0 <= i < s.len() && s[i] == v {
            let i = choose|i: int| 0 <= i < s.len() && s[i] == v;
            if i < s.len() - 1 {
                assert(s.drop_last()[i] == v);
            }
        }
    }
}

/// Sum over all values `0 <= w < bound` of the count of `w` in `s`.
pub open spec fn sum_counts(s: Seq<u32>, bound: int) -> nat
    decreases bound,
{
    if bound <= 0 {
        0
    } else {
        sum_counts(s, bound - 1) + count_in(s, bound - 1)
    }
}

proof fn lemma_sum_counts_empty(s: Seq<u32>, bound: int)
    requires
        s.len() == 0,
    ensures
        sum_counts(s, bound) == 0,
    decreases bound,
{
    if bound > 0 {
        lemma_sum_counts_empty(s, bound - 1);
    }
}

proof fn lemma_sum_counts_drop_last(s: Seq<u32>, bound: int)
    requires
        s.len() > 0,
    ensures
        sum_counts(s, bound) == sum_counts(s.drop_last(), bound) + (if 0 <= s.last() < bound {
            1nat
        } else {
            0nat
        }),
    decreases bound,
{
    if bound > 0 {
        lemma_sum_counts_drop_last(s, bound - 1);
    }
}

/// The counts of the individual values partition a profile: summed over
/// every possible `u32` value, they add up to its length.
pub proof fn lemma_counts_partition(s: Seq<u32>)
    ensures
        sum_counts(s, 0x1_0000_0000) == s.len(),
    decreases s.len(),
{
    if s.len() > 0 {
        lemma_counts_partition(s.drop_last());
        lemma_sum_counts_drop_last(s, 0x1_0000_0000);
        assert(s.last() <= u32::MAX);
    } else {
        lemma_sum_counts_empty(s, 0x1_0000_0000);
    }
}

} // verus!
