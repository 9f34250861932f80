//! Growth classification policies.
//!
//! A growth event at exponent `n` compares how often the exponents `n`
//! and `n + 1` occur in the fundamental-side profile and in the
//! ell-squared-index-side profile.  Three policies of decreasing
//! strictness are offered; an unrecognised policy name falls back to
//! `Strict`, preserving long-standing behaviour.

use vstd::prelude::*;

verus! {

use crate::profile::{count_in, count_factor};

/// How a pair of profiles is judged for growth from `ell^n` to `ell^(n+1)`.
#[derive(Clone, Copy, Debug, PartialEq, Eq, Structural)]
pub enum Policy {
    /// One `ell^n` factor disappears and one `ell^(n+1)` factor appears.
    Strict,
    /// The fundamental side has an `ell^n` factor and the other side has
    /// an `ell^(n+1)` factor, regardless of every other factor.
    Any,
    /// The total number of `ell^(n+1)` factors increases.
    Net,
}

/// Growth decision from the four occurrence counts: `f_n`, `f_n1` count
/// the exponents `n` and `n + 1` on the fundamental side, `e_n`, `e_n1`
/// the same on the ell-squared-index side.
pub open spec fn growth_of(f_n: nat, f_n1: nat, e_n: nat, e_n1: nat, mode: Policy) -> bool {
    match mode {
        Policy::Strict => e_n1 > f_n1 && e_n < f_n,
        Policy::Any => f_n > 0 && e_n1 > 0,
        Policy::Net => e_n1 > f_n1,
    }
}

/// Growth decision over a pair of profiles at exponent `n`.
pub open spec fn spec_classify(fund: Seq<u32>, ellp: Seq<u32>, n: int, mode: Policy) -> bool {
    growth_of(
        count_in(fund, n),
        count_in(fund, n + 1),
        count_in(ellp, n),
        count_in(ellp, n + 1),
        mode,
    )
}

/// Decide whether the profile pair shows growth from `ell^n` to
/// `ell^(n+1)` under `mode`.  The result depends on the arguments alone,
/// so repeated classification of the same pair is deterministic.
pub fn classify(fund_profile: &Vec<u32>, ell_profile: &Vec<u32>, n: u32, mode: Policy) -> (r: bool)
    requires
        count_in(fund_profile@, n as int) > 0,
        n < u32::MAX,
    ensures
        r == spec_classify(fund_profile@, ell_profile@, n as int, mode),
{
    let f_n = count_factor(fund_profile, n);
    let f_n1 = count_factor(fund_profile, n + 1);
    let e_n = count_factor(ell_profile, n);
    let e_n1 = count_factor(ell_profile, n + 1);
    match mode {
        Policy::Strict => e_n1 > f_n1 && e_n < f_n,
        Policy::Any => f_n > 0 && e_n1 > 0,
        Policy::Net => e_n1 > f_n1,
    }
}

/// Law: a pair that shows growth under `Strict` also shows growth under
/// `Any`.  The converse fails: the other side may gain an `ell^(n+1)`
/// factor without losing an `ell^n` factor.
pub proof fn lemma_strict_implies_any(fund: Seq<u32>, ellp: Seq<u32>, n: int)
    ensures
        spec_classify(fund, ellp, n, Policy::Strict) ==> spec_classify(fund, ellp, n, Policy::Any),
{
}

/// The name "any", as ASCII bytes.
pub open spec fn any_name() -> Seq<u8> {
    seq![97u8, 110u8, 121u8]
}

/// The name "net", as ASCII bytes.
pub open spec fn net_name() -> Seq<u8> {
    seq![110u8, 101u8, 116u8]
}

/// Which policy a configured name selects: "any" and "net" name their
/// policies, every other name (including "strict") selects `Strict`.
pub open spec fn spec_parse_mode(s: Seq<u8>) -> Policy {
    if s == any_name() {
        Policy::Any
    } else if s == net_name() {
        Policy::Net
    } else {
        Policy::Strict
    }
}

/// Select the policy named by `mode` (bytes of the configured string),
/// falling back to `Strict` for unrecognised names.
pub fn parse_mode(mode: &Vec<u8>) -> (p: Policy)
    ensures
        p == spec_parse_mode(mode@),
{
    if mode.len() == 3 && mode[0] == 97 && mode[1] == 110 && mode[2] == 121 {
        proof {
            assert(mode@ =~= any_name());
        }
        Policy::Any
    } else if mode.len() == 3 && mode[0] == 110 && mode[1] == 101 && mode[2] == 116 {
        proof {
            assert(mode@ =~= net_name());
        }
        Policy::Net
    } else {
        proof {
            if mode@ == any_name() {
                assert(mode@.len() == 3);
                assert(mode@[0] == 97u8 && mode@[1] == 110u8 && mode@[2] == 121u8);
                assert(false);
            }
            if mode@ == net_name() {
                assert(mode@.len() == 3);
                assert(mode@[0] == 110u8 && mode@[1] == 101u8 && mode@[2] == 116u8);
                assert(false);
            }
        }
        Policy::Strict
    }
}

} // verus!
