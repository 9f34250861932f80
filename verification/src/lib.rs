//! Detection and aggregation of ell-adic growth events in tabulated
//! class groups of imaginary quadratic fields.
//!
//! Given the invariant-factor decomposition of a class group on the
//! fundamental-discriminant side and on the ell-squared-index side, the
//! library extracts the ell-adic profile of each side, classifies growth
//! from an ell^n factor to an ell^(n+1) factor under a selectable policy,
//! and folds the outcomes into counters keyed by exponent and by
//! Kronecker class.  Counters merge associatively and commutatively, so
//! independent units of work can be combined in any order.

use vstd::prelude::*;

pub mod counters;
pub mod parse;
pub mod policy;
pub mod profile;
pub mod unit;

verus! {

/// The four congruence classes `(residue, modulus)` of fundamental
/// discriminants a run covers, fixed at process start.
pub fn congruence_classes() -> (r: Vec<(i64, i64)>)
    ensures
        r@ == seq![(8i64, 16i64), (4i64, 16i64), (3i64, 8i64), (7i64, 8i64)],
{
    let mut v: Vec<(i64, i64)> = Vec::new();
    v.push((8, 16));
    v.push((4, 16));
    v.push((3, 8));
    v.push((7, 8));
    proof {
        assert(v@ =~= seq![(8i64, 16i64), (4i64, 16i64), (3i64, 8i64), (7i64, 8i64)]);
    }
    v
}

/// Why a configuration is rejected before any unit is scheduled.
#[derive(Clone, Copy, Debug, PartialEq, Eq, Structural)]
pub enum ConfigError {
    /// The prime must be at least 2: a smaller base has no valuations.
    EllTooSmall,
    /// The file count must be positive.
    NoFiles,
}

/// Check the run configuration.  A prime below 2 or a non-positive file
/// count invalidates every unit, so the run must fail before any unit
/// is scheduled.
pub fn validate_config(ell: u64, files: i64) -> (r: Result<(), ConfigError>)
    ensures
        r is Ok <==> (ell >= 2 && files > 0),
        r == Err::<(), ConfigError>(ConfigError::EllTooSmall) <==> ell < 2,
        r == Err::<(), ConfigError>(ConfigError::NoFiles) <==> (ell >= 2 && files <= 0),
{
    if ell < 2 {
        Err(ConfigError::EllTooSmall)
    } else if files <= 0 {
        Err(ConfigError::NoFiles)
    } else {
        Ok(())
    }
}

} // verus!
