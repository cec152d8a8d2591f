//! Proportional point reduction: a slashing portion is a fixed-point fraction
//! of the closed unit interval, applied with floor rounding.

use vstd::prelude::*;
use crate::error::ContractError;

verus! {

/// The fixed-point scale: one whole unit of a portion.
pub const PORTION_UNIT: u64 = 1_000_000_000_000_000_000;

/// A fraction expressed in units of `1 / PORTION_UNIT`.
#[derive(Clone, Copy, Debug, PartialEq, Eq, Structural)]
pub struct Portion {
    pub atomics: u64,
}

impl Portion {
    /// A portion lies in the closed unit interval.
    pub open spec fn valid(self) -> bool {
        self.atomics <= PORTION_UNIT
    }

    /// The fraction `p / 100`.
    pub fn percent(p: u64) -> (r: Portion)
        requires
            p <= 100,
        ensures
            r.atomics == p * (PORTION_UNIT as int) / 100,
            r.valid(),
    {
        proof {
            assert(p * (PORTION_UNIT as int) <= 100 * (PORTION_UNIT as int)) by (nonlinear_arith)
                requires p <= 100;
            assert(p * (PORTION_UNIT as int) / 100 <= PORTION_UNIT) by (nonlinear_arith)
                requires p * (PORTION_UNIT as int) <= 100 * (PORTION_UNIT as int);
            assert(p * (PORTION_UNIT as int) >= 0) by (nonlinear_arith)
                requires p >= 0;
        }
        Portion { atomics: ((p as u128) * (PORTION_UNIT as u128) / 100) as u64 }
    }
}

/// Rejects a portion outside the closed unit interval.
pub fn validate_portion(portion: &Portion) -> (r: Result<(), ContractError>)
    ensures
        r is Ok <==> portion.valid(),
        r is Err ==> r == Result::<(), ContractError>::Err(ContractError::InvalidPortion),
{
    if portion.atomics <= PORTION_UNIT {
        Ok(())
    } else {
        Err(ContractError::InvalidPortion)
    }
}

/// The points left after slashing: `floor(points * (1 - portion))`.
pub open spec fn slashed_points(points: u64, portion: Portion) -> int {
    points * (PORTION_UNIT - portion.atomics) / (PORTION_UNIT as int)
}

/// Applies a portion to a point value, rounding down.
pub fn slash_points(points: u64, portion: &Portion) -> (r: u64)
    requires
        portion.valid(),
    ensures
        r as int == slashed_points(points, *portion),
        r <= points,
{
    let keep: u64 = PORTION_UNIT - portion.atomics;
    proof {
        assert((points as int) * (keep as int) <= (points as int) * (PORTION_UNIT as int))
            by (nonlinear_arith)
            requires 0 <= keep <= PORTION_UNIT && points >= 0;
        assert((points as int) * (PORTION_UNIT as int) <= u64::MAX * (PORTION_UNIT as int))
            by (nonlinear_arith)
            requires 0 <= points <= u64::MAX;
        assert(u64::MAX * (PORTION_UNIT as int) < u128::MAX) by (nonlinear_arith);
        assert((points as int) * (keep as int) >= 0) by (nonlinear_arith)
            requires points >= 0 && keep >= 0;
        assert((points as int) * (PORTION_UNIT as int) / (PORTION_UNIT as int) == points)
            by (nonlinear_arith)
            requires PORTION_UNIT > 0;
        assert((points as int) * (keep as int) / (PORTION_UNIT as int) <= (points as int) * (
        PORTION_UNIT as int) / (PORTION_UNIT as int)) by (nonlinear_arith)
            requires
                (points as int) * (keep as int) <= (points as int) * (PORTION_UNIT as int)
                    && PORTION_UNIT > 0;
    }
    ((points as u128) * (keep as u128) / (PORTION_UNIT as u128)) as u64
}

} // verus!
