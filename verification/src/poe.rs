//! Points-of-engagement mixing functions: pure, deterministic combiners of
//! two point values from independent sources, closed under a configured set
//! of strategies, all over integer arithmetic.

use vstd::prelude::*;
use crate::error::ContractError;

verus! {

/// Mathematical floor of the square root, defined by counting up.
pub open spec fn sqrt_floor(n: nat) -> nat
    decreases n,
{
    if n == 0 {
        0
    } else {
        let s = sqrt_floor((n - 1) as nat);
        if (s + 1) * (s + 1) <= n {
            s + 1
        } else {
            s
        }
    }
}

/// `sqrt_floor(n)` is the unique `r` with `r * r <= n < (r + 1) * (r + 1)`.
pub proof fn lemma_sqrt_floor_bounds(n: nat)
    ensures
        sqrt_floor(n) * sqrt_floor(n) <= n,
        n < (sqrt_floor(n) + 1) * (sqrt_floor(n) + 1),
    decreases n,
{
    if n > 0 {
        lemma_sqrt_floor_bounds((n - 1) as nat);
        let s = sqrt_floor((n - 1) as nat);
        assert(s * s <= n - 1);
        assert(n - 1 < (s + 1) * (s + 1));
        if (s + 1) * (s + 1) <= n {
            assert(sqrt_floor(n) == s + 1);
            assert(n < ((s + 1) + 1) * ((s + 1) + 1)) by (nonlinear_arith)
                requires n <= (s + 1) * (s + 1);
            assert(sqrt_floor(n) * sqrt_floor(n) <= n);
            assert(n < (sqrt_floor(n) + 1) * (sqrt_floor(n) + 1));
        } else {
            assert(sqrt_floor(n) == s);
            assert(sqrt_floor(n) * sqrt_floor(n) <= n);
            assert(n < (sqrt_floor(n) + 1) * (sqrt_floor(n) + 1));
        }
    } else {
        assert(sqrt_floor(n) == 0);
        assert(n < (sqrt_floor(n) + 1) * (sqrt_floor(n) + 1)) by (nonlinear_arith)
            requires n == 0 && sqrt_floor(n) == 0;
    }
}

/// The floor square root is non-decreasing.
pub proof fn lemma_sqrt_floor_monotonic(a: nat, b: nat)
    requires
        a <= b,
    ensures
        sqrt_floor(a) <= sqrt_floor(b),
{
    lemma_sqrt_floor_bounds(a);
    lemma_sqrt_floor_bounds(b);
    let ra = sqrt_floor(a);
    let rb = sqrt_floor(b);
    if ra > rb {
        assert(ra * ra >= (rb + 1) * (rb + 1)) by (nonlinear_arith)
            requires ra >= rb + 1;
        assert(false);
    }
}

/// Any value whose square brackets `n` is exactly the floor square root.
pub proof fn lemma_sqrt_floor_unique(n: nat, r: nat)
    requires
        r * r <= n,
        n < (r + 1) * (r + 1),
    ensures
        sqrt_floor(n) == r,
{
    lemma_sqrt_floor_bounds(n);
    let s = sqrt_floor(n);
    if s < r {
        assert((s + 1) * (s + 1) <= r * r) by (nonlinear_arith)
            requires s + 1 <= r;
        assert(false);
    }
    if s > r {
        assert((r + 1) * (r + 1) <= s * s) by (nonlinear_arith)
            requires r + 1 <= s;
        assert(false);
    }
}

/// Executable floor square root over the full `u128` domain, by binary search.
pub fn isqrt(n: u128) -> (r: u64)
    ensures
        r as nat == sqrt_floor(n as nat),
{
    let mut lo: u128 = 0;
    let mut hi: u128 = 0xffff_ffff_ffff_ffff;
    if n < hi {
        hi = n;
    }
    assert(n < (hi + 1) * (hi + 1)) by (nonlinear_arith)
        requires hi == n || (n <= 0xffff_ffff_ffff_ffff_ffff_ffff_ffff_ffff && hi == 0xffff_ffff_ffff_ffff);
    while lo < hi
        invariant
            lo <= hi,
            hi <= 0xffff_ffff_ffff_ffff,
            lo * lo <= n as int,
            n < (hi + 1) * (hi + 1),
        decreases hi - lo,
    {
        let mid: u128 = lo + (hi - lo + 1) / 2;
        assert(mid * mid <= 0xffff_ffff_ffff_ffff * 0xffff_ffff_ffff_ffff) by (nonlinear_arith)
            requires mid <= 0xffff_ffff_ffff_ffff;
        if mid * mid <= n {
            lo = mid;
        } else {
            hi = mid - 1;
        }
    }
    proof {
        lemma_sqrt_floor_unique(n as nat, lo as nat);
    }
    lo as u64
}

/// The closed set of mixing strategies.  Each is total over the unsigned
/// domain, deterministic, integer-only, and monotonic non-decreasing in each
/// argument; the choice is made at creation and is immutable afterwards.
#[derive(Clone, Copy, Debug, PartialEq, Eq, Structural)]
pub enum PoEFunctionType {
    /// `floor(sqrt(left * right))`.
    GeometricMean,
    /// A saturating sigmoid-shaped curve over the geometric mean `g`:
    /// `floor(max_points * g / (g + s))`, approaching `max_points` as `g`
    /// grows; `s` is the softness parameter and must be positive.
    Sigmoid { max_points: u64, s: u64 },
}

impl PoEFunctionType {
    /// The configured parameters keep the computation inside its domain.
    pub open spec fn params_valid(self) -> bool {
        match self {
            PoEFunctionType::GeometricMean => true,
            PoEFunctionType::Sigmoid { max_points, s } => s > 0,
        }
    }

    /// The mathematical value of the mixed points.
    pub open spec fn mix_spec(self, left: u64, right: u64) -> int {
        match self {
            PoEFunctionType::GeometricMean => sqrt_floor((left * right) as nat) as int,
            PoEFunctionType::Sigmoid { max_points, s } => {
                let g = sqrt_floor((left * right) as nat) as int;
                (max_points * g) / (g + s)
            },
        }
    }

    /// Every mixed value fits the unsigned 64-bit range.
    pub proof fn lemma_mix_in_range(self, left: u64, right: u64)
        requires
            self.params_valid(),
        ensures
            0 <= self.mix_spec(left, right) <= u64::MAX,
    {
        lemma_sqrt_floor_le_max(left, right);
        let g = sqrt_floor((left * right) as nat) as int;
        match self {
            PoEFunctionType::GeometricMean => {},
            PoEFunctionType::Sigmoid { max_points, s } => {
                assert(0 <= (max_points * g) / (g + s) <= max_points) by (nonlinear_arith)
                    requires g >= 0 && s >= 1 && max_points >= 0;
            },
        }
    }

    /// Checks the configured parameters, as creation and migration must.
    pub fn validate(&self) -> (r: Result<(), ContractError>)
        ensures
            r is Ok <==> self.params_valid(),
            r is Err ==> r == Result::<(), ContractError>::Err(ContractError::InvalidPoeParams),
    {
        match self {
            PoEFunctionType::GeometricMean => Ok(()),
            PoEFunctionType::Sigmoid { max_points: _, s } => {
                if *s == 0 {
                    Err(ContractError::InvalidPoeParams)
                } else {
                    Ok(())
                }
            },
        }
    }

    /// Mixes one point value from each source into the derived value.
    pub fn mix(&self, left: u64, right: u64) -> (r: u64)
        requires
            self.params_valid(),
        ensures
            r as int == self.mix_spec(left, right),
    {
        proof {
            self.lemma_mix_in_range(left, right);
            assert((left as int) * (right as int) <= u64::MAX * u64::MAX) by (nonlinear_arith)
                requires 0 <= left <= u64::MAX && 0 <= right <= u64::MAX;
            assert(u64::MAX * u64::MAX < u128::MAX) by (nonlinear_arith);
        }
        match self {
            PoEFunctionType::GeometricMean => isqrt((left as u128) * (right as u128)),
            PoEFunctionType::Sigmoid { max_points, s } => {
                let g = isqrt((left as u128) * (right as u128));
                proof {
                    assert((*max_points as int) * (g as int) <= u64::MAX * u64::MAX)
                        by (nonlinear_arith)
                        requires 0 <= *max_points <= u64::MAX && 0 <= g <= u64::MAX;
                }
                let num: u128 = (*max_points as u128) * (g as u128);
                let den: u128 = (g as u128) + (*s as u128);
                (num / den) as u64
            },
        }
    }
}

/// The geometric mean of two unsigned 64-bit values fits the same range.
pub proof fn lemma_sqrt_floor_le_max(left: u64, right: u64)
    ensures
        sqrt_floor((left * right) as nat) <= u64::MAX,
{
    assert(left * right <= u64::MAX * u64::MAX) by (nonlinear_arith)
        requires left <= u64::MAX && right <= u64::MAX && left >= 0 && right >= 0;
    lemma_sqrt_floor_monotonic((left * right) as nat, (u64::MAX * u64::MAX) as nat);
    assert(u64::MAX * u64::MAX < (u64::MAX + 1) * (u64::MAX + 1)) by (nonlinear_arith);
    lemma_sqrt_floor_unique((u64::MAX * u64::MAX) as nat, u64::MAX as nat);
}

/// Mixing is monotonic non-decreasing in its left argument; by the symmetry
/// of the geometric mean, the same holds on the right.
pub proof fn lemma_mix_monotonic(ft: PoEFunctionType, left1: u64, left2: u64, right: u64)
    requires
        ft.params_valid(),
        left1 <= left2,
    ensures
        ft.mix_spec(left1, right) <= ft.mix_spec(left2, right),
{
    assert(left1 * right <= left2 * right) by (nonlinear_arith)
        requires 0 <= left1 <= left2 && right >= 0;
    lemma_sqrt_floor_monotonic((left1 * right) as nat, (left2 * right) as nat);
    let g1 = sqrt_floor((left1 * right) as nat) as int;
    let g2 = sqrt_floor((left2 * right) as nat) as int;
    match ft {
        PoEFunctionType::GeometricMean => {},
        PoEFunctionType::Sigmoid { max_points, s } => {
            lemma_saturating_curve_monotonic(max_points as int, s as int, g1, g2);
        },
    }
}

/// `floor(m * g / (g + s))` is non-decreasing in `g` for positive `s`.
proof fn lemma_saturating_curve_monotonic(m: int, s: int, g1: int, g2: int)
    requires
        m >= 0,
        s >= 1,
        0 <= g1 <= g2,
    ensures
        (m * g1) / (g1 + s) <= (m * g2) / (g2 + s),
{
    let q1 = (m * g1) / (g1 + s);
    vstd::arithmetic::div_mod::lemma_fundamental_div_mod(m * g1, g1 + s);
    assert(q1 * (g1 + s) <= m * g1) by (nonlinear_arith)
        requires m * g1 == (g1 + s) * q1 + (m * g1) % (g1 + s) && (m * g1) % (g1 + s) >= 0;
    assert(m * g1 * (g2 + s) <= m * g2 * (g1 + s)) by (nonlinear_arith)
        requires m >= 0 && s >= 1 && 0 <= g1 <= g2;
    assert(q1 * (g2 + s) <= m * g2) by (nonlinear_arith)
        requires
            q1 * (g1 + s) <= m * g1 && m * g1 * (g2 + s) <= m * g2 * (g1 + s) && g1 + s >= 1
                && g2 + s >= 1;
    vstd::arithmetic::div_mod::lemma_fundamental_div_mod(m * g2, g2 + s);
    let q2 = (m * g2) / (g2 + s);
    assert(q1 <= q2) by (nonlinear_arith)
        requires
            q1 * (g2 + s) <= m * g2 && m * g2 == (g2 + s) * q2 + (m * g2) % (g2 + s) && (m * g2) % (
            g2 + s) < g2 + s && g2 + s >= 1;
}

} // verus!

