use vstd::prelude::*;

verus! {

use vstd::arithmetic::div_mod::lemma_fundamental_div_mod;
use vstd::arithmetic::mul::{lemma_mul_inequality, lemma_mul_is_commutative};

/// An exact, non-negative search radius, given as the rational `num / den`.
#[derive(Debug, PartialEq, Eq, Structural, Clone, Copy)]
pub struct Radius {
    pub num: u64,
    pub den: u64,
}

impl Radius {
    /// A radius is meaningful only with a non-zero denominator.
    pub open spec fn wf(self) -> bool {
        self.den >= 1
    }
}

/// Whether a squared distance `d2` lies within radius `r`, boundary
/// included: `d2 <= (num / den)^2`, stated over integers as
/// `d2 * den^2 <= num^2`.
pub open spec fn within_radius(d2: int, r: Radius) -> bool {
    d2 * (r.den * r.den) <= r.num * r.num
}

/// Whether the query disc reaches a splitting plane: the plane's coordinate
/// `c` lies within radius `num / den` of the query coordinate `g`, boundary
/// included: `|c - g| <= r`, stated over integers.
pub open spec fn plane_within(c: int, g: int, r: Radius) -> bool {
    (if c >= g {
        c - g
    } else {
        g - c
    }) * r.den <= r.num
}

/// Decide `d2 <= r^2` exactly in integer arithmetic.
pub fn le_radius(d2: u128, r: &Radius) -> (res: bool)
    requires
        r.wf(),
    ensures
        res == within_radius(d2 as int, *r),
{
    proof {
        assert(0 < (r.den as int) * (r.den as int)
            < 0x1_0000_0000_0000_0000_0000_0000_0000_0000) by (nonlinear_arith)
            requires 1 <= r.den < 0x1_0000_0000_0000_0000;
        assert(0 <= (r.num as int) * (r.num as int)
            < 0x1_0000_0000_0000_0000_0000_0000_0000_0000) by (nonlinear_arith)
            requires 0 <= r.num < 0x1_0000_0000_0000_0000;
    }
    let nn: u128 = (r.num as u128) * (r.num as u128);
    let dd: u128 = (r.den as u128) * (r.den as u128);
    let quot: u128 = u128::MAX / dd;
    if d2 <= quot {
        proof {
            lemma_mul_inequality(d2 as int, quot as int, dd as int);
            lemma_fundamental_div_mod(u128::MAX as int, dd as int);
            lemma_mul_is_commutative(quot as int, dd as int);
            assert((quot as int) * (dd as int) <= u128::MAX as int);
        }
        d2 * dd <= nn
    } else {
        proof {
            lemma_mul_inequality(quot as int + 1, d2 as int, dd as int);
            lemma_fundamental_div_mod(u128::MAX as int, dd as int);
            lemma_mul_is_commutative(quot as int, dd as int);
            assert((quot as int + 1) * (dd as int) == (quot as int) * (dd as int) + dd as int)
                by (nonlinear_arith);
            assert((d2 as int) * (dd as int) > u128::MAX as int);
        }
        false
    }
}

} // verus!
