use vstd::prelude::*;

use crate::dim::Dim;
use crate::radius::Radius;

verus! {

use core::cmp::Ordering;
use vstd::arithmetic::mul::lemma_mul_inequality;
use crate::radius::plane_within;

/// A point in the plane, with integer coordinates.
#[derive(Debug, PartialEq, Eq, Structural, Clone, Copy)]
pub struct Point {
    pub x: i32,
    pub y: i32,
}

/// The coordinate of `p` on axis `d`, as a mathematical integer.
pub open spec fn axis_value(p: Point, d: Dim) -> int {
    match d {
        Dim::X => p.x as int,
        Dim::Y => p.y as int,
    }
}

/// The squared Euclidean distance between two points.
pub open spec fn dist_sq(a: Point, b: Point) -> int {
    (a.x - b.x) * (a.x - b.x) + (a.y - b.y) * (a.y - b.y)
}

/// A square of a number bounded in magnitude by `m` is at most `m * m`.
proof fn lemma_square_bound(a: int, m: int)
    requires
        -m <= a <= m,
        0 <= m,
    ensures
        0 <= a * a <= m * m,
{
    if a >= 0 {
        lemma_mul_inequality(a, m, a);
        lemma_mul_inequality(a, m, m);
        assert(a * a >= 0) by (nonlinear_arith)
            requires a >= 0;
    } else {
        assert(a * a == (-a) * (-a)) by (nonlinear_arith);
        lemma_mul_inequality(-a, m, -a);
        lemma_mul_inequality(-a, m, m);
        assert((-a) * (-a) >= 0) by (nonlinear_arith)
            requires -a >= 0;
    }
}

/// The squared Euclidean distance between two points, computed exactly.
pub fn distance_squared(ls: &Point, rs: &Point) -> (r: u128)
    ensures
        r == dist_sq(*ls, *rs),
{
    let dx: i64 = (ls.x as i64) - (rs.x as i64);
    let dy: i64 = (ls.y as i64) - (rs.y as i64);
    proof {
        lemma_square_bound(dx as int, 0x1_0000_0000);
        lemma_square_bound(dy as int, 0x1_0000_0000);
    }
    let dx2: i128 = (dx as i128) * (dx as i128);
    let dy2: i128 = (dy as i128) * (dy as i128);
    (dx2 + dy2) as u128
}

impl Point {
    /// True when `self`'s coordinate on `dim` is strictly greater than `rs`'s.
    pub(crate) fn gt(&self, rs: &Point, dim: &Dim) -> (r: bool)
        ensures
            r == (axis_value(*self, *dim) > axis_value(*rs, *dim)),
    {
        match dim {
            Dim::X => self.x > rs.x,
            Dim::Y => self.y > rs.y,
        }
    }

    /// Whether the query disc around `rs` reaches the splitting plane
    /// through `self` on axis `dim`: the plane's coordinate lies within
    /// `radius` of the origin's, boundary included.
    pub(crate) fn in_radius(&self, rs: &Point, dim: &Dim, radius: &Radius) -> (r: bool)
        requires
            radius.wf(),
        ensures
            r == plane_within(axis_value(*self, *dim), axis_value(*rs, *dim), *radius),
    {
        let c: i128 = *self.get_dim_value(dim) as i128;
        let g: i128 = *rs.get_dim_value(dim) as i128;
        let delta: i128 = if c >= g {
            c - g
        } else {
            g - c
        };
        proof {
            assert(delta * (radius.den as i128) <= 0x1_0000_0000_0000_0000_0000_0000i128
                && delta * (radius.den as i128) >= 0) by (nonlinear_arith)
                requires
                    0 <= delta <= 0x1_0000_0000i128,
                    0 <= (radius.den as i128) < 0x1_0000_0000_0000_0000i128;
        }
        delta * (radius.den as i128) <= (radius.num as i128)
    }

    /// Compare the two points' coordinates on axis `dim`.
    pub fn cmp(&self, rs: &Point, dim: &Dim) -> (r: Ordering)
        ensures
            r == Ordering::Less <==> axis_value(*self, *dim) < axis_value(*rs, *dim),
            r == Ordering::Equal <==> axis_value(*self, *dim) == axis_value(*rs, *dim),
            r == Ordering::Greater <==> axis_value(*self, *dim) > axis_value(*rs, *dim),
    {
        let ls_value: &i32 = self.get_dim_value(dim);
        let rs_value: &i32 = rs.get_dim_value(dim);
        if *ls_value < *rs_value {
            Ordering::Less
        } else if *ls_value == *rs_value {
            Ordering::Equal
        } else {
            Ordering::Greater
        }
    }

    /// The coordinate of the point on axis `dim`.
    pub(crate) fn get_dim_value(&self, dim: &Dim) -> (r: &i32)
        ensures
            *r == axis_value(*self, *dim),
    {
        match dim {
            Dim::X => &self.x,
            Dim::Y => &self.y,
        }
    }
}

} // verus!
