//! Fixed-point scalar arithmetic.
//!
//! World coordinates are `i64` values counting millionths of a world unit,
//! so a tile size of half a unit is `SCALE / 2` and the default kinematic
//! tolerance of a hundredth of a unit is `SCALE / 100`. All operations are
//! exact integer arithmetic; callers stay inside [`WORLD_MAX`] so that the
//! handful of additions any one operation performs cannot overflow.

use vstd::prelude::*;

verus! {

/// Number of fixed-point steps per world unit.
pub const SCALE: i64 = 1_000_000;

/// Largest coordinate magnitude the library works with. One ninth of
/// `i64::MAX`, so sums of a few in-range coordinates stay representable.
pub const WORLD_MAX: i64 = 1_000_000_000_000_000_000;

/// Largest dividend [`floor_div`] accepts: four world ranges, covering
/// sums of a few in-range coordinates.
pub const DIV_MAX: i64 = 4_000_000_000_000_000_000;

/// A scalar is in world range when its magnitude is at most [`WORLD_MAX`].
pub open spec fn in_world(x: int) -> bool {
    -WORLD_MAX <= x <= WORLD_MAX
}

/// Quotient bound used to show Euclidean division of in-range scalars
/// cannot overflow.
proof fn lemma_floor_div_bounded(a: int, b: int)
    requires
        b > 0,
        -DIV_MAX <= a <= DIV_MAX,
    ensures
        -DIV_MAX <= a / b <= DIV_MAX,
{
    vstd::arithmetic::div_mod::lemma_fundamental_div_mod(a, b);
    vstd::arithmetic::div_mod::lemma_mod_bound(a, b);
    let q = a / b;
    let r = a % b;
    assert(-DIV_MAX <= q <= DIV_MAX) by (nonlinear_arith)
        requires
            b >= 1,
            a == b * q + r,
            0 <= r < b,
            -DIV_MAX <= a <= DIV_MAX,
    ;
}

/// For a positive divisor the quotient keeps any symmetric magnitude bound
/// of the dividend.
pub proof fn lemma_floor_div_in_range(a: int, b: int, m: int)
    requires
        b > 0,
        0 <= m,
        -m <= a <= m,
    ensures
        -m <= a / b <= m,
{
    vstd::arithmetic::div_mod::lemma_fundamental_div_mod(a, b);
    vstd::arithmetic::div_mod::lemma_mod_bound(a, b);
    let q = a / b;
    let r = a % b;
    assert(-m <= q <= m) by (nonlinear_arith)
        requires
            b >= 1,
            a == b * q + r,
            0 <= r < b,
            -m <= a <= m,
    ;
}

/// Euclidean (floor, for positive divisors) division of fixed-point scalars.
///
/// Spec-level `/` on `int` is Euclidean division, which for a positive
/// divisor rounds toward negative infinity; this is what maps negative
/// world coordinates to the correct tile.
pub fn floor_div(a: i64, b: i64) -> (q: i64)
    requires
        b > 0,
        -DIV_MAX <= a <= DIV_MAX,
    ensures
        q == a as int / b as int,
{
    proof {
        lemma_floor_div_bounded(a as int, b as int);
    }
    a.checked_div_euclid(b).unwrap()
}

/// Euclidean remainder matching [`floor_div`]: always in `[0, b)`.
pub fn floor_rem(a: i64, b: i64) -> (r: i64)
    requires
        b > 0,
        -DIV_MAX <= a <= DIV_MAX,
    ensures
        r == a as int % b as int,
        0 <= r < b,
{
    proof {
        vstd::arithmetic::div_mod::lemma_mod_bound(a as int, b as int);
    }
    a.checked_rem_euclid(b).unwrap()
}

} // verus!
