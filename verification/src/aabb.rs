//! Axes, signs, fixed-point vectors and axis-aligned bounding boxes.
//!
//! [`Aabb`] carries fixed-point world coordinates (see [`crate::scalar`]);
//! [`AabbI`] carries integer tile coordinates. Both are plain min/max pairs
//! and every operation has an exact integer specification.

use vstd::prelude::*;
use crate::scalar::{in_world, WORLD_MAX};

verus! {

/// Smaller of two mathematical integers.
pub open spec fn imin(a: int, b: int) -> int {
    if a <= b {
        a
    } else {
        b
    }
}

/// Larger of two mathematical integers.
pub open spec fn imax(a: int, b: int) -> int {
    if a <= b {
        b
    } else {
        a
    }
}

/// One of the two cardinal axes of the plane.
#[derive(Debug, Copy, Clone, PartialEq, Eq, Structural)]
pub enum Axis2 {
    X,
    Y,
}

impl Axis2 {
    /// Both axes, in the order the kinematic mover resolves them.
    pub fn iter() -> (r: [Axis2; 2])
        ensures
            r@ == seq![Axis2::X, Axis2::Y],
    {
        let r = [Axis2::X, Axis2::Y];
        proof {
            assert(r@ =~= seq![Axis2::X, Axis2::Y]);
        }
        r
    }

    /// Componentwise mask selecting this axis: `(x selected, y selected)`.
    pub fn mask(self) -> (r: (bool, bool))
        ensures
            r == (self is X, self is Y),
    {
        match self {
            Axis2::X => (true, false),
            Axis2::Y => (false, true),
        }
    }
}

/// Direction of travel along one axis. A zero delta counts as positive:
/// the sign test is biased, never undecided.
#[derive(Debug, Copy, Clone, PartialEq, Eq, Structural)]
pub enum Sign {
    Positive,
    Negative,
}

impl Sign {
    /// Sign of `v`, biased so that zero is positive.
    pub fn of_biased(v: i64) -> (r: Sign)
        ensures
            r == (if v < 0 {
                Sign::Negative
            } else {
                Sign::Positive
            }),
    {
        if v < 0 {
            Sign::Negative
        } else {
            Sign::Positive
        }
    }

    /// `v` with this sign applied: negated for [`Sign::Negative`].
    pub fn unit_mag(self, v: i64) -> (r: i64)
        requires
            in_world(v as int),
        ensures
            r == (if self is Negative {
                -(v as int)
            } else {
                v as int
            }),
    {
        if self == Sign::Negative {
            -v
        } else {
            v
        }
    }
}

/// `v` moved `by` further from zero, in `v`'s own (zero-biased) direction.
pub fn add_magnitude(v: i64, by: i64) -> (r: i64)
    requires
        in_world(v as int),
        in_world(by as int),
    ensures
        r == (if v < 0 {
            v - by
        } else {
            v + by
        }),
{
    if v < 0 {
        v - by
    } else {
        v + by
    }
}

/// A point or displacement in fixed-point world coordinates.
#[derive(Debug, Copy, Clone, PartialEq, Eq, Structural)]
pub struct Vec2I {
    pub x: i64,
    pub y: i64,
}

impl Vec2I {
    /// Both components are in world range.
    pub open spec fn wf(self) -> bool {
        in_world(self.x as int) && in_world(self.y as int)
    }

    pub fn new(x: i64, y: i64) -> (r: Vec2I)
        ensures
            r == (Vec2I { x, y }),
    {
        Vec2I { x, y }
    }

    /// Componentwise sum, clipped into the 64-bit range by the cast.
    pub open spec fn add_spec(self, other: Vec2I) -> Vec2I {
        Vec2I { x: (self.x + other.x) as i64, y: (self.y + other.y) as i64 }
    }

    /// The component on `axis`.
    pub open spec fn spec_axis(self, axis: Axis2) -> i64 {
        if axis is X {
            self.x
        } else {
            self.y
        }
    }

    pub fn get_axis(self, axis: Axis2) -> (r: i64)
        ensures
            r == self.spec_axis(axis),
    {
        match axis {
            Axis2::X => self.x,
            Axis2::Y => self.y,
        }
    }

    /// This vector with the component on `axis` replaced by `v`.
    pub fn with_axis(self, axis: Axis2, v: i64) -> (r: Vec2I)
        ensures
            r.spec_axis(axis) == v,
            r.spec_axis(if axis is X {
                Axis2::Y
            } else {
                Axis2::X
            }) == self.spec_axis(
                if axis is X {
                    Axis2::Y
                } else {
                    Axis2::X
                },
            ),
    {
        match axis {
            Axis2::X => Vec2I { x: v, y: self.y },
            Axis2::Y => Vec2I { x: self.x, y: v },
        }
    }

    /// A vector whose `axis` component is `v` and whose other component is
    /// zero.
    pub fn on_axis(axis: Axis2, v: i64) -> (r: Vec2I)
        ensures
            r.spec_axis(axis) == v,
            r.spec_axis(if axis is X {
                Axis2::Y
            } else {
                Axis2::X
            }) == 0,
    {
        match axis {
            Axis2::X => Vec2I { x: v, y: 0 },
            Axis2::Y => Vec2I { x: 0, y: v },
        }
    }

    pub fn add(self, other: Vec2I) -> (r: Vec2I)
        requires
            i64::MIN <= self.x + other.x <= i64::MAX,
            i64::MIN <= self.y + other.y <= i64::MAX,
        ensures
            r.x == self.x + other.x,
            r.y == self.y + other.y,
    {
        Vec2I { x: self.x + other.x, y: self.y + other.y }
    }

    pub fn sub(self, other: Vec2I) -> (r: Vec2I)
        requires
            i64::MIN <= self.x - other.x <= i64::MAX,
            i64::MIN <= self.y - other.y <= i64::MAX,
        ensures
            r.x == self.x - other.x,
            r.y == self.y - other.y,
    {
        Vec2I { x: self.x - other.x, y: self.y - other.y }
    }

    /// Componentwise smaller of the two vectors.
    pub fn min2(self, other: Vec2I) -> (r: Vec2I)
        ensures
            r.x == imin(self.x as int, other.x as int),
            r.y == imin(self.y as int, other.y as int),
    {
        Vec2I {
            x: if self.x <= other.x {
                self.x
            } else {
                other.x
            },
            y: if self.y <= other.y {
                self.y
            } else {
                other.y
            },
        }
    }

    /// Componentwise larger of the two vectors.
    pub fn max2(self, other: Vec2I) -> (r: Vec2I)
        ensures
            r.x == imax(self.x as int, other.x as int),
            r.y == imax(self.y as int, other.y as int),
    {
        Vec2I {
            x: if self.x <= other.x {
                other.x
            } else {
                self.x
            },
            y: if self.y <= other.y {
                other.y
            } else {
                self.y
            },
        }
    }
}

/// An axis-aligned box in fixed-point world coordinates.
#[derive(Debug, Copy, Clone, PartialEq, Eq, Structural)]
pub struct Aabb {
    pub min: Vec2I,
    pub max: Vec2I,
}

impl Aabb {
    /// All four coordinates are in world range.
    pub open spec fn wf(self) -> bool {
        self.min.wf() && self.max.wf()
    }

    /// The box is in min/max order on both axes.
    pub open spec fn ordered(self) -> bool {
        self.min.x <= self.max.x && self.min.y <= self.max.y
    }

    /// Whether the two closed boxes share at least one point.
    pub open spec fn spec_intersects(self, other: Aabb) -> bool {
        !(self.max.x < other.min.x || other.max.x < self.min.x || self.max.y < other.min.y
            || other.max.y < self.min.y)
    }

    /// The trailing coordinate on `axis`: `min` there.
    pub open spec fn spec_min_axis(self, axis: Axis2) -> i64 {
        self.min.spec_axis(axis)
    }

    /// The leading coordinate on `axis`: `max` there.
    pub open spec fn spec_max_axis(self, axis: Axis2) -> i64 {
        self.max.spec_axis(axis)
    }

    /// Box centered on `center`, `size` across; an odd fixed-point size
    /// loses its last step to the flooring halving.
    pub fn new_centered(center: Vec2I, size: Vec2I) -> (r: Aabb)
        requires
            -crate::scalar::DIV_MAX <= size.x <= crate::scalar::DIV_MAX,
            -crate::scalar::DIV_MAX <= size.y <= crate::scalar::DIV_MAX,
            i64::MIN <= center.x - size.x / 2 <= i64::MAX,
            i64::MIN <= center.y - size.y / 2 <= i64::MAX,
            i64::MIN <= center.x + size.x / 2 <= i64::MAX,
            i64::MIN <= center.y + size.y / 2 <= i64::MAX,
        ensures
            r.min.x == center.x - size.x / 2,
            r.min.y == center.y - size.y / 2,
            r.max.x == center.x + size.x / 2,
            r.max.y == center.y + size.y / 2,
    {
        let half = Vec2I { x: crate::scalar::floor_div(size.x, 2), y: crate::scalar::floor_div(size.y, 2) };
        Aabb { min: center.sub(half), max: center.add(half) }
    }

    /// Box with corner `min` and extent `size`.
    pub fn new_sized(min: Vec2I, size: Vec2I) -> (r: Aabb)
        requires
            i64::MIN <= min.x + size.x <= i64::MAX,
            i64::MIN <= min.y + size.y <= i64::MAX,
        ensures
            r.min == min,
            r.max.x == min.x + size.x,
            r.max.y == min.y + size.y,
    {
        Aabb { min, max: min.add(size) }
    }

    /// The box displaced by `rel`.
    pub fn translated(self, rel: Vec2I) -> (r: Aabb)
        requires
            i64::MIN <= self.min.x + rel.x <= i64::MAX,
            i64::MIN <= self.min.y + rel.y <= i64::MAX,
            i64::MIN <= self.max.x + rel.x <= i64::MAX,
            i64::MIN <= self.max.y + rel.y <= i64::MAX,
        ensures
            r.min.x == self.min.x + rel.x,
            r.min.y == self.min.y + rel.y,
            r.max.x == self.max.x + rel.x,
            r.max.y == self.max.y + rel.y,
    {
        Aabb { min: self.min.add(rel), max: self.max.add(rel) }
    }

    /// The smallest box covering this box and its translation by `rel`:
    /// the sweep volume of the move.
    pub fn translate_extend(self, rel: Vec2I) -> (r: Aabb)
        requires
            i64::MIN <= self.min.x + rel.x <= i64::MAX,
            i64::MIN <= self.min.y + rel.y <= i64::MAX,
            i64::MIN <= self.max.x + rel.x <= i64::MAX,
            i64::MIN <= self.max.y + rel.y <= i64::MAX,
        ensures
            r.min.x == imin(self.min.x as int, self.min.x + rel.x),
            r.min.y == imin(self.min.y as int, self.min.y + rel.y),
            r.max.x == imax(self.max.x as int, self.max.x + rel.x),
            r.max.y == imax(self.max.y as int, self.max.y + rel.y),
    {
        let target = self.translated(rel);
        Aabb { min: self.min.min2(target.min), max: self.max.max2(target.max) }
    }

    /// Whether `point` lies in the closed box.
    pub fn contains(self, point: Vec2I) -> (r: bool)
        ensures
            r == (self.min.x <= point.x && point.x <= self.max.x && self.min.y <= point.y
                && point.y <= self.max.y),
    {
        self.min.x <= point.x && point.x <= self.max.x && self.min.y <= point.y
            && point.y <= self.max.y
    }

    /// Whether the two closed boxes share at least one point.
    pub fn intersects(self, other: Aabb) -> (r: bool)
        ensures
            r == self.spec_intersects(other),
    {
        !(self.max.x < other.min.x || other.max.x < self.min.x || self.max.y < other.min.y
            || other.max.y < self.min.y)
    }

    /// The min/max-ordered box over the same corner coordinates.
    pub open spec fn norm(self) -> Aabb {
        Aabb {
            min: Vec2I {
                x: imin(self.min.x as int, self.max.x as int) as i64,
                y: imin(self.min.y as int, self.max.y as int) as i64,
            },
            max: Vec2I {
                x: imax(self.min.x as int, self.max.x as int) as i64,
                y: imax(self.min.y as int, self.max.y as int) as i64,
            },
        }
    }

    /// Min/max-ordered box over the same corner coordinates.
    pub fn normalized(self) -> (r: Aabb)
        ensures
            r == self.norm(),
            r.ordered(),
    {
        Aabb { min: self.min.min2(self.max), max: self.min.max2(self.max) }
    }

    /// Like [`Aabb::normalized`]: each corner pulled to its ordered side.
    pub fn clamped(self) -> (r: Aabb)
        ensures
            r == self.norm(),
    {
        Aabb { min: self.min.min2(self.max), max: self.max.max2(self.min) }
    }

    /// `pos` clamped into the closed box.
    pub fn clamp(self, pos: Vec2I) -> (r: Vec2I)
        requires
            self.ordered(),
        ensures
            r.x == imin(imax(pos.x as int, self.min.x as int), self.max.x as int),
            r.y == imin(imax(pos.y as int, self.min.y as int), self.max.y as int),
    {
        pos.max2(self.min).min2(self.max)
    }

    /// Box with the same center and the size increased by `by` (flooring
    /// halves, as [`Aabb::new_centered`] does).
    pub fn grow(self, by: Vec2I) -> (r: Aabb)
        requires
            self.wf(),
            by.wf(),
        ensures
            r == Aabb::grow_spec(self, by),
    {
        Aabb::new_centered(self.center(), self.size().add(by))
    }

    /// Specification of [`Aabb::grow`]: recenter on the floored midpoint
    /// and widen the extent.
    pub open spec fn grow_spec(self, by: Vec2I) -> Aabb {
        let cx = (self.min.x + self.max.x) / 2;
        let cy = (self.min.y + self.max.y) / 2;
        let sx = self.max.x - self.min.x + by.x;
        let sy = self.max.y - self.min.y + by.y;
        Aabb {
            min: Vec2I { x: (cx - sx / 2) as i64, y: (cy - sy / 2) as i64 },
            max: Vec2I { x: (cx + sx / 2) as i64, y: (cy + sy / 2) as i64 },
        }
    }

    /// Box with the same center and the size decreased by `by`.
    pub fn shrink(self, by: Vec2I) -> (r: Aabb)
        requires
            self.wf(),
            by.wf(),
        ensures
            r == Aabb::grow_spec(self, Vec2I { x: (-(by.x as int)) as i64, y: (-(by.y as int)) as i64 }),
    {
        self.grow(Vec2I { x: -by.x, y: -by.y })
    }

    /// The floored midpoint of the box.
    pub fn center(self) -> (r: Vec2I)
        requires
            self.wf(),
        ensures
            r.x == (self.min.x + self.max.x) / 2,
            r.y == (self.min.y + self.max.y) / 2,
    {
        Vec2I {
            x: crate::scalar::floor_div(self.min.x + self.max.x, 2),
            y: crate::scalar::floor_div(self.min.y + self.max.y, 2),
        }
    }

    /// The extent of the box, `max - min`; negative when unnormalized.
    pub fn size(self) -> (r: Vec2I)
        requires
            i64::MIN <= self.max.x - self.min.x <= i64::MAX,
            i64::MIN <= self.max.y - self.min.y <= i64::MAX,
        ensures
            r.x == self.max.x - self.min.x,
            r.y == self.max.y - self.min.y,
    {
        self.max.sub(self.min)
    }
}

/// An axis-aligned rectangle of integer tile coordinates.
#[derive(Debug, Copy, Clone, PartialEq, Eq, Structural)]
pub struct AabbI {
    pub min: Vec2I,
    pub max: Vec2I,
}

impl AabbI {
    /// All four coordinates are in world range.
    pub open spec fn wf(self) -> bool {
        self.min.wf() && self.max.wf()
    }

    /// The rectangle is in min/max order on both axes.
    pub open spec fn ordered(self) -> bool {
        self.min.x <= self.max.x && self.min.y <= self.max.y
    }

    /// The min/max-ordered rectangle over the same corners.
    pub open spec fn norm(self) -> AabbI {
        AabbI {
            min: Vec2I {
                x: imin(self.min.x as int, self.max.x as int) as i64,
                y: imin(self.min.y as int, self.max.y as int) as i64,
            },
            max: Vec2I {
                x: imax(self.min.x as int, self.max.x as int) as i64,
                y: imax(self.min.y as int, self.max.y as int) as i64,
            },
        }
    }

    /// Number of cells `x` across in the ordered rectangle.
    pub open spec fn norm_width(self) -> int {
        self.norm().max.x - self.norm().min.x
    }

    /// Number of cells `y` down in the ordered rectangle.
    pub open spec fn norm_height(self) -> int {
        self.norm().max.y - self.norm().min.y
    }

    /// The cell `i` across and `j` down from the ordered rectangle's min
    /// corner.
    pub open spec fn cell_at(self, i: int, j: int) -> Vec2I {
        Vec2I { x: (self.norm().min.x + i) as i64, y: (self.norm().min.y + j) as i64 }
    }

    /// Whether `p` is one of the cells the half-open ordered rectangle
    /// spans.
    pub open spec fn spec_has_cell(self, p: Vec2I) -> bool {
        self.norm().min.x <= p.x < self.norm().max.x && self.norm().min.y <= p.y
            < self.norm().max.y
    }

    pub fn new(x: i64, y: i64, w: i64, h: i64) -> (r: AabbI)
        requires
            i64::MIN <= x + w <= i64::MAX,
            i64::MIN <= y + h <= i64::MAX,
        ensures
            r.min == (Vec2I { x, y }),
            r.max.x == x + w,
            r.max.y == y + h,
    {
        AabbI::new_sized(Vec2I { x, y }, Vec2I { x: w, y: h })
    }

    pub fn new_sized(min: Vec2I, size: Vec2I) -> (r: AabbI)
        requires
            i64::MIN <= min.x + size.x <= i64::MAX,
            i64::MIN <= min.y + size.y <= i64::MAX,
        ensures
            r.min == min,
            r.max.x == min.x + size.x,
            r.max.y == min.y + size.y,
    {
        AabbI { min, max: min.add(size) }
    }

    /// Min/max-ordered rectangle over the same corner coordinates.
    pub fn normalized(self) -> (r: AabbI)
        ensures
            r == self.norm(),
            r.ordered(),
    {
        AabbI { min: self.min.min2(self.max), max: self.min.max2(self.max) }
    }

    /// The rectangle widened by one cell on the max side, so that
    /// [`AabbI::iter`] visits the max row and column too.
    pub fn inclusive(self) -> (r: AabbI)
        requires
            self.max.x < i64::MAX,
            self.max.y < i64::MAX,
        ensures
            r.min == self.min,
            r.max.x == self.max.x + 1,
            r.max.y == self.max.y + 1,
    {
        AabbI { min: self.min, max: Vec2I { x: self.max.x + 1, y: self.max.y + 1 } }
    }

    /// The extent of the rectangle, `max - min`.
    pub fn size(self) -> (r: Vec2I)
        requires
            i64::MIN <= self.max.x - self.min.x <= i64::MAX,
            i64::MIN <= self.max.y - self.min.y <= i64::MAX,
        ensures
            r.x == self.max.x - self.min.x,
            r.y == self.max.y - self.min.y,
    {
        self.max.sub(self.min)
    }

    /// The same numeric corners read as fixed-point world coordinates.
    pub fn as_aabb(self) -> (r: Aabb)
        requires
            -1_000_000_000_000 <= self.min.x <= 1_000_000_000_000,
            -1_000_000_000_000 <= self.min.y <= 1_000_000_000_000,
            -1_000_000_000_000 <= self.max.x <= 1_000_000_000_000,
            -1_000_000_000_000 <= self.max.y <= 1_000_000_000_000,
        ensures
            r.min.x == self.min.x * crate::scalar::SCALE,
            r.min.y == self.min.y * crate::scalar::SCALE,
            r.max.x == self.max.x * crate::scalar::SCALE,
            r.max.y == self.max.y * crate::scalar::SCALE,
    {
        Aabb {
            min: Vec2I {
                x: self.min.x * crate::scalar::SCALE,
                y: self.min.y * crate::scalar::SCALE,
            },
            max: Vec2I {
                x: self.max.x * crate::scalar::SCALE,
                y: self.max.y * crate::scalar::SCALE,
            },
        }
    }

    /// Every cell of the ordered rectangle, row-major from its min corner.
    pub fn iter(self) -> (r: Vec<Vec2I>)
        requires
            self.wf(),
            self.norm_width() * self.norm_height() <= 100_000_000,
        ensures
            r@.len() == self.norm_width() * self.norm_height(),
            forall|i: int, j: int|
                0 <= i < self.norm_width() && 0 <= j < self.norm_height() ==> r@[
                    j * self.norm_width() + i
                ] == #[trigger] self.cell_at(i, j),
            forall|k: int| 0 <= k < r@.len() ==> self.spec_has_cell(#[trigger] r@[k]),
    {
        let me = self.normalized();
        let w: i64 = me.max.x - me.min.x;
        let h: i64 = me.max.y - me.min.y;
        let mut r: Vec<Vec2I> = Vec::new();
        let mut y: i64 = me.min.y;
        while y < me.max.y
            invariant
                me == self.norm(),
                me.ordered(),
                self.wf(),
                w == self.norm_width(),
                h == self.norm_height(),
                w * h <= 100_000_000,
                me.min.y <= y <= me.max.y,
                r@.len() == (y - me.min.y) * w,
                forall|i: int, j: int|
                    0 <= i < w && 0 <= j < y - me.min.y ==> r@[j * w + i]
                        == #[trigger] self.cell_at(i, j),
                forall|k: int| 0 <= k < r@.len() ==> self.spec_has_cell(#[trigger] r@[k]),
            decreases me.max.y - y,
        {
            let ghost j = y - me.min.y;
            proof {
                assert(0 <= j < h);
                assert((j + 1) * w == j * w + w) by (nonlinear_arith);
                assert(j * w + w <= h * w) by (nonlinear_arith)
                    requires
                        0 <= j < h,
                        0 <= w,
                ;
                assert(h * w == w * h) by (nonlinear_arith);
            }
            let mut x: i64 = me.min.x;
            while x < me.max.x
                invariant
                    me == self.norm(),
                    me.ordered(),
                    self.wf(),
                    w == self.norm_width(),
                    h == self.norm_height(),
                    w * h <= 100_000_000,
                    me.min.y <= y < me.max.y,
                    j == y - me.min.y,
                    me.min.x <= x <= me.max.x,
                    r@.len() == j * w + (x - me.min.x),
                    forall|i2: int, j2: int|
                        (0 <= i2 < w && 0 <= j2 < j) || (0 <= i2 < x - me.min.x && j2 == j)
                            ==> r@[j2 * w + i2] == #[trigger] self.cell_at(i2, j2),
                    forall|k: int| 0 <= k < r@.len() ==> self.spec_has_cell(#[trigger] r@[k]),
                decreases me.max.x - x,
            {
                proof {
                    assert(j * w + (x - me.min.x) < j * w + w);
                    assert(j * w + w <= h * w) by (nonlinear_arith)
                        requires
                            0 <= j < h,
                            0 <= w,
                    ;
                }
                r.push(Vec2I { x, y });
                proof {
                    let xi = x - me.min.x;
                    assert forall|i2: int, j2: int|
                        (0 <= i2 < w && 0 <= j2 < j) || (0 <= i2 <= xi && j2 == j)
                            implies r@[j2 * w + i2] == self.cell_at(i2, j2) by {
                        if j2 == j {
                            assert(r@[j * w + xi] == self.cell_at(xi, j));
                        } else {
                            assert(j2 * w + i2 < j * w) by (nonlinear_arith)
                                requires
                                    0 <= i2 < w,
                                    0 <= j2 < j,
                            ;
                        }
                    };
                }
                x = x + 1;
            }
            y = y + 1;
            proof {
                assert(r@.len() == j * w + w);
                assert((j + 1) * w == j * w + w) by (nonlinear_arith);
            }
        }
        proof {
            assert((y - me.min.y) == h);
            assert(h * w == w * h) by (nonlinear_arith);
        }
        r
    }
}

/// Symmetry of [`Aabb::spec_intersects`]: overlap does not depend on which
/// box asks.
pub proof fn lemma_intersects_symmetric(a: Aabb, b: Aabb)
    ensures
        a.spec_intersects(b) == b.spec_intersects(a),
{
}

/// A min/max-ordered box overlaps itself.
pub proof fn lemma_intersects_self(a: Aabb)
    requires
        a.ordered(),
    ensures
        a.spec_intersects(a),
{
}

} // verus!
