//! Coordinate conversion, box arithmetic and ray stepping.

use giaw_core::aabb::{Aabb, AabbI, Axis2, Sign, Vec2I};
use giaw_core::scalar::{floor_div, floor_rem, SCALE};
use giaw_core::tile::TileLayerConfig;

fn v(x: i64, y: i64) -> Vec2I {
    Vec2I::new(x, y)
}

fn aabb(x0: i64, y0: i64, x1: i64, y1: i64) -> Aabb {
    Aabb { min: v(x0, y0), max: v(x1, y1) }
}

#[test]
fn floor_division_rounds_down() {
    assert_eq!(floor_div(7, 2), 3);
    assert_eq!(floor_div(-7, 2), -4);
    assert_eq!(floor_div(-4, 2), -2);
    assert_eq!(floor_rem(-7, 2), 1);
}

#[test]
fn negative_coordinates_map_below_zero() {
    // tile size of one world unit: the point (-0.5, -0.5) sits in tile
    // (-1, -1), not (0, 0)
    let c = TileLayerConfig::from_size(SCALE);
    let t = c.actor_to_tile(v(-SCALE / 2, -SCALE / 2));
    assert_eq!(t, v(-1, -1));
    let t2 = c.actor_to_tile(v(SCALE / 2, SCALE / 2));
    assert_eq!(t2, v(0, 0));
}

#[test]
fn tile_round_trip() {
    let c = TileLayerConfig::from_size(SCALE / 2);
    for &tx in &[-3i64, -1, 0, 2, 5] {
        for &ty in &[-2i64, 0, 4] {
            let rect = c.tile_to_actor_rect(v(tx, ty));
            assert_eq!(c.actor_to_tile(rect.min), v(tx, ty));
            // a point strictly inside the cell maps back too
            let inside = v(rect.min.x + 1, rect.min.y + 1);
            assert_eq!(c.actor_to_tile(inside), v(tx, ty));
        }
    }
}

#[test]
fn aabb_intersection_is_symmetric_on_samples() {
    let a = aabb(0, 0, 10, 10);
    let b = aabb(5, 5, 20, 20);
    let c = aabb(11, 11, 12, 12);
    assert!(a.intersects(b) && b.intersects(a));
    assert!(!a.intersects(c) && !c.intersects(a));
    assert!(a.intersects(a));
}

#[test]
fn aabb_construction_and_arithmetic() {
    let a = Aabb::new_sized(v(2, 3), v(4, 6));
    assert_eq!(a.max, v(6, 9));
    assert_eq!(a.center(), v(4, 6));
    assert_eq!(a.size(), v(4, 6));
    let t = a.translated(v(-2, -3));
    assert_eq!(t.min, v(0, 0));
    let e = a.translate_extend(v(10, 0));
    assert_eq!(e.min, v(2, 3));
    assert_eq!(e.max, v(16, 9));
    let c = Aabb::new_centered(v(0, 0), v(10, 10));
    assert_eq!(c.min, v(-5, -5));
    assert_eq!(c.max, v(5, 5));
    let g = c.grow(v(2, 2));
    assert_eq!(g.min, v(-6, -6));
    assert_eq!(g.max, v(6, 6));
    let s = g.shrink(v(2, 2));
    assert_eq!(s.min, v(-5, -5));
    let n = aabb(5, 5, 0, 0).normalized();
    assert_eq!(n.min, v(0, 0));
    assert_eq!(n.max, v(5, 5));
    assert_eq!(aabb(5, 5, 0, 0).clamped(), n);
    assert_eq!(n.clamp(v(9, -3)), v(5, 0));
    assert!(n.contains(v(3, 3)));
    assert!(!n.contains(v(6, 3)));
}

#[test]
fn aabbi_iteration_is_row_major() {
    let r = AabbI::new(1, 1, 2, 2);
    let cells = r.iter();
    assert_eq!(cells.len(), 4);
    assert_eq!(cells[0], v(1, 1));
    assert_eq!(cells[1], v(2, 1));
    assert_eq!(cells[2], v(1, 2));
    assert_eq!(cells[3], v(2, 2));
    let inc = AabbI::new_sized(v(0, 0), v(1, 1)).inclusive();
    assert_eq!(inc.iter().len(), 4);
    assert_eq!(AabbI::new(0, 0, 3, 2).size(), v(3, 2));
    let w = AabbI::new(0, 0, 2, 2).as_aabb();
    assert_eq!(w.max, v(2 * SCALE, 2 * SCALE));
}

#[test]
fn axes_and_signs() {
    let axes = Axis2::iter();
    assert_eq!(axes[0], Axis2::X);
    assert_eq!(axes[1], Axis2::Y);
    assert_eq!(Axis2::X.mask(), (true, false));
    assert_eq!(Sign::of_biased(0), Sign::Positive);
    assert_eq!(Sign::of_biased(-3), Sign::Negative);
    assert_eq!(Sign::Negative.unit_mag(7), -7);
    assert_eq!(giaw_core::aabb::add_magnitude(-5, 2), -7);
    assert_eq!(giaw_core::aabb::add_magnitude(5, 2), 7);
}

#[test]
fn step_ray_reports_both_crossings_of_a_drag() {
    // tile size half a unit; a drag from the origin to (1.2, 0) crosses
    // the grid at x = 0.5 and x = 1.0, entering tiles (1,0) then (2,0)
    let c = TileLayerConfig::from_size(SCALE / 2);
    let hits = c.step_ray(v(0, 0), v(12 * SCALE / 10, 0));
    assert_eq!(hits.len(), 2);
    assert_eq!(hits[0].isect_pos.x, SCALE / 2);
    assert_eq!(hits[1].isect_pos.x, SCALE);
    assert_eq!(hits[0].entered_tile, v(1, 0));
    assert_eq!(hits[1].entered_tile, v(2, 0));
    assert_eq!(hits[0].face.axis, Axis2::X);
    assert_eq!(hits[0].face.sign, Sign::Positive);
}

#[test]
fn step_ray_zero_delta_is_empty() {
    let c = TileLayerConfig::from_size(SCALE / 2);
    assert_eq!(c.step_ray(v(123, 456), v(0, 0)).len(), 0);
}

#[test]
fn step_ray_diagonal_orders_by_distance() {
    // from the cell center, a diagonal reaching further right than down
    // crosses the x grid line before the y grid line
    let c = TileLayerConfig::from_size(SCALE);
    let o = v(SCALE / 2, SCALE / 2);
    let hits = c.step_ray(o, v(SCALE, 2 * SCALE / 3));
    assert_eq!(hits.len(), 2);
    assert_eq!(hits[0].face.axis, Axis2::X);
    assert_eq!(hits[0].entered_tile, v(1, 0));
    assert_eq!(hits[1].face.axis, Axis2::Y);
    assert_eq!(hits[1].entered_tile, v(1, 1));
}

#[test]
fn step_ray_negative_direction() {
    let c = TileLayerConfig::from_size(SCALE);
    let hits = c.step_ray(v(SCALE / 2, 0), v(-SCALE, 0));
    assert_eq!(hits.len(), 1);
    assert_eq!(hits[0].isect_pos.x, 0);
    assert_eq!(hits[0].entered_tile, v(-1, 0));
    assert_eq!(hits[0].face.sign, Sign::Negative);
}
