//! The kinematic mover: broad queries, axis-separated resolution, sliding,
//! self-exclusion and the ground probes.

use giaw_core::aabb::{Aabb, Vec2I};
use giaw_core::kinematic::{AnyCollision, TileColliderDescriptor, TOLERANCE};
use giaw_core::scalar::SCALE;
use giaw_core::scene::Scene;
use giaw_core::tile::{LayerIndex, MaterialInfo, TileLayerConfig};
use giaw_core::world::Entity;

fn v(x: i64, y: i64) -> Vec2I {
    Vec2I::new(x, y)
}

const HALF: i64 = SCALE / 2;

/// A scene with one half-unit tile layer, an air material and a solid
/// material whose collision geometry fills its cell.
fn tile_world() -> (Scene, Entity, LayerIndex, MaterialInfo) {
    let (mut scene, root) = Scene::create_game_root(5);
    let air_desc = scene.spawn_actor(Some(root));
    scene.tile_map.materials.register("air".to_string(), air_desc);
    let solid_desc = scene.spawn_actor(Some(root));
    let solid = scene.tile_map.materials.register("stone".to_string(), solid_desc);
    let cell = Aabb { min: v(0, 0), max: v(HALF, HALF) };
    scene.tile_colliders.insert(
        solid_desc.id,
        TileColliderDescriptor::new(vec![cell]),
    );
    let layer = scene.tile_map.push_layer("main".to_string(), TileLayerConfig::from_size(HALF));
    (scene, root, layer, solid)
}

fn do_move(scene: &mut Scene, aabb: Aabb, by: Vec2I, ignore: Option<Entity>) -> Vec2I {
    let Scene { transforms, colliders, managers, tile_map, tile_colliders, kinematic, .. } =
        scene;
    kinematic.move_by(tile_map, transforms, colliders, managers, tile_colliders, aabb, by, ignore)
}

#[test]
fn broad_query_yields_solid_tiles_and_skips_air() {
    let (mut scene, _root, layer, solid) = tile_world();
    scene.tile_map.set(layer, v(1, 0), solid);
    let q = Aabb { min: v(0, 0), max: v(SCALE, HALF) };
    let Scene { transforms, colliders, managers, tile_map, tile_colliders, kinematic, .. } =
        &mut scene;
    let obstacles = kinematic.iter_colliders_in(
        tile_map,
        transforms,
        colliders,
        managers,
        tile_colliders,
        q,
    );
    assert_eq!(obstacles.len(), 1);
    match obstacles[0] {
        AnyCollision::Tile(info, pos, bx) => {
            assert_eq!(info.id, solid.id);
            assert_eq!(pos, v(1, 0));
            assert_eq!(bx.min, v(HALF, 0));
            assert_eq!(bx.max, v(SCALE, HALF));
        },
        AnyCollision::Collider(_, _) => panic!("expected a tile obstacle"),
    }
}

#[test]
fn mover_flush_against_wall_does_not_penetrate() {
    let (mut scene, _root, layer, solid) = tile_world();
    // the solid tile spans x in the second half-unit column
    scene.tile_map.set(layer, v(1, 0), solid);
    // mover exactly adjacent: its right edge on the tile's left edge
    let mover = Aabb { min: v(0, 0), max: v(HALF, 2 * HALF / 5 * 2) };
    let r = do_move(&mut scene, mover, v(3 * SCALE / 10, 0), None);
    assert_eq!(r, v(0, 0));
}

#[test]
fn mover_with_gap_keeps_tolerance_margin() {
    let (mut scene, _root, layer, solid) = tile_world();
    scene.tile_map.set(layer, v(1, 0), solid);
    // right edge one tenth of a unit short of the tile
    let mover = Aabb { min: v(0, 0), max: v(HALF - SCALE / 10, HALF) };
    let r = do_move(&mut scene, mover, v(3 * SCALE / 10, 0), None);
    // the gap minus the tolerance, never the full request
    assert_eq!(r.x, SCALE / 10 - TOLERANCE);
    assert_eq!(r.y, 0);
}

#[test]
fn diagonal_blocked_on_one_axis_slides_on_the_other() {
    let (mut scene, _root, layer, solid) = tile_world();
    scene.tile_map.set(layer, v(1, 0), solid);
    let mover = Aabb { min: v(0, 0), max: v(HALF, 2 * HALF / 5 * 2) };
    let r = do_move(&mut scene, mover, v(3 * SCALE / 10, SCALE / 5), None);
    assert_eq!(r.x, 0);
    assert_eq!(r.y, SCALE / 5);
}

#[test]
fn own_colliders_never_block_the_move() {
    let (mut scene, root, _layer, _solid) = tile_world();
    let mover_entity = scene.spawn_actor(Some(root));
    let hand = scene.spawn_actor(Some(mover_entity));
    // a collider hanging from the mover's own subtree, right in its path
    scene.attach_collider(hand, Aabb { min: v(HALF, 0), max: v(3 * HALF, SCALE) });
    let mover = Aabb { min: v(0, 0), max: v(HALF, HALF) };
    let blocked = do_move(&mut scene, mover, v(3 * SCALE / 10, 0), None);
    assert_eq!(blocked, v(0, 0));
    let free = do_move(&mut scene, mover, v(3 * SCALE / 10, 0), Some(mover_entity));
    assert_eq!(free, v(3 * SCALE / 10, 0));
}

#[test]
fn foreign_collider_blocks_like_a_wall() {
    let (mut scene, root, _layer, _solid) = tile_world();
    let wall = scene.spawn_actor(Some(root));
    scene.attach_collider(wall, Aabb { min: v(HALF, 0), max: v(3 * HALF, SCALE) });
    let mover_entity = scene.spawn_actor(Some(root));
    let mover = Aabb { min: v(0, 0), max: v(HALF, HALF) };
    let r = do_move(&mut scene, mover, v(3 * SCALE / 10, 0), Some(mover_entity));
    assert_eq!(r, v(0, 0));
}

#[test]
fn ground_and_ceiling_probes() {
    let (mut scene, _root, layer, solid) = tile_world();
    // a floor tile directly under the mover's bottom edge
    scene.tile_map.set(layer, v(0, 1), solid);
    let mover = Aabb { min: v(0, 0), max: v(HALF, HALF) };
    {
        let Scene { transforms, colliders, managers, tile_map, tile_colliders, kinematic, .. } =
            &mut scene;
        assert!(kinematic.is_on_ground(
            tile_map,
            transforms,
            colliders,
            managers,
            tile_colliders,
            mover,
            None,
        ));
        assert!(!kinematic.is_on_ceiling(
            tile_map,
            transforms,
            colliders,
            managers,
            tile_colliders,
            mover,
            None,
        ));
    }
}

#[test]
fn moving_entity_applies_resolved_delta_to_transform() {
    let (mut scene, root, layer, solid) = tile_world();
    scene.tile_map.set(layer, v(1, 0), solid);
    let player = scene.spawn_actor(Some(root));
    let mover = Aabb { min: v(0, 0), max: v(HALF, HALF) };
    let r = do_move(&mut scene, mover, v(SCALE, 0), Some(player));
    // a request of a full unit into the wall resolves to nothing
    assert_eq!(r, v(0, 0));
    giaw_core::transform::Transform::translate_local(
        &mut scene.transforms,
        &mut scene.colliders,
        player,
        r,
    );
    assert_eq!(
        giaw_core::transform::Transform::global_pos(&mut scene.transforms, player),
        v(0, 0),
    );
}
