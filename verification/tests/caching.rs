//! Cache behavior: lazy global transforms and collider boxes, the
//! per-material lookup cache, and registry name shadowing.

use giaw_core::aabb::{Aabb, Vec2I};
use giaw_core::collider::Collider;
use giaw_core::scalar::SCALE;
use giaw_core::scene::{GameSceneSetTile, InteractMode, Scene};
use giaw_core::tile::MaterialCache;
use giaw_core::transform::{Transform, Xform};

fn v(x: i64, y: i64) -> Vec2I {
    Vec2I::new(x, y)
}

#[test]
fn xform_composition_of_translations_adds() {
    let a = Xform::from_translation(v(10, 20));
    let b = Xform::from_translation(v(1, 2));
    let c = a.compose(b);
    assert_eq!(c.translation(), v(11, 22));
    let i = Xform::identity();
    assert_eq!(i.compose(a), a);
    assert_eq!(a.compose(i), a);
    assert_eq!(i.xform_point(v(7, 8)), v(7, 8));
    assert_eq!(a.xform_point(v(7, 8)), v(17, 28));
    assert_eq!(a.with_translation(v(0, 0)), i);
}

#[test]
fn collider_box_follows_its_transform() {
    let (mut scene, root) = Scene::create_game_root(29);
    let e = scene.spawn_actor(Some(root));
    scene.attach_collider(e, Aabb { min: v(0, 0), max: v(SCALE, SCALE) });
    assert_eq!(Collider::local_aabb(&scene.colliders, e).max, v(SCALE, SCALE));
    let b0 = Collider::global_aabb(&mut scene.transforms, &mut scene.colliders, e);
    assert_eq!(b0.min, v(0, 0));
    // moving the owning node stales the cached box; the next read follows
    Transform::set_local_pos(&mut scene.transforms, &mut scene.colliders, e, v(5, 6));
    let b1 = Collider::global_aabb(&mut scene.transforms, &mut scene.colliders, e);
    assert_eq!(b1.min, v(5, 6));
    assert_eq!(b1.max, v(SCALE + 5, SCALE + 6));
    // replacing the local box stales it again
    Collider::set_local_aabb(&mut scene.colliders, e, Aabb { min: v(0, 0), max: v(1, 1) });
    let b2 = Collider::global_aabb(&mut scene.transforms, &mut scene.colliders, e);
    assert_eq!(b2.max, v(6, 7));
}

#[test]
fn material_cache_memoizes_descriptors() {
    let (mut scene, root) = Scene::create_game_root(31);
    let d0 = scene.spawn_actor(Some(root));
    scene.tile_map.materials.register("air".to_string(), d0);
    let d1 = scene.spawn_actor(Some(root));
    let m1 = scene.tile_map.materials.register("dirt".to_string(), d1);
    let mut cache = MaterialCache::new();
    assert_eq!(cache.lookup(&scene.tile_map.materials, m1), d1);
    assert_eq!(cache.lookup_id(&scene.tile_map.materials, 1), d1);
    assert_eq!(cache.lookup_id(&scene.tile_map.materials, 0), d0);
}

#[test]
fn registry_reregistration_shadows_the_name() {
    let (mut scene, root) = Scene::create_game_root(37);
    let d0 = scene.spawn_actor(Some(root));
    let first = scene.tile_map.materials.register("ore".to_string(), d0);
    let d1 = scene.spawn_actor(Some(root));
    let second = scene.tile_map.materials.register("ore".to_string(), d1);
    assert_eq!(first.id, 0);
    assert_eq!(second.id, 1);
    // the newest registration wins the name
    assert_eq!(scene.tile_map.materials.get_by_name("ore").id, 1);
    // the old id still resolves by number
    assert_eq!(scene.tile_map.materials.get(0).descriptor, d0);
}

#[test]
fn replication_records_carry_plain_values() {
    let rec = GameSceneSetTile { x: -3, y: 7, state: 2 };
    assert_eq!(rec, GameSceneSetTile { x: -3, y: 7, state: 2 });
    assert_ne!(rec.state, 0);
    assert!(matches!(InteractMode::Build, InteractMode::Build));
    assert_ne!(InteractMode::Build, InteractMode::Break);
}

#[test]
fn world_seed_zero_still_generates_ids() {
    let mut w = giaw_core::world::World::new(0);
    let e = w.spawn();
    assert_ne!(e.id, 0);
}
