//! The entity world, component storage, tile content and the transform
//! hierarchy.

use giaw_core::aabb::{Aabb, Vec2I};
use giaw_core::lang::{ensure_index, DespawnStep};
use giaw_core::scalar::SCALE;
use giaw_core::scene::Scene;
use giaw_core::tile::{TileLayerConfig, TileLayerData, TileMap};
use giaw_core::transform::Transform;
use giaw_core::world::{xorshift64, Entity, OwnedEntity, Storage, World};

fn v(x: i64, y: i64) -> Vec2I {
    Vec2I::new(x, y)
}

#[test]
fn xorshift_never_returns_zero() {
    let mut s: u64 = 1;
    for _ in 0..100 {
        s = xorshift64(s);
        assert_ne!(s, 0);
    }
    assert_ne!(xorshift64(0), 0);
}

#[test]
fn spawn_destroy_lifecycle() {
    let mut w = World::new(7);
    assert_eq!(w.alive_entity_count(), 0);
    let a = w.spawn();
    let b = w.spawn();
    assert_ne!(a, b);
    assert!(w.is_alive(a) && w.is_alive(b));
    assert_eq!(w.alive_entity_count(), 2);
    assert_eq!(w.spawned_entity_count(), 2);
    assert_eq!(w.alive_entities().len(), 2);
    w.destroy(a);
    assert!(!w.is_alive(a));
    assert!(w.is_alive(b));
    assert_eq!(w.alive_entity_count(), 1);
    assert_eq!(w.spawned_entity_count(), 2);
}

#[test]
fn owned_entity_guard() {
    let mut w = World::new(3);
    let guard = OwnedEntity::new(&mut w);
    let (guard, e) = guard.split_guard();
    assert_eq!(guard.entity(), e);
    assert!(guard.is_alive(&w));
    let e2 = guard.unmanage();
    assert_eq!(e, e2);
    let mut st: Storage<u32> = Storage::new();
    assert_eq!(e.insert(&w, &mut st, 5), None);
    assert_eq!(e.insert(&w, &mut st, 6), Some(5));
    assert!(e.has(&st));
    assert_eq!(*e.obj(&st), 6);
    assert_eq!(e.try_obj(&st).copied(), Some(6));
    assert_eq!(e.remove(&w, &mut st), Some(6));
    assert_eq!(e.remove::<u32>(&w, &mut st), None);
    assert!(!e.has(&st));
    e.destroy(&mut w);
    assert!(!e.is_alive(&w));
}

#[test]
fn storage_keeps_one_value_per_entity() {
    let mut st: Storage<i32> = Storage::new();
    st.insert(10, 1);
    st.insert(11, 2);
    assert_eq!(st.try_get(10).copied(), Some(1));
    assert_eq!(st.try_get(11).copied(), Some(2));
    let r = st.get_mut(10);
    *r = 42;
    assert_eq!(*st.get(10), 42);
    assert_eq!(st.remove(10), Some(42));
    assert_eq!(st.try_get(10), None);
    assert!(!st.has(10));
}

#[test]
fn chunk_round_trip_and_air_default() {
    let mut d = TileLayerData::new();
    assert_eq!(d.get(v(3, 4)), 0);
    d.set(v(3, 4), 7);
    assert_eq!(d.get(v(3, 4)), 7);
    // another coordinate in the same chunk stays air
    assert_eq!(d.get(v(3, 5)), 0);
    // writing air back leaves the whole chunk air
    d.set(v(3, 4), 0);
    assert_eq!(d.get(v(3, 4)), 0);
    assert_eq!(d.get(v(0, 0)), 0);
    // negative coordinates live in their own chunks
    d.set(v(-1, -1), 9);
    assert_eq!(d.get(v(-1, -1)), 9);
    assert_eq!(d.get(v(-17, -1)), 0);
}

#[test]
fn chunk_eviction_does_not_lose_data() {
    let mut d = TileLayerData::new();
    // tile A in one chunk, tile B far away, forcing the cache to rotate
    d.set(v(1, 1), 5);
    d.set(v(100, 100), 6);
    assert_eq!(d.get(v(100, 100)), 6);
    assert_eq!(d.get(v(1, 1)), 5);
    assert_eq!(d.get(v(100, 100)), 6);
}

#[test]
fn tile_map_layers_and_materials() {
    let (mut scene, root) = Scene::create_game_root(1);
    let desc_a = scene.spawn_actor(Some(root));
    let air = scene.tile_map.materials.register("air".to_string(), desc_a);
    assert_eq!(air.id, 0);
    let desc_s = scene.spawn_actor(Some(root));
    let solid = scene.tile_map.materials.register("stone".to_string(), desc_s);
    assert_eq!(solid.id, 1);
    assert_eq!(scene.tile_map.materials.get_by_name("stone").id, 1);
    assert_eq!(scene.tile_map.materials.get(1).descriptor, desc_s);
    assert!(scene.tile_map.materials.try_get_by_name("lava").is_none());

    let layer = scene.tile_map.push_layer(
        "main".to_string(),
        TileLayerConfig::from_size(SCALE / 2),
    );
    assert_eq!(scene.tile_map.layer("main"), layer);
    assert!(scene.tile_map.try_layer("other").is_none());
    assert_eq!(scene.tile_map.layer_count(), 1);
    assert_eq!(scene.tile_map.layer_config(layer).size, SCALE / 2);

    scene.tile_map.set(layer, v(2, 3), solid);
    assert_eq!(scene.tile_map.get(layer, v(2, 3)).id, 1);
    assert_eq!(scene.tile_map.get(layer, v(2, 4)).id, 0);
    assert_eq!(scene.tile_map.get_id(layer, v(2, 3)), 1);
    assert_eq!(scene.tile_map.actor_to_tile(layer, v(-SCALE / 4, 0)), v(-1, 0));
    let rect = scene.tile_map.tile_to_actor_rect(layer, v(1, 0));
    assert_eq!(rect.min.x, SCALE / 2);
    let rng = scene.tile_map.actor_aabb_to_tile(
        layer,
        Aabb { min: v(0, 0), max: v(SCALE, SCALE) },
    );
    assert_eq!(rng.min, v(0, 0));
    assert_eq!(rng.max, v(2, 2));
}

#[test]
fn ensure_index_grows_with_empty_slots() {
    let mut s: Vec<Option<u8>> = Vec::new();
    *ensure_index(&mut s, 2) = Some(9);
    assert_eq!(s.len(), 3);
    assert_eq!(s[0], None);
    assert_eq!(s[2], Some(9));
    *ensure_index(&mut s, 0) = Some(1);
    assert_eq!(s.len(), 3);
    assert_eq!(s[0], Some(1));
}

#[test]
fn despawn_step_marks_once() {
    let mut d = DespawnStep::new();
    assert!(!d.dropped);
    d.mark();
    assert!(d.dropped);
}

#[test]
fn transform_hierarchy_reads_through_parents() {
    let (mut scene, root) = Scene::create_game_root(11);
    let parent = scene.spawn_actor(Some(root));
    let child = scene.spawn_actor(Some(parent));

    Transform::set_local_pos(&mut scene.transforms, &mut scene.colliders, parent, v(10, 20));
    Transform::set_local_pos(&mut scene.transforms, &mut scene.colliders, child, v(1, 2));
    assert_eq!(Transform::local_pos(&scene.transforms, child), v(1, 2));
    assert_eq!(Transform::global_pos(&mut scene.transforms, child), v(11, 22));

    // moving the parent invalidates the child's cache; the next read
    // reflects the new chain
    Transform::set_local_pos(&mut scene.transforms, &mut scene.colliders, parent, v(100, 200));
    assert_eq!(Transform::global_pos(&mut scene.transforms, child), v(101, 202));

    // invalidating an already-stale node is a harmless no-op
    Transform::invalidate_global_xform(&mut scene.transforms, &mut scene.colliders, parent);
    Transform::invalidate_global_xform(&mut scene.transforms, &mut scene.colliders, parent);
    assert_eq!(Transform::global_pos(&mut scene.transforms, parent), v(100, 200));

    Transform::translate_local(&mut scene.transforms, &mut scene.colliders, child, v(-1, -2));
    assert_eq!(Transform::global_pos(&mut scene.transforms, child), v(100, 200));

    assert!(Transform::is_descendant_of(&scene.transforms, child, parent));
    assert!(Transform::is_descendant_of(&scene.transforms, child, root));
    assert!(!Transform::is_descendant_of(&scene.transforms, parent, child));
    assert!(Transform::is_ancestor_of(&scene.transforms, parent, child));
    assert_eq!(Transform::parent_of(&scene.transforms, child), Some(parent));
    let kids = Transform::children_of(&scene.transforms, parent);
    assert_eq!(kids.len(), 1);
    assert_eq!(kids[0], child);

    // the deep lookup finds the nearest ancestor carrying a component
    let found = Transform::deep_obj(&scene.transforms, &scene.managers, child);
    assert_eq!(found, Some(root));
}

#[test]
fn reparenting_moves_the_whole_subtree() {
    let (mut scene, root) = Scene::create_game_root(13);
    let a = scene.spawn_actor(Some(root));
    let b = scene.spawn_actor(Some(root));
    let mover = scene.spawn_actor(Some(a));
    let grandchild = scene.spawn_actor(Some(mover));
    Transform::set_local_pos(&mut scene.transforms, &mut scene.colliders, b, v(50, 0));
    Transform::set_local_pos(&mut scene.transforms, &mut scene.colliders, grandchild, v(1, 2));
    assert_eq!(Transform::global_pos(&mut scene.transforms, grandchild), v(1, 2));

    // move the node together with its child under b
    Transform::set_parent(&mut scene.transforms, &mut scene.colliders, mover, Some(b));
    assert_eq!(Transform::parent_of(&scene.transforms, mover), Some(b));
    assert_eq!(Transform::children_of(&scene.transforms, a).len(), 0);
    let b_kids = Transform::children_of(&scene.transforms, b);
    assert_eq!(b_kids.len(), 1);
    assert_eq!(b_kids[0], mover);
    assert_eq!(Transform::parent_of(&scene.transforms, grandchild), Some(mover));
    // the local transforms are not compensated: the whole subtree's
    // global poses moved
    assert_eq!(Transform::global_pos(&mut scene.transforms, mover), v(50, 0));
    assert_eq!(Transform::global_pos(&mut scene.transforms, grandchild), v(51, 2));

    // detach the subtree to the root level
    Transform::set_parent(&mut scene.transforms, &mut scene.colliders, mover, None);
    assert_eq!(Transform::parent_of(&scene.transforms, mover), None);
    assert_eq!(Transform::global_pos(&mut scene.transforms, grandchild), v(1, 2));
}

#[test]
fn reparenting_fixes_the_displaced_sibling_slot() {
    let (mut scene, root) = Scene::create_game_root(41);
    let p = scene.spawn_actor(Some(root));
    let c0 = scene.spawn_actor(Some(p));
    let c1 = scene.spawn_actor(Some(p));
    let c2 = scene.spawn_actor(Some(p));
    // moving the first child swaps the last one into its slot
    Transform::set_parent(&mut scene.transforms, &mut scene.colliders, c0, Some(root));
    let kids = Transform::children_of(&scene.transforms, p);
    assert_eq!(kids.len(), 2);
    assert_eq!(kids[0], c2);
    assert_eq!(kids[1], c1);
    // and the moved node sits at the end of its new parent's list
    let root_kids = Transform::children_of(&scene.transforms, root);
    assert_eq!(root_kids[root_kids.len() - 1], c0);
}

#[test]
fn despawn_cascade_clears_subtree_and_manager() {
    let (mut scene, root) = Scene::create_game_root(17);
    let parent = scene.spawn_actor(Some(root));
    let child = scene.spawn_actor(Some(parent));
    scene.attach_collider(child, Aabb { min: v(0, 0), max: v(SCALE, SCALE) });
    assert_eq!(scene.managers.get(root.id).colliders.len(), 1);

    scene.queue_despawn(parent);
    scene.process_despawns();

    assert!(!scene.world.is_alive(parent));
    assert!(!scene.world.is_alive(child));
    assert!(scene.world.is_alive(root));
    assert!(!scene.transforms.has(parent.id));
    assert!(!scene.transforms.has(child.id));
    assert!(!scene.colliders.has(child.id));
    // no dangling manager-list entry remains
    assert_eq!(scene.managers.get(root.id).colliders.len(), 0);
    // the root's child list no longer holds the despawned parent
    assert_eq!(Transform::children_of(&scene.transforms, root).len(), 0);
}

#[test]
fn collider_despawn_fixes_displaced_index() {
    let (mut scene, root) = Scene::create_game_root(19);
    let a = scene.spawn_actor(Some(root));
    let b = scene.spawn_actor(Some(root));
    let c = scene.spawn_actor(Some(root));
    let unit = Aabb { min: v(0, 0), max: v(SCALE, SCALE) };
    scene.attach_collider(a, unit);
    scene.attach_collider(b, unit);
    scene.attach_collider(c, unit);
    assert_eq!(scene.managers.get(root.id).colliders.len(), 3);
    // despawning the first slot swaps the last collider into it
    giaw_core::collider::Collider::despawn(&mut scene.colliders, &mut scene.managers, a);
    let list = &scene.managers.get(root.id).colliders;
    assert_eq!(list.len(), 2);
    assert_eq!(list[0], c.id);
    assert_eq!(scene.colliders.get(c.id).index_in_manager, 0);
    assert_eq!(
        scene.colliders.get(a.id).index_in_manager,
        giaw_core::collider::DESPAWNED,
    );
}

#[test]
fn entity_builder_style_attach() {
    let mut w = World::new(23);
    let mut st: Storage<&'static str> = Storage::new();
    let e = Entity::new_unmanaged(&mut w).with(&w, &mut st, "hello");
    assert_eq!(*e.obj(&st), "hello");
    let mut w2 = World::new(23);
    let o = OwnedEntity::new(&mut w2).with(&w2, &mut st, "there");
    assert_eq!(*o.obj(&st), "there");
}
