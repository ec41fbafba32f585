//! The scene: one world and the component stores wired together, with the
//! cross-component operations — spawning actors, attaching colliders, and
//! the deferred despawn cascade that tears a transform subtree down
//! without leaving a dangling manager-list slot.

use vstd::prelude::*;
use crate::aabb::Aabb;
use crate::actors::ActorManager;
use crate::collider::{Collider, ColliderManager, colliders_wf, manager_wf, DESPAWNED};
use crate::kinematic::{KinematicManager, TileColliderDescriptor};
use crate::tile::TileMap;
use crate::transform::{cache_wf, contains_id, lemma_descendant_not_above, lemma_descendant_trans, lemma_descendants_collected, lemma_take_push_contains, lemma_visited_bound, push_all, spec_is_descendant, tree_wf, Transform};
use crate::world::{Entity, Storage, World};

verus! {

/// A tile write to replicate to the other side of a session: the
/// coordinate and the material id to put there. The networking glue turns
/// this into wire bytes; the core only carries the plain values.
#[derive(Debug, Copy, Clone, PartialEq, Eq, Structural)]
pub struct GameSceneSetTile {
    pub x: i32,
    pub y: i32,
    pub state: i32,
}

/// What a click does to the targeted tiles: place a material or clear
/// them back to air.
#[derive(Debug, Copy, Clone, PartialEq, Eq, Structural)]
pub enum InteractMode {
    Build,
    Break,
}

/// A complete scene: the entity world, the spatial hierarchy, the collider
/// scope, the tile map and the kinematic mover over them.
pub struct Scene {
    pub world: World,
    pub transforms: Storage<Transform>,
    pub colliders: Storage<Collider>,
    pub managers: Storage<ColliderManager>,
    pub tile_map: TileMap,
    pub tile_colliders: Storage<TileColliderDescriptor>,
    pub kinematic: KinematicManager,
    pub actors: ActorManager,
}

impl Scene {
    /// Every store is well-formed, the hierarchy and cache invariants
    /// hold, and every transform node belongs to an alive entity.
    pub open spec fn wf(self) -> bool {
        &&& self.world.wf()
        &&& self.transforms.wf()
        &&& self.colliders.wf()
        &&& self.managers.wf()
        &&& self.tile_colliders.wf()
        &&& tree_wf(self.transforms@)
        &&& cache_wf(self.transforms@)
        &&& colliders_wf(self.transforms@, self.colliders@)
        &&& manager_wf(self.managers@, self.colliders@)
        &&& self.tile_map.wf()
        &&& self.kinematic.wf(self.tile_map.materials)
        &&& forall|id: u64| #[trigger]
            self.transforms@.contains_key(id) ==> self.world.alive_ids().contains(id)
    }

    /// A scene with one root entity carrying the transform root, the
    /// collider manager and the kinematic mover's scope.
    pub fn create_game_root(seed: u64) -> (r: (Scene, Entity))
        ensures
            r.0.wf(),
            r.0.transforms@.contains_key(r.1.id),
            r.0.transforms@[r.1.id].parent is None,
            r.0.managers@.contains_key(r.1.id),
            r.0.kinematic.collider_mgr == r.1,
            r.0.world.spec_is_alive(r.1),
            r.0.world.spec_alive_count() == 1,
            r.0.tile_map.spec_layer_count() == 0,
            r.0.tile_map.materials.spec_len() == 0,
            r.0.colliders@ == Map::<u64, Collider>::empty(),
            r.0.managers@[r.1.id].colliders@.len() == 0,
            r.0.actors.queued_despawns@.len() == 0,
    {
        let mut world = World::new(seed);
        let root = world.spawn();
        let mut transforms: Storage<Transform> = Storage::new();
        Transform::new(&mut transforms, root, None);
        let mut managers: Storage<ColliderManager> = Storage::new();
        managers.insert(root.id, ColliderManager::new());
        let scene = Scene {
            world,
            transforms,
            colliders: Storage::new(),
            managers,
            tile_map: TileMap::new(),
            tile_colliders: Storage::new(),
            kinematic: KinematicManager::new(root),
            actors: ActorManager::new(),
        };
        (scene, root)
    }

    /// Spawn a fresh actor entity with a transform node under `parent`,
    /// recorded in the actor list.
    pub fn spawn_actor(&mut self, parent: Option<Entity>) -> (e: Entity)
        requires
            old(self).wf(),
            old(self).world.spec_alive_count() < crate::world::ALIVE_MAX,
            match parent {
                Some(p) => old(self).transforms@.contains_key(p.id),
                None => true,
            },
        ensures
            final(self).wf(),
            final(self).world.spec_is_alive(e),
            !old(self).world.spec_is_alive(e),
            final(self).transforms@.contains_key(e.id),
            !old(self).transforms@.contains_key(e.id),
            final(self).transforms@[e.id].parent == (match parent {
                Some(p) => Some(p.id),
                None => None::<u64>,
            }),
            final(self).transforms@.dom() == old(self).transforms@.dom().insert(e.id),
            final(self).colliders@ == old(self).colliders@,
            final(self).managers@ == old(self).managers@,
            final(self).tile_map == old(self).tile_map,
            final(self).kinematic == old(self).kinematic,
            final(self).tile_colliders@ == old(self).tile_colliders@,
            forall|o: u64|
                old(self).transforms@.contains_key(o) && Some(o) != (match parent {
                    Some(p) => Some(p.id),
                    None => None::<u64>,
                }) ==> final(self).transforms@[o] == old(self).transforms@[o],
            match parent {
                Some(p) => final(self).transforms@[p.id].children@ == old(
                    self,
                ).transforms@[p.id].children@.push(e.id) && final(self).transforms@[p.id].global
                    == old(self).transforms@[p.id].global && final(self).transforms@[p.id].local
                    == old(self).transforms@[p.id].local,
                None => true,
            },
    {
        let e = self.world.spawn();
        proof {
            if self.transforms@.contains_key(e.id) {
                assert(old(self).world.alive_ids().contains(e.id));
            }
        }
        Transform::new(&mut self.transforms, e, parent);
        self.actors.note_spawn(e);
        proof {
            assert forall|id: u64| #[trigger]
                self.transforms@.contains_key(id) implies self.world.alive_ids().contains(
                id,
            ) by {
                if id != e.id {
                    assert(old(self).transforms@.contains_key(id));
                }
            }
            assert forall|id: u64| #[trigger]
                self.colliders@.contains_key(id) implies self.transforms@.contains_key(id)
                && match self.colliders@[id].global_aabb {
                Some(g) => self.transforms@[id].global is Some && g
                    == crate::collider::spec_global_aabb(
                    self.transforms@[id].global->Some_0,
                    self.colliders@[id].local_aabb,
                ),
                None => true,
            } by {
                assert(old(self).transforms@.contains_key(id));
                assert(id != e.id);
                assert(self.transforms@[id].global == old(self).transforms@[id].global);
            }
        }
        e
    }

    /// Attach a collider with box `aabb` to `e`; the nearest collider
    /// manager at or above `e` lists it.
    pub fn attach_collider(&mut self, e: Entity, aabb: Aabb)
        requires
            old(self).wf(),
            old(self).transforms@.contains_key(e.id),
            !old(self).colliders@.contains_key(e.id),
            crate::transform::spec_deep_find(
                old(self).transforms@,
                old(self).managers@.dom(),
                e.id,
            ) is Some,
            old(self).managers@[crate::transform::spec_deep_find(
                old(self).transforms@,
                old(self).managers@.dom(),
                e.id,
            )->Some_0].colliders@.len() < DESPAWNED - 1,
        ensures
            final(self).wf(),
            final(self).colliders@.dom() == old(self).colliders@.dom().insert(e.id),
            final(self).colliders@[e.id].local_aabb == aabb,
            final(self).colliders@[e.id].global_aabb is None,
            final(self).colliders@[e.id].index_in_manager != DESPAWNED,
            final(self).transforms@ == old(self).transforms@,
            final(self).world == old(self).world,
            final(self).tile_map == old(self).tile_map,
            final(self).kinematic == old(self).kinematic,
            forall|id: u64|
                old(self).colliders@.contains_key(id) ==> final(self).colliders@[id] == old(
                    self,
                ).colliders@[id],
    {
        Collider::new(&self.transforms, &mut self.colliders, &mut self.managers, e, aabb);
    }

    /// Despawn `e` and its whole transform subtree: every subtree collider
    /// leaves its manager's list (the displaced entry's slot is fixed up)
    /// and is removed, the subtree's transform nodes are removed (the root
    /// leaving its parent's child list the same way), the entities die,
    /// and the live actor list forgets them. Nothing else changes, so no
    /// manager list is left pointing at a despawned collider.
    #[verifier::rlimit(100)]
    pub fn despawn_entity(&mut self, e: Entity)
        requires
            old(self).wf(),
            old(self).transforms@.contains_key(e.id),
        ensures
            final(self).wf(),
            forall|id: u64|
                final(self).transforms@.contains_key(id) == (old(self).transforms@.contains_key(
                    id,
                ) && !spec_is_descendant(old(self).transforms@, id, e.id)),
            forall|id: u64|
                final(self).colliders@.contains_key(id) == (old(self).colliders@.contains_key(id)
                    && !spec_is_descendant(old(self).transforms@, id, e.id)),
            !final(self).world.spec_is_alive(e),
            forall|id: u64|
                final(self).world.alive_ids().contains(id) == (old(
                    self,
                ).world.alive_ids().contains(id) && !(old(self).transforms@.contains_key(id)
                    && spec_is_descendant(old(self).transforms@, id, e.id))),
            forall|id: u64| #[trigger]
                final(self).transforms@.contains_key(id) ==> final(self).transforms@[id].parent
                    == old(self).transforms@[id].parent && final(self).transforms@[id].local
                    == old(self).transforms@[id].local && final(self).transforms@[id].depth
                    == old(self).transforms@[id].depth && final(self).transforms@[id].global
                    == old(self).transforms@[id].global,
            final(self).managers@.dom() == old(self).managers@.dom(),
            final(self).tile_map == old(self).tile_map,
            final(self).kinematic == old(self).kinematic,
            final(self).tile_colliders@ == old(self).tile_colliders@,
            final(self).actors.queued_despawns@ == old(self).actors.queued_despawns@,
    {
        let ghost m0 = self.transforms@;
        proof {
            self.transforms.lemma_dom_finite();
        }
        let ghost n = m0.dom().len();
        // Collect the subtree: everything at or below e.
        let mut stack: Vec<u64> = Vec::new();
        stack.push(e.id);
        proof {
            assert(stack@[0] == e.id);
            assert(stack@.contains(e.id));
        }
        let mut visited: Vec<u64> = Vec::new();
        while stack.len() > 0
            invariant
                self.transforms.wf(),
                self.transforms@ == m0,
                self.world == old(self).world,
                self.colliders == old(self).colliders,
                self.managers == old(self).managers,
                self.tile_map == old(self).tile_map,
                self.kinematic == old(self).kinematic,
                self.tile_colliders == old(self).tile_colliders,
                self.actors == old(self).actors,
                tree_wf(m0),
                m0.contains_key(e.id),
                m0.dom().finite(),
                n == m0.dom().len(),
                forall|i: int|
                    0 <= i < stack@.len() ==> m0.contains_key(#[trigger] stack@[i])
                        && spec_is_descendant(m0, stack@[i], e.id),
                visited@.no_duplicates(),
                forall|i: int|
                    0 <= i < visited@.len() ==> m0.dom().contains(#[trigger] visited@[i])
                        && spec_is_descendant(m0, visited@[i], e.id),
                visited@.len() <= n,
                forall|i: int, j: int|
                    0 <= i < visited@.len() && 0 <= j < m0[#[trigger] visited@[i]].children@.len()
                        ==> visited@.contains(#[trigger] m0[visited@[i]].children@[j])
                        || stack@.contains(m0[visited@[i]].children@[j]),
                visited@.contains(e.id) || stack@.contains(e.id),
            decreases n - visited@.len(), stack@.len(),
        {
            let ghost prior_stack = stack@;
            let m = stack.pop().unwrap();
            proof {
                assert(stack@ =~= prior_stack.drop_last());
                assert forall|v: u64| stack@.contains(v) implies prior_stack.contains(v) by {
                    let i = choose|i: int| 0 <= i < stack@.len() && stack@[i] == v;
                    assert(prior_stack[i] == v);
                }
            }
            if !contains_id(&visited, m) {
                let ghost prior_visited = visited@;
                visited.push(m);
                proof {
                    assert forall|i: int|
                        0 <= i < visited@.len() implies m0.dom().contains(#[trigger] visited@[i])
                        && spec_is_descendant(m0, visited@[i], e.id) by {
                        if i < visited@.len() - 1 {
                            assert(visited@[i] == prior_visited[i]);
                        }
                    }
                    lemma_visited_bound(visited@, m0.dom());
                }
                let kids = Transform::children_ids(&self.transforms, m);
                let ghost stack_before = stack@;
                push_all(&mut stack, &kids);
                proof {
                    assert forall|i: int, j: int|
                        0 <= i < visited@.len() && 0 <= j < m0[
                        #[trigger] visited@[i]].children@.len() implies visited@.contains(
                        #[trigger] m0[visited@[i]].children@[j],
                    ) || stack@.contains(m0[visited@[i]].children@[j]) by {
                        let c = m0[visited@[i]].children@[j];
                        if i == visited@.len() - 1 {
                            assert(stack@[stack_before.len() + j] == c);
                        } else {
                            assert(visited@[i] == prior_visited[i]);
                            if prior_visited.contains(c) {
                                let w = choose|w: int|
                                    0 <= w < prior_visited.len() && prior_visited[w] == c;
                                assert(visited@[w] == c);
                            } else {
                                assert(prior_stack.contains(c));
                                let w = choose|w: int|
                                    0 <= w < prior_stack.len() && prior_stack[w] == c;
                                if w == prior_stack.len() - 1 {
                                    assert(c == m);
                                    assert(visited@.last() == c);
                                } else {
                                    assert(stack@[w] == c);
                                }
                            }
                        }
                    }
                    assert forall|i: int|
                        0 <= i < stack@.len() implies m0.contains_key(#[trigger] stack@[i])
                        && spec_is_descendant(m0, stack@[i], e.id) by {
                        if i < stack_before.len() {
                            assert(stack@[i] == stack_before[i]);
                        } else {
                            assert(stack@[i] == m0[m].children@[i - stack_before.len()]);
                        }
                    }
                    assert(visited@.contains(e.id) || stack@.contains(e.id)) by {
                        if m == e.id {
                            assert(visited@.last() == e.id);
                        } else if prior_visited.contains(e.id) {
                            let w = choose|w: int|
                                0 <= w < prior_visited.len() && prior_visited[w] == e.id;
                            assert(visited@[w] == e.id);
                        } else {
                            let w = choose|w: int|
                                0 <= w < prior_stack.len() && prior_stack[w] == e.id;
                            assert(w < prior_stack.len() - 1);
                            assert(stack@[w] == e.id);
                        }
                    }
                }
            } else {
                proof {
                    assert(visited@.contains(e.id) || stack@.contains(e.id)) by {
                        if !visited@.contains(e.id) {
                            let w = choose|w: int|
                                0 <= w < prior_stack.len() && prior_stack[w] == e.id;
                            if w == prior_stack.len() - 1 {
                                assert(m == e.id);
                                assert(visited@.contains(m));
                            } else {
                                assert(stack@[w] == e.id);
                            }
                        }
                    }
                    assert forall|i: int, j: int|
                        0 <= i < visited@.len() && 0 <= j < m0[
                        #[trigger] visited@[i]].children@.len() implies visited@.contains(
                        #[trigger] m0[visited@[i]].children@[j],
                    ) || stack@.contains(m0[visited@[i]].children@[j]) by {
                        let c = m0[visited@[i]].children@[j];
                        if !visited@.contains(c) {
                            assert(prior_stack.contains(c));
                            let w = choose|w: int|
                                0 <= w < prior_stack.len() && prior_stack[w] == c;
                            if w == prior_stack.len() - 1 {
                                assert(c == m);
                                assert(visited@.contains(m));
                            } else {
                                assert(stack@[w] == c);
                            }
                        }
                    }
                }
            }
        }
        let ghost sub = visited@;
        proof {
            // the collected set is exactly the subtree of e
            assert(sub.contains(e.id));
            assert forall|id: u64|
                m0.contains_key(id) && spec_is_descendant(m0, id, e.id) implies sub.contains(
                id,
            ) by {
                lemma_descendants_collected(m0, sub, e.id, id);
            }
        }
        // Despawn and remove every subtree collider.
        let ghost c0 = self.colliders@;
        let mut i: usize = 0;
        while i < visited.len()
            invariant
                self.colliders.wf(),
                self.managers.wf(),
                manager_wf(self.managers@, self.colliders@),
                colliders_wf(m0, self.colliders@),
                self.transforms@ == m0,
                self.transforms.wf(),
                self.world == old(self).world,
                self.tile_map == old(self).tile_map,
                self.kinematic == old(self).kinematic,
                self.tile_colliders == old(self).tile_colliders,
                self.actors == old(self).actors,
                self.managers@.dom() == old(self).managers@.dom(),
                visited@ == sub,
                0 <= i <= sub.len(),
                forall|id: u64| #[trigger]
                    self.colliders@.contains_key(id) == (c0.contains_key(id) && !sub.take(
                        i as int,
                    ).contains(id)),
                forall|id: u64| #[trigger]
                    self.colliders@.contains_key(id) ==> self.colliders@[id].local_aabb == c0[
                    id].local_aabb && self.colliders@[id].global_aabb == c0[id].global_aabb
                        && self.colliders@[id].manager == c0[id].manager,
            decreases sub.len() - i,
        {
            let id = visited[i];
            if self.colliders.has(id) {
                let despawned_already = self.colliders.get(id).index_in_manager == DESPAWNED;
                if !despawned_already {
                    Collider::despawn(&mut self.colliders, &mut self.managers, Entity { id });
                }
                let ghost cmid = self.colliders@;
                self.colliders.remove(id);
                proof {
                    assert(cmid[id].index_in_manager == DESPAWNED);
                    assert forall|mid: u64| #[trigger]
                        self.managers@.contains_key(mid) implies forall|j: int|
                        0 <= j < self.managers@[mid].colliders@.len() ==> {
                            let cid = #[trigger] self.managers@[mid].colliders@[j];
                            self.colliders@.contains_key(cid) && self.colliders@[cid].manager
                                == mid && self.colliders@[cid].index_in_manager == j
                        } by {
                        assert forall|j: int|
                            0 <= j < self.managers@[mid].colliders@.len() implies {
                            let cid = #[trigger] self.managers@[mid].colliders@[j];
                            self.colliders@.contains_key(cid) && self.colliders@[cid].manager
                                == mid && self.colliders@[cid].index_in_manager == j
                        } by {
                            let cid = self.managers@[mid].colliders@[j];
                            assert(cmid.contains_key(cid) && cmid[cid].index_in_manager == j);
                            assert(j < DESPAWNED);
                            assert(cid != id);
                        }
                    }
                }
            }
            i = i + 1;
            proof {
                assert(sub.take(i as int) =~= sub.take(i - 1).push(sub[i - 1]));
                assert forall|id2: u64| #[trigger]
                    self.colliders@.contains_key(id2) == (c0.contains_key(id2) && !sub.take(
                        i as int,
                    ).contains(id2)) by {
                    if sub.take(i as int).contains(id2) {
                        let w = choose|w: int|
                            0 <= w < i && #[trigger] sub.take(i as int)[w] == id2;
                        if w < i - 1 {
                            assert(sub.take(i - 1)[w] == id2);
                            assert(sub.take(i - 1).contains(id2));
                        }
                    } else {
                        assert(!sub.take(i - 1).contains(id2)) by {
                            if sub.take(i - 1).contains(id2) {
                                let w = choose|w: int|
                                    0 <= w < i - 1 && #[trigger] sub.take(i - 1)[w] == id2;
                                assert(sub.take(i as int)[w] == id2);
                            }
                        }
                        assert(id2 != sub[i - 1]) by {
                            if id2 == sub[i - 1] {
                                assert(sub.take(i as int)[i - 1] == id2);
                            }
                        }
                    }
                }
            }
        }
        // Unhook the subtree root from its parent, the displaced sibling
        // taking over the slot.
        let ghost c1 = self.colliders@;
        let root_parent = self.transforms.get(e.id).parent;
        let root_index = self.transforms.get(e.id).index_in_parent;
        match root_parent {
            Some(p) => {
                proof {
                    lemma_descendant_not_above(m0, e.id, p);
                    assert(m0[p].children@[root_index as int] == e.id);
                }
                let ghost old_kids = self.transforms@[p].children@;
                let pn = self.transforms.get_mut(p);
                pn.children.swap_remove(root_index);
                proof {
                    assert(self.transforms@[p].children@ =~= old_kids.update(
                        root_index as int,
                        old_kids.last(),
                    ).drop_last());
                }
                let plen = self.transforms.get(p).children.len();
                if root_index < plen {
                    let moved = self.transforms.get(p).children[root_index];
                    proof {
                        assert(moved == old_kids.last());
                        assert(m0[moved].index_in_parent == old_kids.len() - 1);
                        assert(moved != e.id) by {
                            if moved == e.id {
                                assert(m0[e.id].index_in_parent == root_index);
                            }
                        }
                    }
                    let mn = self.transforms.get_mut(moved);
                    mn.index_in_parent = root_index;
                }
            },
            None => {},
        }
        let ghost m1 = self.transforms@;
        // Remove the subtree's transform nodes, kill the entities, forget
        // the actors.
        let mut i2: usize = 0;
        while i2 < visited.len()
            invariant
                self.transforms.wf(),
                self.world.wf(),
                self.tile_map == old(self).tile_map,
                self.kinematic == old(self).kinematic,
                self.tile_colliders == old(self).tile_colliders,
                self.actors.queued_despawns@ == old(self).actors.queued_despawns@,
                visited@ == sub,
                sub.no_duplicates(),
                0 <= i2 <= sub.len(),
                forall|id: u64|
                    #[trigger] self.transforms@.contains_key(id) == (m1.contains_key(id)
                        && !sub.take(i2 as int).contains(id)),
                forall|id: u64| #[trigger]
                    self.transforms@.contains_key(id) ==> self.transforms@[id] == m1[id],
                forall|id: u64|
                    #[trigger] self.world.alive_ids().contains(id) == (old(
                        self,
                    ).world.alive_ids().contains(id) && !sub.take(i2 as int).contains(id)),
                forall|j: int|
                    0 <= j < sub.len() ==> m1.contains_key(#[trigger] sub[j]),
                forall|j: int|
                    i2 <= j < sub.len() ==> old(self).world.alive_ids().contains(
                        #[trigger] sub[j],
                    ),
                self.colliders@ == c1,
                self.colliders.wf(),
                self.managers.wf(),
                self.managers@.dom() == old(self).managers@.dom(),
                manager_wf(self.managers@, self.colliders@),
            decreases sub.len() - i2,
        {
            let id = visited[i2];
            self.transforms.remove(id);
            proof {
                assert(!sub.take(i2 as int).contains(sub[i2 as int]));
            }
            self.world.destroy(Entity { id });
            self.actors.forget(id);
            i2 = i2 + 1;
            proof {
                assert(sub.take(i2 as int) =~= sub.take(i2 - 1).push(sub[i2 - 1]));
                assert forall|id2: u64|
                    #[trigger] self.transforms@.contains_key(id2) == (m1.contains_key(id2)
                        && !sub.take(i2 as int).contains(id2)) by {
                    lemma_take_push_contains(sub, i2 as int, id2);
                }
                assert forall|id2: u64|
                    #[trigger] self.world.alive_ids().contains(id2) == (old(
                        self,
                    ).world.alive_ids().contains(id2) && !sub.take(i2 as int).contains(
                        id2,
                    )) by {
                    lemma_take_push_contains(sub, i2 as int, id2);
                }
            }
        }
        proof {
            assert(sub.take(sub.len() as int) =~= sub);
            let mf = self.transforms@;
            // remaining nodes: outside the subtree, fields as after the
            // root detach
            assert forall|id: u64| #[trigger] mf.contains_key(id) implies {
                let nn = mf[id];
                &&& match nn.parent {
                    Some(pp) => mf.contains_key(pp) && mf[pp].depth@ + 1 == nn.depth@
                        && nn.index_in_parent < mf[pp].children@.len() && mf[pp].children@[
                        nn.index_in_parent as int
                    ] == id,
                    None => nn.depth@ == 0,
                }
                &&& forall|j: int|
                    0 <= j < nn.children@.len() ==> {
                        let c = #[trigger] nn.children@[j];
                        mf.contains_key(c) && mf[c].parent == Some(id) && mf[c].index_in_parent
                            == j
                    }
            } by {
                assert(m1.contains_key(id) && !sub.contains(id));
                assert(m0.contains_key(id));
                match mf[id].parent {
                    Some(pp) => {
                        assert(mf[id].parent == m0[id].parent);
                        assert(!sub.contains(pp)) by {
                            if sub.contains(pp) {
                                assert(spec_is_descendant(m0, pp, e.id));
                                assert(spec_is_descendant(m0, id, e.id));
                                assert(sub.contains(id));
                            }
                        }
                        assert(mf.contains_key(pp));
                        match root_parent {
                            Some(p) => {
                                let old_kids = m0[p].children@;
                                if pp == p && id != old_kids.last() {
                                    assert(mf[id].index_in_parent == m0[id].index_in_parent);
                                    assert(m0[id].index_in_parent != root_index) by {
                                        if m0[id].index_in_parent == root_index {
                                            assert(old_kids[root_index as int] == e.id);
                                            assert(old_kids[m0[id].index_in_parent as int]
                                                == id);
                                        }
                                    }
                                    assert(m0[id].index_in_parent != old_kids.len() - 1) by {
                                        if m0[id].index_in_parent == old_kids.len() - 1 {
                                            assert(old_kids[old_kids.len() - 1] == id);
                                        }
                                    }
                                    assert(mf[pp].children@[mf[id].index_in_parent as int]
                                        == id);
                                } else if pp == p {
                                    assert(mf[id].index_in_parent == root_index);
                                    assert(mf[pp].children@[root_index as int] == id);
                                } else {
                                    assert(mf[pp].children@ == m0[pp].children@);
                                    assert(mf[id].index_in_parent == m0[id].index_in_parent);
                                }
                            },
                            None => {
                                assert(mf[pp].children@ == m0[pp].children@);
                                assert(mf[id].index_in_parent == m0[id].index_in_parent);
                            },
                        }
                    },
                    None => {},
                }
                assert forall|j: int| 0 <= j < mf[id].children@.len() implies {
                    let c = #[trigger] mf[id].children@[j];
                    mf.contains_key(c) && mf[c].parent == Some(id) && mf[c].index_in_parent
                        == j
                } by {
                    let c = mf[id].children@[j];
                    let is_old_parent = match root_parent {
                        Some(p) => id == p,
                        None => false,
                    };
                    if is_old_parent {
                        let p = root_parent->Some_0;
                        let old_kids = m0[p].children@;
                        if j == root_index && root_index < old_kids.len() - 1 {
                            assert(c == old_kids.last());
                            assert(m0[c].index_in_parent == old_kids.len() - 1);
                            assert(m0[c].parent == Some(p));
                            assert(c != e.id) by {
                                if c == e.id {
                                    assert(m0[e.id].index_in_parent == root_index);
                                }
                            }
                            assert(!sub.contains(c)) by {
                                if sub.contains(c) {
                                    assert(spec_is_descendant(m0, c, e.id));
                                    assert(spec_is_descendant(m0, id, e.id));
                                    assert(sub.contains(id));
                                }
                            }
                            assert(mf.contains_key(c));
                            assert(mf[c].index_in_parent == root_index);
                            assert(mf[c].parent == Some(id));
                        } else {
                            assert(c == old_kids[j]);
                            assert(m0[c].parent == Some(id));
                            assert(m0[c].index_in_parent == j);
                            assert(c != e.id) by {
                                if c == e.id {
                                    assert(m0[e.id].index_in_parent == root_index);
                                }
                            }
                            assert(c != old_kids.last() || j == old_kids.len() - 1) by {
                                if c == old_kids.last() {
                                    assert(m0[c].index_in_parent == old_kids.len() - 1);
                                }
                            }
                            assert(!sub.contains(c)) by {
                                if sub.contains(c) {
                                    assert(spec_is_descendant(m0, c, e.id));
                                    assert(spec_is_descendant(m0, id, e.id));
                                    assert(sub.contains(id));
                                }
                            }
                            assert(mf.contains_key(c));
                            assert(mf[c].parent == Some(id));
                            assert(mf[c].index_in_parent == j);
                        }
                    } else {
                        assert(mf[id].children@ == m0[id].children@);
                        assert(m0[c].parent == Some(id));
                        assert(m0[c].index_in_parent == j);
                        assert(c != e.id) by {
                            if c == e.id {
                                match root_parent {
                                    Some(p) => {
                                        assert(m0[e.id].parent == Some(p));
                                    },
                                    None => {
                                        assert(m0[e.id].parent is None);
                                    },
                                }
                            }
                        }
                        assert(!sub.contains(c)) by {
                            if sub.contains(c) {
                                assert(spec_is_descendant(m0, c, e.id));
                                assert(spec_is_descendant(m0, id, e.id));
                                assert(sub.contains(id));
                            }
                        }
                        assert(mf.contains_key(c));
                        let moved_case = match root_parent {
                            Some(p) => root_index < m0[p].children@.len() - 1 && c == m0[
                            p].children@.last(),
                            None => false,
                        };
                        if moved_case {
                            assert(m0[c].parent == root_parent);
                            assert(id == root_parent->Some_0);
                        }
                        assert(mf[c].parent == Some(id));
                        assert(mf[c].index_in_parent == j);
                    }
                }
            }
            assert(cache_wf(mf)) by {
                assert forall|id: u64| #[trigger] mf.contains_key(id) implies crate::transform::cache_ok(
                    mf,
                    id,
                ) by {
                    assert(m0.contains_key(id) && !sub.contains(id));
                    assert(mf[id].global == m0[id].global && mf[id].local == m0[id].local
                        && mf[id].parent == m0[id].parent);
                    match mf[id].global {
                        Some(g) => {
                            match mf[id].parent {
                                Some(pp) => {
                                    assert(!sub.contains(pp)) by {
                                        if sub.contains(pp) {
                                            assert(spec_is_descendant(m0, pp, e.id));
                                            assert(spec_is_descendant(m0, id, e.id));
                                            assert(sub.contains(id));
                                        }
                                    }
                                    assert(mf.contains_key(pp));
                                    assert(mf[pp].global == m0[pp].global);
                                },
                                None => {},
                            }
                        },
                        None => {},
                    }
                }
            }
            assert(colliders_wf(mf, self.colliders@)) by {
                assert forall|id: u64| #[trigger]
                    self.colliders@.contains_key(id) implies mf.contains_key(id) && match self.colliders@[
                id].global_aabb {
                    Some(g) => mf[id].global is Some && g == crate::collider::spec_global_aabb(
                        mf[id].global->Some_0,
                        self.colliders@[id].local_aabb,
                    ),
                    None => true,
                } by {
                    assert(c0.contains_key(id) && !sub.contains(id));
                    assert(m0.contains_key(id));
                    assert(mf.contains_key(id));
                    assert(mf[id].global == m0[id].global);
                    assert(self.colliders@[id].global_aabb == c0[id].global_aabb);
                    assert(self.colliders@[id].local_aabb == c0[id].local_aabb);
                }
            }
            assert forall|id: u64| #[trigger]
                self.transforms@.contains_key(id) implies self.world.alive_ids().contains(
                id,
            ) by {
                assert(m0.contains_key(id) && !sub.contains(id));
            }
            assert(!self.world.spec_is_alive(e)) by {
                assert(sub.contains(e.id));
            }
        }
    }

    /// Defer `e`'s despawn to the next [`Scene::process_despawns`].
    pub fn queue_despawn(&mut self, e: Entity)
        requires
            old(self).wf(),
        ensures
            final(self).wf(),
            final(self).actors.queued_despawns@ == old(self).actors.queued_despawns@.push(e.id),
            final(self).transforms@ == old(self).transforms@,
            final(self).world == old(self).world,
            final(self).colliders@ == old(self).colliders@,
    {
        self.actors.queue_despawn(e);
    }
}


/// Whether some queued despawn at slot `k` or later tears `id` down: a
/// queued entity there has a transform node and `id` sits in its subtree.
pub open spec fn queued_removes_from(
    queue: Seq<u64>,
    m: Map<u64, Transform>,
    k: int,
    id: u64,
) -> bool {
    exists|j: int|
        k <= j < queue.len() && m.contains_key(#[trigger] queue[j]) && spec_is_descendant(
            m,
            id,
            queue[j],
        )
}

/// Whether the scene's pending despawn queue tears `id` down.
pub open spec fn queued_removes(s: Scene, id: u64) -> bool {
    queued_removes_from(s.actors.queued_despawns@, s.transforms@, 0, id)
}

impl Scene {
    /// Flush the despawn queue: every entity a queued despawn reaches —
    /// the queued entities and their whole transform subtrees — is torn
    /// down exactly as [`Scene::despawn_entity`] does, and nothing else
    /// is; an entity already gone by its turn (queued twice, or inside an
    /// earlier subtree) is skipped harmlessly.
    pub fn process_despawns(&mut self)
        requires
            old(self).wf(),
        ensures
            final(self).wf(),
            final(self).actors.queued_despawns@.len() == 0,
            final(self).tile_map == old(self).tile_map,
            final(self).kinematic == old(self).kinematic,
            final(self).tile_colliders@ == old(self).tile_colliders@,
            forall|id: u64|
                final(self).transforms@.contains_key(id) == (old(self).transforms@.contains_key(
                    id,
                ) && !queued_removes(*old(self), id)),
            forall|id: u64|
                final(self).colliders@.contains_key(id) == (old(self).colliders@.contains_key(id)
                    && !queued_removes(*old(self), id)),
            forall|id: u64|
                final(self).world.alive_ids().contains(id) == (old(
                    self,
                ).world.alive_ids().contains(id) && !(old(self).transforms@.contains_key(id)
                    && queued_removes(*old(self), id))),
    {
        let ghost qq = old(self).actors.queued_despawns@;
        let ghost m0 = old(self).transforms@;
        while self.actors.queued_despawns.len() > 0
            invariant
                old(self).wf(),
                qq == old(self).actors.queued_despawns@,
                m0 == old(self).transforms@,
                self.wf(),
                self.tile_map == old(self).tile_map,
                self.kinematic == old(self).kinematic,
                self.tile_colliders@ == old(self).tile_colliders@,
                self.actors.queued_despawns@.len() <= qq.len(),
                self.actors.queued_despawns@ == qq.take(
                    self.actors.queued_despawns@.len() as int,
                ),
                forall|id: u64| #[trigger]
                    self.transforms@.contains_key(id) ==> m0.contains_key(id)
                        && self.transforms@[id].parent == m0[id].parent && self.transforms@[
                    id].depth == m0[id].depth,
                forall|id: u64|
                    #[trigger] self.transforms@.contains_key(id) == (m0.contains_key(id)
                        && !queued_removes_from(
                        qq,
                        m0,
                        self.actors.queued_despawns@.len() as int,
                        id,
                    )),
                forall|id: u64|
                    #[trigger] self.colliders@.contains_key(id) == (old(
                        self,
                    ).colliders@.contains_key(id) && !queued_removes_from(
                        qq,
                        m0,
                        self.actors.queued_despawns@.len() as int,
                        id,
                    )),
                forall|id: u64|
                    #[trigger] self.world.alive_ids().contains(id) == (old(
                        self,
                    ).world.alive_ids().contains(id) && !(m0.contains_key(id)
                        && queued_removes_from(
                        qq,
                        m0,
                        self.actors.queued_despawns@.len() as int,
                        id,
                    ))),
            decreases self.actors.queued_despawns@.len(),
        {
            let ghost k = self.actors.queued_despawns@.len() as int;
            let id = self.actors.queued_despawns.pop().unwrap();
            proof {
                assert(qq.take(k).last() == qq[k - 1]);
                assert(self.actors.queued_despawns@ =~= qq.take(k - 1));
            }
            let e = Entity { id };
            let ghost cur = *self;
            let alive_now = self.world.is_alive(e);
            let has_node = self.transforms.has(id);
            if alive_now && has_node {
                self.despawn_entity(e);
                proof {
                    lemma_flush_step_processed(*old(self), cur, *self, qq, m0, k, id);
                }
            } else {
                proof {
                    lemma_flush_step_skipped(*old(self), cur, qq, m0, k, id);
                }
            }
        }
        proof {
            assert(self.actors.queued_despawns@ =~= qq.take(0));
        }
    }
}

/// One flush step that despawned `q = queue[k-1]`: the removal set grows
/// by exactly `q`'s subtree in the initial map.
proof fn lemma_flush_step_processed(
    s0: Scene,
    cur: Scene,
    nxt: Scene,
    qq: Seq<u64>,
    m0: Map<u64, Transform>,
    k: int,
    q: u64,
)
    requires
        s0.wf(),
        cur.wf(),
        m0 == s0.transforms@,
        1 <= k <= qq.len(),
        q == qq[k - 1],
        cur.transforms@.contains_key(q),
        // the state entering the step, characterized against the start
        forall|id: u64| #[trigger]
            cur.transforms@.contains_key(id) ==> m0.contains_key(id) && cur.transforms@[
            id].parent == m0[id].parent && cur.transforms@[id].depth == m0[id].depth,
        forall|id: u64|
            #[trigger] cur.transforms@.contains_key(id) == (m0.contains_key(id)
                && !queued_removes_from(qq, m0, k, id)),
        forall|id: u64|
            #[trigger] cur.colliders@.contains_key(id) == (s0.colliders@.contains_key(id)
                && !queued_removes_from(qq, m0, k, id)),
        forall|id: u64|
            #[trigger] cur.world.alive_ids().contains(id) == (s0.world.alive_ids().contains(id)
                && !(m0.contains_key(id) && queued_removes_from(qq, m0, k, id))),
        forall|id: u64| #[trigger]
            s0.colliders@.contains_key(id) ==> m0.contains_key(id),
        // what the despawn did, against the entering state
        forall|id: u64|
            #[trigger] nxt.transforms@.contains_key(id) == (cur.transforms@.contains_key(id)
                && !spec_is_descendant(cur.transforms@, id, q)),
        forall|id: u64|
            #[trigger] nxt.colliders@.contains_key(id) == (cur.colliders@.contains_key(id)
                && !spec_is_descendant(cur.transforms@, id, q)),
        forall|id: u64|
            #[trigger] nxt.world.alive_ids().contains(id) == (cur.world.alive_ids().contains(id)
                && !(cur.transforms@.contains_key(id) && spec_is_descendant(
                cur.transforms@,
                id,
                q,
            ))),
        forall|id: u64| #[trigger]
            nxt.transforms@.contains_key(id) ==> nxt.transforms@[id].parent == cur.transforms@[
            id].parent && nxt.transforms@[id].depth == cur.transforms@[id].depth,
        tree_wf(cur.transforms@),
        tree_wf(m0),
        crate::collider::colliders_wf(cur.transforms@, cur.colliders@),
    ensures
        forall|id: u64| #[trigger]
            nxt.transforms@.contains_key(id) ==> m0.contains_key(id) && nxt.transforms@[
            id].parent == m0[id].parent && nxt.transforms@[id].depth == m0[id].depth,
        forall|id: u64|
            #[trigger] nxt.transforms@.contains_key(id) == (m0.contains_key(id)
                && !queued_removes_from(qq, m0, k - 1, id)),
        forall|id: u64|
            #[trigger] nxt.colliders@.contains_key(id) == (s0.colliders@.contains_key(id)
                && !queued_removes_from(qq, m0, k - 1, id)),
        forall|id: u64|
            #[trigger] nxt.world.alive_ids().contains(id) == (s0.world.alive_ids().contains(id)
                && !(m0.contains_key(id) && queued_removes_from(qq, m0, k - 1, id))),
{
    let mc = cur.transforms@;
    assert(m0.contains_key(q));
    // in the entering map, subtree membership agrees with the initial map
    assert forall|id: u64| #[trigger] mc.contains_key(id) implies spec_is_descendant(mc, id, q)
        == spec_is_descendant(m0, id, q) by {
        lemma_descendant_in_submap(m0, mc, id, q);
    }
    // the removal set one slot earlier is the old set plus q's subtree
    assert forall|id: u64| m0.contains_key(id) implies queued_removes_from(qq, m0, k - 1, id)
        == (queued_removes_from(qq, m0, k, id) || spec_is_descendant(m0, id, q)) by {
        if queued_removes_from(qq, m0, k - 1, id) {
            let j = choose|j: int|
                k - 1 <= j < qq.len() && m0.contains_key(#[trigger] qq[j])
                    && spec_is_descendant(m0, id, qq[j]);
            if j >= k {
                assert(queued_removes_from(qq, m0, k, id));
            } else {
                assert(spec_is_descendant(m0, id, q));
            }
        }
        if queued_removes_from(qq, m0, k, id) {
            let j = choose|j: int|
                k <= j < qq.len() && m0.contains_key(#[trigger] qq[j]) && spec_is_descendant(
                    m0,
                    id,
                    qq[j],
                );
            assert(queued_removes_from(qq, m0, k - 1, id));
        }
        if spec_is_descendant(m0, id, q) {
            assert(m0.contains_key(qq[k - 1]) && spec_is_descendant(m0, id, qq[k - 1]));
            assert(queued_removes_from(qq, m0, k - 1, id));
        }
    }
    assert forall|id: u64|
        #[trigger] nxt.transforms@.contains_key(id) == (m0.contains_key(id)
            && !queued_removes_from(qq, m0, k - 1, id)) by {
        if mc.contains_key(id) {
        } else {
            assert(!nxt.transforms@.contains_key(id));
            if m0.contains_key(id) && !queued_removes_from(qq, m0, k - 1, id) {
                assert(!queued_removes_from(qq, m0, k, id));
                assert(mc.contains_key(id));
            }
        }
    }
    assert forall|id: u64|
        #[trigger] nxt.colliders@.contains_key(id) == (s0.colliders@.contains_key(id)
            && !queued_removes_from(qq, m0, k - 1, id)) by {
        if cur.colliders@.contains_key(id) {
            assert(mc.contains_key(id));
        } else {
            assert(!nxt.colliders@.contains_key(id));
            if s0.colliders@.contains_key(id) && !queued_removes_from(qq, m0, k - 1, id) {
                assert(!queued_removes_from(qq, m0, k, id));
                assert(cur.colliders@.contains_key(id));
            }
        }
    }
    assert forall|id: u64|
        #[trigger] nxt.world.alive_ids().contains(id) == (s0.world.alive_ids().contains(id)
            && !(m0.contains_key(id) && queued_removes_from(qq, m0, k - 1, id))) by {
        if mc.contains_key(id) {
        } else {
            assert(!(mc.contains_key(id) && spec_is_descendant(mc, id, q)));
            assert(nxt.world.alive_ids().contains(id) == cur.world.alive_ids().contains(id));
            if m0.contains_key(id) && !queued_removes_from(qq, m0, k, id) {
                assert(mc.contains_key(id));
            }
        }
    }
}

/// One flush step that skipped `q = queue[k-1]` (dead or without a
/// transform): the removal set does not grow, because `q`'s subtree, if it
/// ever existed, was already inside an earlier-processed one.
proof fn lemma_flush_step_skipped(
    s0: Scene,
    cur: Scene,
    qq: Seq<u64>,
    m0: Map<u64, Transform>,
    k: int,
    q: u64,
)
    requires
        s0.wf(),
        cur.wf(),
        m0 == s0.transforms@,
        1 <= k <= qq.len(),
        q == qq[k - 1],
        !cur.transforms@.contains_key(q) || !cur.world.alive_ids().contains(q),
        forall|id: u64|
            #[trigger] cur.transforms@.contains_key(id) == (m0.contains_key(id)
                && !queued_removes_from(qq, m0, k, id)),
        tree_wf(m0),
    ensures
        forall|id: u64|
            m0.contains_key(id) ==> queued_removes_from(qq, m0, k - 1, id)
                == queued_removes_from(qq, m0, k, id),
{
    assert(!cur.transforms@.contains_key(q)) by {
        if cur.transforms@.contains_key(q) {
            assert(cur.world.alive_ids().contains(q));
        }
    }
    assert forall|id: u64| m0.contains_key(id) implies queued_removes_from(qq, m0, k - 1, id)
        == queued_removes_from(qq, m0, k, id) by {
        if queued_removes_from(qq, m0, k - 1, id) && !queued_removes_from(qq, m0, k, id) {
            let j = choose|j: int|
                k - 1 <= j < qq.len() && m0.contains_key(#[trigger] qq[j])
                    && spec_is_descendant(m0, id, qq[j]);
            assert(j == k - 1);
            assert(m0.contains_key(q) && spec_is_descendant(m0, id, q));
            // q itself was already removed by a later-queued subtree
            assert(queued_removes_from(qq, m0, k, q));
            let jj = choose|jj: int|
                k <= jj < qq.len() && m0.contains_key(#[trigger] qq[jj]) && spec_is_descendant(
                    m0,
                    q,
                    qq[jj],
                );
            lemma_descendant_trans(m0, id, q, qq[jj]);
            assert(queued_removes_from(qq, m0, k, id));
        }
        if queued_removes_from(qq, m0, k, id) {
            let j = choose|j: int|
                k <= j < qq.len() && m0.contains_key(#[trigger] qq[j]) && spec_is_descendant(
                    m0,
                    id,
                    qq[j],
                );
            assert(queued_removes_from(qq, m0, k - 1, id));
        }
    }
}

/// Subtree membership reads only the parent chain, which a restriction of
/// the store to surviving nodes preserves.
proof fn lemma_descendant_in_submap(
    big: Map<u64, Transform>,
    small: Map<u64, Transform>,
    id: u64,
    t: u64,
)
    requires
        tree_wf(big),
        tree_wf(small),
        small.contains_key(id),
        forall|v: u64| #[trigger]
            small.contains_key(v) ==> big.contains_key(v) && small[v].parent == big[v].parent
                && small[v].depth == big[v].depth,
    ensures
        spec_is_descendant(small, id, t) == spec_is_descendant(big, id, t),
    decreases small[id].depth@,
{
    if id != t {
        match small[id].parent {
            Some(p) => {
                lemma_descendant_in_submap(big, small, p, t);
            },
            None => {},
        }
    }
}



} // verus!
