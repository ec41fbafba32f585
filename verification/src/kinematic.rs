//! The kinematic mover: merges tile-derived and collider-derived obstacles
//! into one broad query, and resolves movement axis by axis so a mover
//! slides along walls instead of sticking to corners.
//!
//! The broad query's contract names every obstacle exactly — each yielded
//! box really stands in the queried region ([`tile_obstacle`],
//! soundness) and every such box is yielded (completeness) — and the
//! resolved move is pinned down as the largest displacement no obstacle
//! forbids.

use vstd::prelude::*;
use crate::aabb::{add_magnitude, Aabb, Axis2, Vec2I};
use crate::collider::{Collider, ColliderManager};
use crate::scalar::{in_world, SCALE, WORLD_MAX};
use crate::tile::{MaterialCache, MaterialInfo, TileMap};
use crate::transform::{Transform, tree_wf, cache_wf, globals_filled_in};
use crate::world::{Entity, Storage};

verus! {

/// Default movement tolerance: a hundredth of a world unit of slack kept
/// between a mover and what it rests against.
pub const TOLERANCE: i64 = 10_000;

/// Probe depth for the grounded and ceiling queries: a thousandth of a
/// world unit, independent of the movement tolerance.
pub const PROBE_EPS: i64 = 1_000;

/// Coordinate bound for kinematic queries: half the world range, so the
/// broad boxes the mover builds stay representable.
pub const KIN_MAX: i64 = 500_000_000_000_000_000;

/// A box is kinematically usable when its corners stay within
/// [`KIN_MAX`].
pub open spec fn kin_wf(a: Aabb) -> bool {
    &&& -KIN_MAX <= a.min.x <= KIN_MAX
    &&& -KIN_MAX <= a.min.y <= KIN_MAX
    &&& -KIN_MAX <= a.max.x <= KIN_MAX
    &&& -KIN_MAX <= a.max.y <= KIN_MAX
}

/// The sub-tile collision geometry of one material: the boxes it occupies
/// within its tile cell, in world units relative to the cell's min corner.
#[derive(Debug, Clone)]
pub struct TileColliderDescriptor {
    pub aabbs: Vec<Aabb>,
}

impl TileColliderDescriptor {
    /// Every sub-box is in world range.
    pub open spec fn wf(self) -> bool {
        forall|k: int| 0 <= k < self.aabbs@.len() ==> (#[trigger] self.aabbs@[k]).wf()
    }

    pub fn new(aabbs: Vec<Aabb>) -> (r: TileColliderDescriptor)
        requires
            forall|k: int| 0 <= k < aabbs@.len() ==> (#[trigger] aabbs@[k]).wf(),
        ensures
            r.aabbs@ == aabbs@,
            r.wf(),
    {
        TileColliderDescriptor { aabbs }
    }
}

/// One obstacle out of the broad query: a solid tile's sub-box, or another
/// entity's collider box.
#[derive(Debug, Copy, Clone, PartialEq, Eq, Structural)]
pub enum AnyCollision {
    Tile(MaterialInfo, Vec2I, Aabb),
    Collider(Entity, Aabb),
}

impl AnyCollision {
    /// The obstacle's box in world coordinates.
    pub fn aabb(self) -> (r: Aabb)
        ensures
            r == self.spec_aabb(),
    {
        match self {
            AnyCollision::Tile(_, _, aabb) => aabb,
            AnyCollision::Collider(_, aabb) => aabb,
        }
    }

    pub open spec fn spec_aabb(self) -> Aabb {
        match self {
            AnyCollision::Tile(_, _, aabb) => aabb,
            AnyCollision::Collider(_, aabb) => aabb,
        }
    }
}

/// Which obstacles a move treats as real: everything, or everything but
/// the mover's own transform subtree (tiles are never filtered).
#[derive(Debug, Copy, Clone, PartialEq, Eq, Structural)]
pub enum CollisionFilter {
    All,
    ExcludeDescendantsOf(Entity),
}

/// Whether an obstacle passes `filter`: tiles always; a collider unless it
/// hangs below the excluded transform.
pub open spec fn spec_passes(
    m: Map<u64, Transform>,
    filter: CollisionFilter,
    ob: AnyCollision,
) -> bool {
    match ob {
        AnyCollision::Tile(_, _, _) => true,
        AnyCollision::Collider(c, _) => match filter {
            CollisionFilter::All => true,
            CollisionFilter::ExcludeDescendantsOf(root) => !(m.contains_key(c.id)
                && crate::transform::spec_is_descendant(m, c.id, root.id)),
        },
    }
}

/// World box of sub-box `local` of the tile at `pos` in a layer of edge
/// length `size`.
pub open spec fn spec_tile_box(size: i64, pos: Vec2I, local: Aabb) -> Aabb {
    Aabb {
        min: Vec2I {
            x: (local.min.x + pos.x * size) as i64,
            y: (local.min.y + pos.y * size) as i64,
        },
        max: Vec2I {
            x: (local.max.x + pos.x * size) as i64,
            y: (local.max.y + pos.y * size) as i64,
        },
    }
}

/// Whether tile `pos` on layer `l` contributes its `k`-th sub-box as an
/// obstacle for query box `q`: the tile is inside the scanned range, its
/// material is solid (non-air) and registered, it carries collision
/// geometry, and the sub-box really overlaps `q`.
pub open spec fn tile_obstacle(
    tm: TileMap,
    descs: Map<u64, TileColliderDescriptor>,
    q: Aabb,
    l: int,
    pos: Vec2I,
    k: int,
) -> bool {
    &&& 0 <= l < tm.layers@.len()
    &&& {
        let size = tm.layers@[l].config.size;
        let m = tm.layers@[l].data.spec_tile(pos);
        &&& q.min.x as int / size as int <= pos.x <= q.max.x as int / size as int
        &&& q.min.y as int / size as int <= pos.y <= q.max.y as int / size as int
        &&& m != 0
        &&& m < tm.materials.by_id@.len()
        &&& descs.contains_key(tm.materials.by_id@[m as int].id)
        &&& 0 <= k < descs[tm.materials.by_id@[m as int].id].aabbs@.len()
        &&& q.spec_intersects(
            spec_tile_box(size, pos, descs[tm.materials.by_id@[m as int].id].aabbs@[k]),
        )
    }
}

/// The obstacle value tile `pos`'s `k`-th sub-box yields.
pub open spec fn tile_obstacle_value(
    tm: TileMap,
    descs: Map<u64, TileColliderDescriptor>,
    l: int,
    pos: Vec2I,
    k: int,
) -> AnyCollision {
    let size = tm.layers@[l].config.size;
    let m = tm.layers@[l].data.spec_tile(pos);
    AnyCollision::Tile(
        MaterialInfo { id: m, descriptor: tm.materials.by_id@[m as int] },
        pos,
        spec_tile_box(size, pos, descs[tm.materials.by_id@[m as int].id].aabbs@[k]),
    )
}

/// Every non-air material carries registered collision geometry with
/// in-range boxes.
pub open spec fn descs_wf(tm: TileMap, descs: Map<u64, TileColliderDescriptor>) -> bool {
    forall|m: int|
        1 <= m < tm.materials.by_id@.len() ==> descs.contains_key(
            (#[trigger] tm.materials.by_id@[m]).id,
        ) && descs[tm.materials.by_id@[m].id].wf()
}

/// The scanned tile range of `q` on layer `l` is small enough to walk: at
/// most ten thousand tiles across on each axis.
pub open spec fn query_small_layer(tm: TileMap, q: Aabb, l: int) -> bool {
    let size = tm.layers@[l].config.size;
    ((q.max.x as int) / (size as int) - (q.min.x as int) / (size as int) < 10_000) && ((
    q.max.y as int) / (size as int) - (q.min.y as int) / (size as int) < 10_000)
}

/// The scanned tile range of `q` is small on every layer.
pub open spec fn query_small(tm: TileMap, q: Aabb) -> bool {
    forall|l: int| 0 <= l < tm.layers@.len() ==> #[trigger] query_small_layer(tm, q, l)
}

/// The mover and its resolver: which collider scope it adjudicates, the
/// movement tolerance, and a memoized material-to-geometry lookup.
#[derive(Debug)]
pub struct KinematicManager {
    /// Entity carrying the [`ColliderManager`] whose colliders block
    /// movement.
    pub collider_mgr: Entity,
    /// Slack kept between a mover and an obstacle.
    pub tolerance: i64,
    /// Memoized material-id-to-descriptor-entity lookup.
    pub cache: MaterialCache,
}

impl KinematicManager {
    pub open spec fn wf(self, reg: crate::tile::MaterialRegistry) -> bool {
        &&& 0 < self.tolerance <= SCALE
        &&& self.cache.wf(reg)
    }

    /// A mover over `collider_mgr`'s scope with the default tolerance.
    pub fn new(collider_mgr: Entity) -> (r: KinematicManager)
        ensures
            r.collider_mgr == collider_mgr,
            r.tolerance == TOLERANCE,
            forall|reg: crate::tile::MaterialRegistry| r.wf(reg),
    {
        KinematicManager { collider_mgr, tolerance: TOLERANCE, cache: MaterialCache::new() }
    }
}

/// Soundness of one yielded obstacle: a tile entry is a real tile
/// obstacle of the (pre-query) map, and a collider entry is a listed
/// collider whose now-cached box overlaps the query.
pub open spec fn obstacle_sound(
    tm: TileMap,
    descs: Map<u64, TileColliderDescriptor>,
    cmap: Map<u64, Collider>,
    mlist: Seq<u64>,
    q: Aabb,
    ob: AnyCollision,
) -> bool {
    match ob {
        AnyCollision::Tile(info, pos, bx) => exists|l: int, k: int|
            tile_obstacle(tm, descs, q, l, pos, k) && ob == #[trigger] tile_obstacle_value(
                tm,
                descs,
                l,
                pos,
                k,
            ),
        AnyCollision::Collider(c, bx) => mlist.contains(c.id) && cmap.contains_key(c.id)
            && cmap[c.id].global_aabb == Some(bx) && q.spec_intersects(bx),
    }
}

impl KinematicManager {
    /// Every obstacle overlapping `check_aabb`: for each tile layer, every
    /// solid tile in the covered range contributes each of its sub-boxes
    /// that truly overlaps; then every collider of this manager's scope
    /// whose world box overlaps. The yield is exact: nothing else is
    /// reported (soundness) and nothing overlapping is missed
    /// (completeness). State changes are cache fills only.
    #[verifier::rlimit(100)]
    pub fn iter_colliders_in(
        &mut self,
        tile_map: &mut TileMap,
        xf: &mut Storage<Transform>,
        col: &mut Storage<Collider>,
        mgrs: &Storage<ColliderManager>,
        descs: &Storage<TileColliderDescriptor>,
        check_aabb: Aabb,
    ) -> (r: Vec<AnyCollision>)
        requires
            old(tile_map).wf(),
            old(self).wf(old(tile_map).materials),
            old(xf).wf(),
            old(col).wf(),
            mgrs.wf(),
            descs.wf(),
            tree_wf(old(xf)@),
            cache_wf(old(xf)@),
            crate::collider::colliders_wf(old(xf)@, old(col)@),
            crate::collider::manager_wf(mgrs@, old(col)@),
            mgrs@.contains_key(old(self).collider_mgr.id),
            descs_wf(*old(tile_map), descs@),
            kin_wf(check_aabb),
            check_aabb.ordered(),
            query_small(*old(tile_map), check_aabb),
        ensures
            final(tile_map).wf(),
            final(tile_map).views_eq(*old(tile_map)),
            final(tile_map).materials == old(tile_map).materials,
            final(self).collider_mgr == old(self).collider_mgr,
            final(self).tolerance == old(self).tolerance,
            final(self).wf(final(tile_map).materials),
            final(xf).wf(),
            final(col).wf(),
            tree_wf(final(xf)@),
            cache_wf(final(xf)@),
            globals_filled_in(old(xf)@, final(xf)@),
            crate::collider::colliders_wf(final(xf)@, final(col)@),
            crate::collider::manager_wf(mgrs@, final(col)@),
            crate::collider::collider_caches_filled_in(old(col)@, final(col)@),
            forall|j: int|
                0 <= j < mgrs@[old(self).collider_mgr.id].colliders@.len() ==> final(col)@[
                    #[trigger] mgrs@[old(self).collider_mgr.id].colliders@[j]
                ].global_aabb is Some,
            forall|i: int|
                0 <= i < r@.len() ==> obstacle_sound(
                    *old(tile_map),
                    descs@,
                    final(col)@,
                    mgrs@[old(self).collider_mgr.id].colliders@,
                    check_aabb,
                    #[trigger] r@[i],
                ),
            forall|l: int, pos: Vec2I, k: int|
                tile_obstacle(*old(tile_map), descs@, check_aabb, l, pos, k) ==> r@.contains(
                    #[trigger] tile_obstacle_value(*old(tile_map), descs@, l, pos, k),
                ),
            forall|j: int|
                0 <= j < mgrs@[old(self).collider_mgr.id].colliders@.len()
                    && check_aabb.spec_intersects(
                    final(col)@[#[trigger] mgrs@[old(self).collider_mgr.id].colliders@[j]
                    ].global_aabb->Some_0,
                ) ==> r@.contains(
                    AnyCollision::Collider(
                        Entity { id: mgrs@[old(self).collider_mgr.id].colliders@[j] },
                        final(col)@[mgrs@[old(self).collider_mgr.id].colliders@[j]
                        ].global_aabb->Some_0,
                    ),
                ),
            // tile obstacles come first, then the colliders, each listed
            // collider at most once
            forall|i: int, i2: int|
                0 <= i < i2 < r@.len() && (#[trigger] r@[i]) is Collider ==> (
                #[trigger] r@[i2]) is Collider,
            forall|i: int, i2: int|
                0 <= i < i2 < r@.len() && (#[trigger] r@[i]) is Collider && (
                #[trigger] r@[i2]) is Collider ==> r@[i] != r@[i2],
    {
        let ghost tm0 = *old(tile_map);
        let mut r: Vec<AnyCollision> = Vec::new();
        let nlayers = tile_map.layer_count();
        let mut l: usize = 0;
        while l < nlayers
            invariant
                tile_map.wf(),
                tile_map.views_eq(tm0),
                tile_map.materials == tm0.materials,
                self.wf(tile_map.materials),
                self.collider_mgr == old(self).collider_mgr,
                self.tolerance == old(self).tolerance,
                xf@ == old(xf)@,
                col@ == old(col)@,
                descs.wf(),
                descs_wf(tm0, descs@),
                kin_wf(check_aabb),
                check_aabb.ordered(),
                query_small(tm0, check_aabb),
                nlayers == tm0.layers@.len(),
                0 <= l <= nlayers,
                forall|i: int|
                    0 <= i < r@.len() ==> (#[trigger] r@[i]) is Tile && (exists|
                        l2: int,
                        pos: Vec2I,
                        k: int,
                    |
                        tile_obstacle(tm0, descs@, check_aabb, l2, pos, k) && r@[i]
                            == #[trigger] tile_obstacle_value(tm0, descs@, l2, pos, k)),
                forall|l2: int, pos: Vec2I, k: int|
                    l2 < l && tile_obstacle(tm0, descs@, check_aabb, l2, pos, k)
                        ==> r@.contains(
                        #[trigger] tile_obstacle_value(tm0, descs@, l2, pos, k),
                    ),
            decreases nlayers - l,
        {
            let layer = crate::tile::LayerIndex(l);
            let cfg = tile_map.layer_config(layer);
            proof {
                assert(cfg == tm0.layers@[l as int].config);
                assert(query_small_layer(tm0, check_aabb, l as int));
            }
            let rng0 = tile_map.actor_aabb_to_tile(layer, check_aabb);
            proof {
                crate::scalar::lemma_floor_div_in_range(
                    check_aabb.min.x as int,
                    cfg.size as int,
                    KIN_MAX as int,
                );
                crate::scalar::lemma_floor_div_in_range(
                    check_aabb.min.y as int,
                    cfg.size as int,
                    KIN_MAX as int,
                );
                crate::scalar::lemma_floor_div_in_range(
                    check_aabb.max.x as int,
                    cfg.size as int,
                    KIN_MAX as int,
                );
                crate::scalar::lemma_floor_div_in_range(
                    check_aabb.max.y as int,
                    cfg.size as int,
                    KIN_MAX as int,
                );
                vstd::arithmetic::div_mod::lemma_div_is_ordered(
                    check_aabb.min.x as int,
                    check_aabb.max.x as int,
                    cfg.size as int,
                );
                vstd::arithmetic::div_mod::lemma_div_is_ordered(
                    check_aabb.min.y as int,
                    check_aabb.max.y as int,
                    cfg.size as int,
                );
            }
            let rng = rng0.inclusive();
            let ghost w = rng.norm_width();
            let ghost h = rng.norm_height();
            proof {
                assert(rng.min.x <= rng.max.x && rng.min.y <= rng.max.y);
                assert(rng.ordered());
                assert(rng.wf());
                assert(rng.norm() == rng);
                assert(w == rng.max.x - rng.min.x);
                assert(h == rng.max.y - rng.min.y);
                assert(query_small_layer(tm0, check_aabb, l as int));
                assert(0 <= w <= 10_000);
                assert(0 <= h <= 10_000);
                assert(w * h <= 100_000_000) by (nonlinear_arith)
                    requires
                        0 <= w <= 10_000,
                        0 <= h <= 10_000,
                ;
            }
            let cells = rng.iter();
            let mut ci: usize = 0;
            while ci < cells.len()
                invariant
                    tile_map.wf(),
                    tile_map.views_eq(tm0),
                    tile_map.materials == tm0.materials,
                    self.wf(tile_map.materials),
                    self.collider_mgr == old(self).collider_mgr,
                    self.tolerance == old(self).tolerance,
                    xf@ == old(xf)@,
                    col@ == old(col)@,
                    descs.wf(),
                    descs_wf(tm0, descs@),
                    kin_wf(check_aabb),
                    check_aabb.ordered(),
                    query_small(tm0, check_aabb),
                    nlayers == tm0.layers@.len(),
                    0 <= l < nlayers,
                    layer == crate::tile::LayerIndex(l as usize),
                    cfg == tm0.layers@[l as int].config,
                    cfg.wf(),
                    rng.min.x == check_aabb.min.x as int / cfg.size as int,
                    rng.min.y == check_aabb.min.y as int / cfg.size as int,
                    rng.max.x == check_aabb.max.x as int / cfg.size as int + 1,
                    rng.max.y == check_aabb.max.y as int / cfg.size as int + 1,
                    rng.ordered(),
                    rng.wf(),
                    rng.norm() == rng,
                    0 <= ci <= cells@.len(),
                    cells@.len() == rng.norm_width() * rng.norm_height(),
                    forall|i2: int, j2: int|
                        0 <= i2 < rng.norm_width() && 0 <= j2 < rng.norm_height() ==> cells@[
                            j2 * rng.norm_width() + i2
                        ] == #[trigger] rng.cell_at(i2, j2),
                    forall|k: int| 0 <= k < cells@.len() ==> rng.spec_has_cell(#[trigger] cells@[k]),
                    forall|i: int|
                        0 <= i < r@.len() ==> (#[trigger] r@[i]) is Tile && (exists|
                            l2: int,
                            pos: Vec2I,
                            k: int,
                        |
                            tile_obstacle(tm0, descs@, check_aabb, l2, pos, k) && r@[i]
                                == #[trigger] tile_obstacle_value(tm0, descs@, l2, pos, k)),
                    forall|l2: int, pos: Vec2I, k: int|
                        l2 < l && tile_obstacle(tm0, descs@, check_aabb, l2, pos, k)
                            ==> r@.contains(
                            #[trigger] tile_obstacle_value(tm0, descs@, l2, pos, k),
                        ),
                    forall|ci2: int, k: int|
                        0 <= ci2 < ci && tile_obstacle(
                            tm0,
                            descs@,
                            check_aabb,
                            l as int,
                            cells@[ci2],
                            k,
                        ) ==> r@.contains(
                            #[trigger] tile_obstacle_value(tm0, descs@, l as int, cells@[ci2], k),
                        ),
                decreases cells@.len() - ci,
            {
                let pos = cells[ci];
                proof {
                    assert(rng.spec_has_cell(pos));
                    assert(pos.wf());
                }
                let id = tile_map.get_id(layer, pos);
                proof {
                    assert(id == tm0.layers@[l as int].data.spec_tile(pos));
                }
                if id != 0 {
                    let info = tile_map.materials.get(id);
                    let desc_e = self.cache.lookup(&tile_map.materials, info);
                    let desc = descs.get(desc_e.id);
                    proof {
                        assert(desc_e == tm0.materials.by_id@[id as int]);
                        assert(descs@[desc_e.id].wf());
                        lemma_cell_world_bound(check_aabb.min.x as int, check_aabb.max.x as int, cfg.size as int, pos.x as int);
                        lemma_cell_world_bound(check_aabb.min.y as int, check_aabb.max.y as int, cfg.size as int, pos.y as int);
                    }
                    let base = Vec2I { x: pos.x * cfg.size, y: pos.y * cfg.size };
                    let nsub = desc.aabbs.len();
                    let mut k: usize = 0;
                    while k < nsub
                        invariant
                            0 <= k <= nsub,
                            nsub == descs@[tm0.materials.by_id@[id as int].id].aabbs@.len(),
                            desc == descs@[tm0.materials.by_id@[id as int].id],
                            desc.wf(),
                            descs@.contains_key(tm0.materials.by_id@[id as int].id),
                            id == tm0.layers@[l as int].data.spec_tile(pos),
                            id != 0,
                            0 <= l < tm0.layers@.len(),
                            id < tm0.materials.by_id@.len(),
                            info == (MaterialInfo {
                                id,
                                descriptor: tm0.materials.by_id@[id as int],
                            }),
                            cfg == tm0.layers@[l as int].config,
                            cfg.wf(),
                            base.x == pos.x * cfg.size,
                            base.y == pos.y * cfg.size,
                            in_world(base.x as int) && in_world(base.y as int),
                            check_aabb.min.x as int / cfg.size as int <= pos.x
                                <= check_aabb.max.x as int / cfg.size as int,
                            check_aabb.min.y as int / cfg.size as int <= pos.y
                                <= check_aabb.max.y as int / cfg.size as int,
                            forall|i: int|
                                0 <= i < r@.len() ==> (#[trigger] r@[i]) is Tile && (exists|
                                    l2: int,
                                    pos2: Vec2I,
                                    k2: int,
                                |
                                    tile_obstacle(tm0, descs@, check_aabb, l2, pos2, k2)
                                        && r@[i] == #[trigger] tile_obstacle_value(
                                        tm0,
                                        descs@,
                                        l2,
                                        pos2,
                                        k2,
                                    )),
                            forall|l2: int, pos2: Vec2I, k2: int|
                                l2 < l && tile_obstacle(tm0, descs@, check_aabb, l2, pos2, k2)
                                    ==> r@.contains(
                                    #[trigger] tile_obstacle_value(tm0, descs@, l2, pos2, k2),
                                ),
                            forall|ci2: int, k2: int|
                                0 <= ci2 < ci && tile_obstacle(
                                    tm0,
                                    descs@,
                                    check_aabb,
                                    l as int,
                                    cells@[ci2],
                                    k2,
                                ) ==> r@.contains(
                                    #[trigger] tile_obstacle_value(
                                        tm0,
                                        descs@,
                                        l as int,
                                        cells@[ci2],
                                        k2,
                                    ),
                                ),
                            forall|k2: int|
                                0 <= k2 < k && tile_obstacle(
                                    tm0,
                                    descs@,
                                    check_aabb,
                                    l as int,
                                    pos,
                                    k2,
                                ) ==> r@.contains(
                                    #[trigger] tile_obstacle_value(
                                        tm0,
                                        descs@,
                                        l as int,
                                        pos,
                                        k2,
                                    ),
                                ),
                        decreases nsub - k,
                    {
                        let local = desc.aabbs[k];
                        let world_box = local.translated(base);
                        proof {
                            assert(world_box == spec_tile_box(cfg.size, pos, local));
                        }
                        if check_aabb.intersects(world_box) {
                            let ghost rold = r@;
                            r.push(AnyCollision::Tile(info, pos, world_box));
                            proof {
                                assert(1 <= id < tm0.materials.by_id@.len());
                                assert(descs@.contains_key(
                                    tm0.materials.by_id@[id as int].id,
                                ));
                                assert(tile_obstacle(
                                    tm0,
                                    descs@,
                                    check_aabb,
                                    l as int,
                                    pos,
                                    k as int,
                                ));
                                assert(r@.last() == tile_obstacle_value(
                                    tm0,
                                    descs@,
                                    l as int,
                                    pos,
                                    k as int,
                                ));
                                lemma_push_keeps_contains(rold, r@.last());
                            }
                        }
                        k = k + 1;
                    }
                }
                ci = ci + 1;
                proof {
                    assert forall|ci2: int, k2: int|
                        0 <= ci2 < ci && tile_obstacle(
                            tm0,
                            descs@,
                            check_aabb,
                            l as int,
                            cells@[ci2],
                            k2,
                        ) implies r@.contains(
                        #[trigger] tile_obstacle_value(tm0, descs@, l as int, cells@[ci2], k2),
                    ) by {
                        if ci2 == ci - 1 {
                            if id == 0 {
                                assert(!tile_obstacle(
                                    tm0,
                                    descs@,
                                    check_aabb,
                                    l as int,
                                    pos,
                                    k2,
                                ));
                            }
                        }
                    }
                }
            }
            l = l + 1;
            proof {
                assert forall|l2: int, pos: Vec2I, k: int|
                    l2 < l && tile_obstacle(tm0, descs@, check_aabb, l2, pos, k)
                        implies r@.contains(
                    #[trigger] tile_obstacle_value(tm0, descs@, l2, pos, k),
                ) by {
                    if l2 == l - 1 {
                        // the obstacle's tile is one of the scanned cells
                        let size = tm0.layers@[l2].config.size;
                        let i2 = pos.x - rng.min.x;
                        let j2 = pos.y - rng.min.y;
                        assert(0 <= i2 < rng.norm_width());
                        assert(0 <= j2 < rng.norm_height());
                        assert(cells@[j2 * rng.norm_width() + i2] == rng.cell_at(i2, j2));
                        assert(rng.cell_at(i2, j2) == pos);
                        assert(0 <= j2 * rng.norm_width() + i2 < cells@.len()) by (nonlinear_arith)
                            requires
                                0 <= i2 < rng.norm_width(),
                                0 <= j2 < rng.norm_height(),
                                cells@.len() == rng.norm_width() * rng.norm_height(),
                        ;
                    }
                }
            }
        }
        // Collider pass: every listed collider whose (freshly computed)
        // world box overlaps.
        let ghost mlist = mgrs@[self.collider_mgr.id].colliders@;
        let nlisted = mgrs.get(self.collider_mgr.id).colliders.len();
        let mut j: usize = 0;
        while j < nlisted
            invariant
                xf.wf(),
                col.wf(),
                mgrs.wf(),
                tree_wf(xf@),
                cache_wf(xf@),
                crate::collider::colliders_wf(xf@, col@),
                crate::collider::manager_wf(mgrs@, col@),
                globals_filled_in(old(xf)@, xf@),
                crate::collider::collider_caches_filled_in(old(col)@, col@),
                mgrs@.contains_key(self.collider_mgr.id),
                self.collider_mgr == old(self).collider_mgr,
                mlist == mgrs@[self.collider_mgr.id].colliders@,
                nlisted == mlist.len(),
                0 <= j <= nlisted,
                forall|j2: int|
                    0 <= j2 < j ==> col@[#[trigger] mlist[j2]].global_aabb is Some,
                forall|j2: int|
                    0 <= j2 < j && check_aabb.spec_intersects(
                        col@[#[trigger] mlist[j2]].global_aabb->Some_0,
                    ) ==> r@.contains(
                        AnyCollision::Collider(
                            Entity { id: mlist[j2] },
                            col@[mlist[j2]].global_aabb->Some_0,
                        ),
                    ),
                forall|i: int|
                    0 <= i < r@.len() ==> obstacle_sound(
                        tm0,
                        descs@,
                        col@,
                        mlist,
                        check_aabb,
                        #[trigger] r@[i],
                    ),
                forall|l2: int, pos: Vec2I, k: int|
                    tile_obstacle(tm0, descs@, check_aabb, l2, pos, k) ==> r@.contains(
                        #[trigger] tile_obstacle_value(tm0, descs@, l2, pos, k),
                    ),
                forall|i: int, i2: int|
                    0 <= i < i2 < r@.len() && (#[trigger] r@[i]) is Collider ==> (
                    #[trigger] r@[i2]) is Collider,
                forall|i: int|
                    0 <= i < r@.len() && (#[trigger] r@[i]) is Collider ==> mlist.take(
                        j as int,
                    ).contains(r@[i]->Collider_0.id),
                forall|i: int, i2: int|
                    0 <= i < i2 < r@.len() && (#[trigger] r@[i]) is Collider && (
                    #[trigger] r@[i2]) is Collider ==> r@[i] != r@[i2],
            decreases nlisted - j,
        {
            let cid = mgrs.get(self.collider_mgr.id).colliders[j];
            proof {
                assert(mlist[j as int] == cid);
                assert(col@.contains_key(cid));
            }
            let ghost col_before = col@;
            let bx = crate::collider::Collider::global_aabb(xf, col, Entity { id: cid });
            proof {
                assert forall|j2: int|
                    0 <= j2 <= j implies col@[#[trigger] mlist[j2]].global_aabb is Some by {
                    if j2 < j {
                        assert(col_before[mlist[j2]].global_aabb is Some);
                    }
                }
            }
            if check_aabb.intersects(bx) {
                let ghost rold = r@;
                r.push(AnyCollision::Collider(Entity { id: cid }, bx));
                proof {
                    lemma_push_keeps_contains(rold, r@.last());
                    crate::collider::lemma_manager_list_distinct(
                        mgrs@,
                        col@,
                        self.collider_mgr.id,
                    );
                    assert(r@.last()->Collider_0.id == mlist[j as int]);
                    assert forall|i: int|
                        0 <= i < r@.len() && (#[trigger] r@[i]) is Collider implies mlist.take(
                        j + 1,
                    ).contains(r@[i]->Collider_0.id) by {
                        if i < r@.len() - 1 {
                            assert(rold[i] == r@[i]);
                            let w = choose|w: int|
                                0 <= w < j && #[trigger] mlist.take(j as int)[w] == r@[
                                i]->Collider_0.id;
                            assert(mlist.take(j + 1)[w] == r@[i]->Collider_0.id);
                        } else {
                            assert(mlist.take(j + 1)[j as int] == mlist[j as int]);
                        }
                    }
                    assert forall|i: int, i2: int|
                        0 <= i < i2 < r@.len() && (#[trigger] r@[i]) is Collider && (
                        #[trigger] r@[i2]) is Collider implies r@[i] != r@[i2] by {
                        if i2 == r@.len() - 1 {
                            let w = choose|w: int|
                                0 <= w < j && #[trigger] mlist.take(j as int)[w] == r@[
                                i]->Collider_0.id;
                            assert(mlist[w] == r@[i]->Collider_0.id);
                            assert(mlist[w] != mlist[j as int]);
                        }
                    }
                }
            } else {
                proof {
                    assert forall|i: int|
                        0 <= i < r@.len() && (#[trigger] r@[i]) is Collider implies mlist.take(
                        j + 1,
                    ).contains(r@[i]->Collider_0.id) by {
                        let w = choose|w: int|
                            0 <= w < j && #[trigger] mlist.take(j as int)[w] == r@[
                            i]->Collider_0.id;
                        assert(mlist.take(j + 1)[w] == r@[i]->Collider_0.id);
                    }
                }
            }
            j = j + 1;
        }
        r
    }
}

/// Largest mover coordinate the resolver accepts: a quarter of the world
/// range, leaving room for the broad boxes.
pub const MOVER_MAX: i64 = 250_000_000_000_000_000;

/// Largest per-call displacement on one axis: a thousand world units.
pub const MOVE_MAX: i64 = 1_000_000_000;

/// Magnitude of a mathematical integer.
pub open spec fn iabs(x: int) -> int {
    if x < 0 {
        -x
    } else {
        x
    }
}

/// Negative values clamped to zero.
pub open spec fn clamp0(x: int) -> int {
    if x < 0 {
        0
    } else {
        x
    }
}

/// A box is a usable mover when its corners stay within [`MOVER_MAX`].
pub open spec fn mover_wf(a: Aabb) -> bool {
    &&& -MOVER_MAX <= a.min.x <= MOVER_MAX
    &&& -MOVER_MAX <= a.min.y <= MOVER_MAX
    &&& -MOVER_MAX <= a.max.x <= MOVER_MAX
    &&& -MOVER_MAX <= a.max.y <= MOVER_MAX
}

/// Unsigned gap on `axis` between the mover's leading edge and the
/// obstacle's trailing edge, in the direction of travel.
pub open spec fn spec_gap(mover: Aabb, ob: Aabb, axis: Axis2, neg: bool) -> int {
    iabs(
        if neg {
            mover.min.spec_axis(axis) - ob.max.spec_axis(axis)
        } else {
            ob.min.spec_axis(axis) - mover.max.spec_axis(axis)
        },
    )
}

/// The broad query box of one axis pass: the mover extended along `axis`
/// by the displacement plus the tolerance, in the direction of travel.
pub open spec fn spec_check_box(mover: Aabb, axis: Axis2, d: int, tol: int) -> Aabb {
    let ext = if d < 0 {
        d - tol
    } else {
        d + tol
    };
    let relx = if axis is X {
        ext
    } else {
        0
    };
    let rely = if axis is Y {
        ext
    } else {
        0
    };
    Aabb {
        min: Vec2I {
            x: crate::aabb::imin(mover.min.x as int, mover.min.x + relx) as i64,
            y: crate::aabb::imin(mover.min.y as int, mover.min.y + rely) as i64,
        },
        max: Vec2I {
            x: crate::aabb::imax(mover.max.x as int, mover.max.x + relx) as i64,
            y: crate::aabb::imax(mover.max.y as int, mover.max.y + rely) as i64,
        },
    }
}

/// What one axis pass resolves to: `r` is `d`'s direction with the largest
/// magnitude, at most `iabs(d)`, that every obstacle of the pass's broad
/// box passing `filter` admits (its gap less the tolerance, floored at
/// zero); and the magnitude is attained — either the full request or some
/// obstacle's exact admission.
pub open spec fn axis_resolved(
    tm: TileMap,
    descs: Map<u64, TileColliderDescriptor>,
    cmap: Map<u64, Collider>,
    mlist: Seq<u64>,
    xfm: Map<u64, Transform>,
    filter: CollisionFilter,
    mover: Aabb,
    axis: Axis2,
    d: int,
    tol: int,
    r: int,
) -> bool {
    let cb = spec_check_box(mover, axis, d, tol);
    let neg = d < 0;
    &&& 0 <= iabs(r) <= iabs(d)
    &&& r == (if neg {
        -iabs(r)
    } else {
        iabs(r)
    })
    &&& forall|l: int, pos: Vec2I, k: int|
        #[trigger] tile_obstacle(tm, descs, cb, l, pos, k) ==> iabs(r) <= clamp0(
            spec_gap(mover, tile_obstacle_value(tm, descs, l, pos, k).spec_aabb(), axis, neg)
                - tol,
        )
    &&& forall|j: int|
        0 <= j < mlist.len() && cmap.contains_key(#[trigger] mlist[j]) && cmap[
        mlist[j]].global_aabb is Some && cb.spec_intersects(cmap[mlist[j]].global_aabb->Some_0)
            && spec_passes(
            xfm,
            filter,
            AnyCollision::Collider(Entity { id: mlist[j] }, cmap[mlist[j]].global_aabb->Some_0),
        ) ==> iabs(r) <= clamp0(
            spec_gap(mover, cmap[mlist[j]].global_aabb->Some_0, axis, neg) - tol,
        )
    &&& (iabs(r) == iabs(d) || (exists|l: int, pos: Vec2I, k: int|
        #[trigger] tile_obstacle(tm, descs, cb, l, pos, k) && iabs(r) == clamp0(
            spec_gap(mover, tile_obstacle_value(tm, descs, l, pos, k).spec_aabb(), axis, neg)
                - tol,
        )) || (exists|j: int|
        0 <= j < mlist.len() && cmap.contains_key(#[trigger] mlist[j]) && cmap[
        mlist[j]].global_aabb is Some && cb.spec_intersects(cmap[mlist[j]].global_aabb->Some_0)
            && spec_passes(
            xfm,
            filter,
            AnyCollision::Collider(Entity { id: mlist[j] }, cmap[mlist[j]].global_aabb->Some_0),
        ) && iabs(r) == clamp0(
            spec_gap(mover, cmap[mlist[j]].global_aabb->Some_0, axis, neg) - tol,
        )))
}

/// Subtree membership ignores the cached globals: it reads only the
/// parent links.
pub proof fn lemma_is_descendant_same_tree(
    m1: Map<u64, Transform>,
    m2: Map<u64, Transform>,
    e: u64,
    o: u64,
)
    requires
        tree_wf(m1),
        tree_wf(m2),
        crate::transform::same_but_globals(m1, m2),
        m1.contains_key(e),
    ensures
        crate::transform::spec_is_descendant(m1, e, o) == crate::transform::spec_is_descendant(
            m2,
            e,
            o,
        ),
    decreases m1[e].depth@,
{
    if e != o {
        match m1[e].parent {
            Some(p) => {
                lemma_is_descendant_same_tree(m1, m2, p, o);
            },
            None => {},
        }
    }
}

impl KinematicManager {
    /// Resolve the displacement request `signed_delta` along `axis`: the
    /// longest move in that direction, up to the request, that keeps the
    /// tolerance margin from every obstacle of the pass's broad box
    /// passing `filter`.
    #[verifier::rlimit(100)]
    fn resolve_axis(
        &mut self,
        tile_map: &mut TileMap,
        xf: &mut Storage<Transform>,
        col: &mut Storage<Collider>,
        mgrs: &Storage<ColliderManager>,
        descs: &Storage<TileColliderDescriptor>,
        mover: Aabb,
        axis: Axis2,
        signed_delta: i64,
        filter: CollisionFilter,
    ) -> (r: i64)
        requires
            old(tile_map).wf(),
            old(self).wf(old(tile_map).materials),
            old(xf).wf(),
            old(col).wf(),
            mgrs.wf(),
            descs.wf(),
            tree_wf(old(xf)@),
            cache_wf(old(xf)@),
            crate::collider::colliders_wf(old(xf)@, old(col)@),
            crate::collider::manager_wf(mgrs@, old(col)@),
            mgrs@.contains_key(old(self).collider_mgr.id),
            descs_wf(*old(tile_map), descs@),
            mover_wf(mover),
            mover.ordered(),
            -MOVE_MAX <= signed_delta <= MOVE_MAX,
            query_small(
                *old(tile_map),
                spec_check_box(mover, axis, signed_delta as int, old(self).tolerance as int),
            ),
        ensures
            final(tile_map).wf(),
            final(tile_map).views_eq(*old(tile_map)),
            final(tile_map).materials == old(tile_map).materials,
            final(self).collider_mgr == old(self).collider_mgr,
            final(self).tolerance == old(self).tolerance,
            final(self).wf(final(tile_map).materials),
            final(xf).wf(),
            final(col).wf(),
            tree_wf(final(xf)@),
            cache_wf(final(xf)@),
            globals_filled_in(old(xf)@, final(xf)@),
            crate::collider::colliders_wf(final(xf)@, final(col)@),
            crate::collider::manager_wf(mgrs@, final(col)@),
            crate::collider::collider_caches_filled_in(old(col)@, final(col)@),
            forall|j: int|
                0 <= j < mgrs@[old(self).collider_mgr.id].colliders@.len() ==> final(col)@[
                    #[trigger] mgrs@[old(self).collider_mgr.id].colliders@[j]
                ].global_aabb is Some,
            axis_resolved(
                *old(tile_map),
                descs@,
                final(col)@,
                mgrs@[old(self).collider_mgr.id].colliders@,
                final(xf)@,
                filter,
                mover,
                axis,
                signed_delta as int,
                old(self).tolerance as int,
                r as int,
            ),
    {
        let ghost tm0 = *old(tile_map);
        let tol = self.tolerance;
        let neg = signed_delta < 0;
        let ext = add_magnitude(signed_delta, tol);
        let rel = Vec2I::on_axis(axis, ext);
        let check = mover.translate_extend(rel);
        let ghost cb = spec_check_box(mover, axis, signed_delta as int, tol as int);
        proof {
            assert(check == cb);
            assert(check.ordered());
            assert(kin_wf(check));
        }
        let obstacles = self.iter_colliders_in(tile_map, xf, col, mgrs, descs, check);
        let ghost mlist = mgrs@[self.collider_mgr.id].colliders@;
        let ghost xfm = xf@;
        let ghost cmap = col@;
        let mut allowed: i64 = if neg {
            -signed_delta
        } else {
            signed_delta
        };
        let mut i: usize = 0;
        while i < obstacles.len()
            invariant
                xf.wf(),
                tree_wf(xf@),
                xf@ == xfm,
                col@ == cmap,
                crate::collider::colliders_wf(xfm, cmap),
                0 <= i <= obstacles@.len(),
                0 <= allowed <= iabs(signed_delta as int),
                neg == (signed_delta < 0),
                0 < tol <= SCALE,
                mover_wf(mover),
                forall|i2: int|
                    0 <= i2 < obstacles@.len() ==> obstacle_sound(
                        tm0,
                        descs@,
                        cmap,
                        mlist,
                        cb,
                        #[trigger] obstacles@[i2],
                    ),
                forall|i2: int|
                    0 <= i2 < i && spec_passes(xfm, filter, #[trigger] obstacles@[i2])
                        ==> allowed <= clamp0(
                        spec_gap(mover, obstacles@[i2].spec_aabb(), axis, neg) - tol,
                    ),
                allowed == iabs(signed_delta as int) || (exists|i2: int|
                    0 <= i2 < i && spec_passes(xfm, filter, #[trigger] obstacles@[i2])
                        && allowed == clamp0(
                        spec_gap(mover, obstacles@[i2].spec_aabb(), axis, neg) - tol,
                    )),
            decreases obstacles@.len() - i,
        {
            let ob = obstacles[i];
            let passes: bool = match (ob, filter) {
                (AnyCollision::Collider(c, _), CollisionFilter::ExcludeDescendantsOf(root)) => {
                    proof {
                        assert(obstacle_sound(tm0, descs@, cmap, mlist, cb, ob));
                        assert(cmap.contains_key(c.id));
                        assert(xfm.contains_key(c.id));
                    }
                    !Transform::is_descendant_of(xf, c, root)
                },
                _ => true,
            };
            proof {
                assert(passes == spec_passes(xfm, filter, ob));
            }
            if passes {
                let ob_box = ob.aabb();
                let lead: i64 = if neg {
                    mover.min.get_axis(axis)
                } else {
                    mover.max.get_axis(axis)
                };
                let trail: i64 = if neg {
                    ob_box.max.get_axis(axis)
                } else {
                    ob_box.min.get_axis(axis)
                };
                let diff: i128 = if neg {
                    (lead as i128) - (trail as i128)
                } else {
                    (trail as i128) - (lead as i128)
                };
                let gap: i128 = if diff < 0 {
                    -diff
                } else {
                    diff
                };
                let admitted: i128 = if gap - (tol as i128) < 0 {
                    0
                } else {
                    gap - (tol as i128)
                };
                proof {
                    assert(admitted == clamp0(spec_gap(mover, ob.spec_aabb(), axis, neg) - tol));
                }
                if admitted < allowed as i128 {
                    allowed = admitted as i64;
                }
            }
            i = i + 1;
        }
        let r: i64 = if neg {
            -allowed
        } else {
            allowed
        };
        proof {
            let d = signed_delta as int;
            assert(iabs(r as int) == allowed);
            assert forall|l: int, pos: Vec2I, k: int|
                #[trigger] tile_obstacle(tm0, descs@, cb, l, pos, k) implies iabs(r as int)
                <= clamp0(
                spec_gap(mover, tile_obstacle_value(tm0, descs@, l, pos, k).spec_aabb(), axis, neg)
                    - tol,
            ) by {
                let v = tile_obstacle_value(tm0, descs@, l, pos, k);
                assert(obstacles@.contains(v));
                let i2 = choose|i2: int| 0 <= i2 < obstacles@.len() && obstacles@[i2] == v;
                assert(spec_passes(xfm, filter, obstacles@[i2]));
            }
            assert forall|j: int|
                0 <= j < mlist.len() && cmap.contains_key(#[trigger] mlist[j]) && cmap[
            mlist[j]].global_aabb is Some && cb.spec_intersects(cmap[mlist[j]].global_aabb->Some_0)
                && spec_passes(
                xfm,
                filter,
                AnyCollision::Collider(
                    Entity { id: mlist[j] },
                    cmap[mlist[j]].global_aabb->Some_0,
                ),
            ) implies iabs(r as int) <= clamp0(
                spec_gap(mover, cmap[mlist[j]].global_aabb->Some_0, axis, neg) - tol,
            ) by {
                let v = AnyCollision::Collider(
                    Entity { id: mlist[j] },
                    cmap[mlist[j]].global_aabb->Some_0,
                );
                assert(obstacles@.contains(v));
                let i2 = choose|i2: int| 0 <= i2 < obstacles@.len() && obstacles@[i2] == v;
            }
            if allowed != iabs(d) {
                let i2 = choose|i2: int|
                    0 <= i2 < obstacles@.len() && spec_passes(xfm, filter, obstacles@[i2])
                        && allowed == clamp0(
                        spec_gap(mover, #[trigger] obstacles@[i2].spec_aabb(), axis, neg) - tol,
                    );
                assert(obstacle_sound(tm0, descs@, cmap, mlist, cb, obstacles@[i2]));
                match obstacles@[i2] {
                    AnyCollision::Tile(info, pos, bx) => {
                        let (l, k) = choose|l: int, k: int|
                            tile_obstacle(tm0, descs@, cb, l, pos, k) && obstacles@[i2]
                                == #[trigger] tile_obstacle_value(tm0, descs@, l, pos, k);
                        assert(tile_obstacle(tm0, descs@, cb, l, pos, k) && iabs(r as int)
                            == clamp0(
                            spec_gap(
                                mover,
                                tile_obstacle_value(tm0, descs@, l, pos, k).spec_aabb(),
                                axis,
                                neg,
                            ) - tol,
                        ));
                    },
                    AnyCollision::Collider(c, bx) => {
                        let j = choose|j: int| 0 <= j < mlist.len() && mlist[j] == c.id;
                        assert(0 <= j < mlist.len() && cmap.contains_key(mlist[j]) && cmap[
                        mlist[j]].global_aabb is Some && cb.spec_intersects(
                            cmap[mlist[j]].global_aabb->Some_0,
                        ) && spec_passes(
                            xfm,
                            filter,
                            AnyCollision::Collider(
                                Entity { id: mlist[j] },
                                cmap[mlist[j]].global_aabb->Some_0,
                            ),
                        ) && iabs(r as int) == clamp0(
                            spec_gap(mover, cmap[mlist[j]].global_aabb->Some_0, axis, neg) - tol,
                        ));
                    },
                }
            }
        }
        r
    }
}

/// Mover bound for a whole move: room for the displacement on top of
/// [`MOVER_MAX`].
pub open spec fn raw_mover_wf(a: Aabb) -> bool {
    &&& -(MOVER_MAX - MOVE_MAX) <= a.min.x <= MOVER_MAX - MOVE_MAX
    &&& -(MOVER_MAX - MOVE_MAX) <= a.min.y <= MOVER_MAX - MOVE_MAX
    &&& -(MOVER_MAX - MOVE_MAX) <= a.max.x <= MOVER_MAX - MOVE_MAX
    &&& -(MOVER_MAX - MOVE_MAX) <= a.max.y <= MOVER_MAX - MOVE_MAX
}

/// `a` displaced by `(dx, dy)`.
pub open spec fn spec_translated(a: Aabb, dx: int, dy: int) -> Aabb {
    Aabb {
        min: Vec2I { x: (a.min.x + dx) as i64, y: (a.min.y + dy) as i64 },
        max: Vec2I { x: (a.max.x + dx) as i64, y: (a.max.y + dy) as i64 },
    }
}

/// Box covering every broad box either axis pass of a move can build.
pub open spec fn spec_move_hull(a: Aabb, by: Vec2I, tol: int) -> Aabb {
    Aabb {
        min: Vec2I {
            x: (a.min.x - iabs(by.x as int) - tol) as i64,
            y: (a.min.y - iabs(by.y as int) - tol) as i64,
        },
        max: Vec2I {
            x: (a.max.x + iabs(by.x as int) + tol) as i64,
            y: (a.max.y + iabs(by.y as int) + tol) as i64,
        },
    }
}

/// A query box nested inside another scans no wider a tile range.
proof fn lemma_query_small_nested(tm: TileMap, outer: Aabb, inner: Aabb)
    requires
        query_small(tm, outer),
        outer.min.x <= inner.min.x <= inner.max.x <= outer.max.x,
        outer.min.y <= inner.min.y <= inner.max.y <= outer.max.y,
        forall|l: int| 0 <= l < tm.layers@.len() ==> (#[trigger] tm.layers@[l]).config.wf(),
    ensures
        query_small(tm, inner),
{
    assert forall|l: int|
        0 <= l < tm.layers@.len() implies #[trigger] query_small_layer(tm, inner, l) by {
        let size = tm.layers@[l].config.size as int;
        assert(query_small_layer(tm, outer, l));
        vstd::arithmetic::div_mod::lemma_div_is_ordered(
            outer.min.x as int,
            inner.min.x as int,
            size,
        );
        vstd::arithmetic::div_mod::lemma_div_is_ordered(
            inner.max.x as int,
            outer.max.x as int,
            size,
        );
        vstd::arithmetic::div_mod::lemma_div_is_ordered(
            outer.min.y as int,
            inner.min.y as int,
            size,
        );
        vstd::arithmetic::div_mod::lemma_div_is_ordered(
            inner.max.y as int,
            outer.max.y as int,
            size,
        );
    }
}

/// An axis resolution keeps holding when later passes merely fill more
/// caches: the boxes it speaks of were already computed, and subtree
/// membership reads only the (unchanged) links.
proof fn lemma_axis_resolved_transfer(
    tm: TileMap,
    descs: Map<u64, TileColliderDescriptor>,
    c1: Map<u64, Collider>,
    c2: Map<u64, Collider>,
    mlist: Seq<u64>,
    m1: Map<u64, Transform>,
    m2: Map<u64, Transform>,
    filter: CollisionFilter,
    mover: Aabb,
    axis: Axis2,
    d: int,
    tol: int,
    r: int,
)
    requires
        axis_resolved(tm, descs, c1, mlist, m1, filter, mover, axis, d, tol, r),
        crate::collider::collider_caches_filled_in(c1, c2),
        forall|j: int|
            0 <= j < mlist.len() ==> c1.contains_key(#[trigger] mlist[j]) && c1[
            mlist[j]].global_aabb is Some,
        crate::transform::same_but_globals(m1, m2),
        tree_wf(m1),
        tree_wf(m2),
    ensures
        axis_resolved(tm, descs, c2, mlist, m2, filter, mover, axis, d, tol, r),
{
    let cb = spec_check_box(mover, axis, d, tol);
    let neg = d < 0;
    assert forall|j: int| 0 <= j < mlist.len() implies c2.contains_key(#[trigger] mlist[j])
        && c2[mlist[j]].global_aabb == c1[mlist[j]].global_aabb by {}
    assert forall|j: int| 0 <= j < mlist.len() implies spec_passes(
        m2,
        filter,
        AnyCollision::Collider(Entity { id: mlist[j] }, #[trigger] c2[mlist[j]].global_aabb->Some_0),
    ) == spec_passes(
        m1,
        filter,
        AnyCollision::Collider(Entity { id: mlist[j] }, c1[mlist[j]].global_aabb->Some_0),
    ) by {
        match filter {
            CollisionFilter::ExcludeDescendantsOf(root) => {
                if m1.contains_key(mlist[j]) {
                    lemma_is_descendant_same_tree(m1, m2, mlist[j], root.id);
                }
            },
            CollisionFilter::All => {},
        }
    }
    if iabs(r) != iabs(d) {
        if exists|l: int, pos: Vec2I, k: int|
            #[trigger] tile_obstacle(tm, descs, cb, l, pos, k) && iabs(r) == clamp0(
                spec_gap(mover, tile_obstacle_value(tm, descs, l, pos, k).spec_aabb(), axis, neg)
                    - tol,
            ) {
        } else {
            let j = choose|j: int|
                0 <= j < mlist.len() && c1.contains_key(#[trigger] mlist[j]) && c1[
                mlist[j]].global_aabb is Some && cb.spec_intersects(
                    c1[mlist[j]].global_aabb->Some_0,
                ) && spec_passes(
                    m1,
                    filter,
                    AnyCollision::Collider(
                        Entity { id: mlist[j] },
                        c1[mlist[j]].global_aabb->Some_0,
                    ),
                ) && iabs(r) == clamp0(
                    spec_gap(mover, c1[mlist[j]].global_aabb->Some_0, axis, neg) - tol,
                );
            assert(0 <= j < mlist.len() && c2.contains_key(mlist[j]) && c2[
            mlist[j]].global_aabb is Some && cb.spec_intersects(c2[mlist[j]].global_aabb->Some_0)
                && spec_passes(
                m2,
                filter,
                AnyCollision::Collider(
                    Entity { id: mlist[j] },
                    c2[mlist[j]].global_aabb->Some_0,
                ),
            ) && iabs(r) == clamp0(
                spec_gap(mover, c2[mlist[j]].global_aabb->Some_0, axis, neg) - tol,
            ));
        }
    }
}

/// Tile obstacles read only the map's views, which agree between
/// cache-rotated states.
proof fn lemma_tile_obstacle_views(
    tm1: TileMap,
    tm2: TileMap,
    descs: Map<u64, TileColliderDescriptor>,
    q: Aabb,
    l: int,
    pos: Vec2I,
    k: int,
)
    requires
        tm1.views_eq(tm2),
    ensures
        tile_obstacle(tm1, descs, q, l, pos, k) == tile_obstacle(tm2, descs, q, l, pos, k),
        0 <= l < tm1.layers@.len() ==> tile_obstacle_value(tm1, descs, l, pos, k)
            == tile_obstacle_value(tm2, descs, l, pos, k),
{
    if 0 <= l < tm1.layers@.len() {
        assert(tm1.layers@[l].config == tm2.layers@[l].config);
        assert(tm1.layers@[l].data.spec_tile(pos) == tm2.layers@[l].data.spec_tile(pos));
    }
}

/// An axis resolution is insensitive to which chunks happen to sit in the
/// map's caches.
proof fn lemma_axis_resolved_views(
    tm1: TileMap,
    tm2: TileMap,
    descs: Map<u64, TileColliderDescriptor>,
    cmap: Map<u64, Collider>,
    mlist: Seq<u64>,
    xfm: Map<u64, Transform>,
    filter: CollisionFilter,
    mover: Aabb,
    axis: Axis2,
    d: int,
    tol: int,
    r: int,
)
    requires
        tm1.views_eq(tm2),
        axis_resolved(tm1, descs, cmap, mlist, xfm, filter, mover, axis, d, tol, r),
    ensures
        axis_resolved(tm2, descs, cmap, mlist, xfm, filter, mover, axis, d, tol, r),
{
    let cb = spec_check_box(mover, axis, d, tol);
    let neg = d < 0;
    assert forall|l: int, pos: Vec2I, k: int|
        #[trigger] tile_obstacle(tm2, descs, cb, l, pos, k) implies iabs(r) <= clamp0(
        spec_gap(mover, tile_obstacle_value(tm2, descs, l, pos, k).spec_aabb(), axis, neg) - tol,
    ) by {
        lemma_tile_obstacle_views(tm1, tm2, descs, cb, l, pos, k);
    }
    if iabs(r) != iabs(d) {
        if exists|l: int, pos: Vec2I, k: int|
            #[trigger] tile_obstacle(tm1, descs, cb, l, pos, k) && iabs(r) == clamp0(
                spec_gap(mover, tile_obstacle_value(tm1, descs, l, pos, k).spec_aabb(), axis, neg)
                    - tol,
            ) {
            let (l, pos, k) = choose|l: int, pos: Vec2I, k: int|
                #[trigger] tile_obstacle(tm1, descs, cb, l, pos, k) && iabs(r) == clamp0(
                    spec_gap(
                        mover,
                        tile_obstacle_value(tm1, descs, l, pos, k).spec_aabb(),
                        axis,
                        neg,
                    ) - tol,
                );
            lemma_tile_obstacle_views(tm1, tm2, descs, cb, l, pos, k);
            assert(tile_obstacle(tm2, descs, cb, l, pos, k) && iabs(r) == clamp0(
                spec_gap(mover, tile_obstacle_value(tm2, descs, l, pos, k).spec_aabb(), axis, neg)
                    - tol,
            ));
        }
    }
}

impl KinematicManager {
    /// Move the box `aabb` by `by`, axis-separated: the x displacement is
    /// resolved against the obstacles first, the mover advances, and the y
    /// displacement is resolved from there — so a diagonal push along a
    /// wall slides instead of stopping. Obstacles failing `filter` never
    /// constrain the move. Returns the resolved displacement; applying it
    /// is the caller's business.
    #[verifier::rlimit(100)]
    pub fn move_by_raw(
        &mut self,
        tile_map: &mut TileMap,
        xf: &mut Storage<Transform>,
        col: &mut Storage<Collider>,
        mgrs: &Storage<ColliderManager>,
        descs: &Storage<TileColliderDescriptor>,
        aabb: Aabb,
        by: Vec2I,
        filter: CollisionFilter,
    ) -> (r: Vec2I)
        requires
            old(tile_map).wf(),
            old(self).wf(old(tile_map).materials),
            old(xf).wf(),
            old(col).wf(),
            mgrs.wf(),
            descs.wf(),
            tree_wf(old(xf)@),
            cache_wf(old(xf)@),
            crate::collider::colliders_wf(old(xf)@, old(col)@),
            crate::collider::manager_wf(mgrs@, old(col)@),
            mgrs@.contains_key(old(self).collider_mgr.id),
            descs_wf(*old(tile_map), descs@),
            raw_mover_wf(aabb),
            aabb.ordered(),
            -MOVE_MAX <= by.x <= MOVE_MAX,
            -MOVE_MAX <= by.y <= MOVE_MAX,
            query_small(
                *old(tile_map),
                spec_move_hull(aabb, by, old(self).tolerance as int),
            ),
        ensures
            final(tile_map).wf(),
            final(tile_map).views_eq(*old(tile_map)),
            final(tile_map).materials == old(tile_map).materials,
            final(self).collider_mgr == old(self).collider_mgr,
            final(self).tolerance == old(self).tolerance,
            final(self).wf(final(tile_map).materials),
            final(xf).wf(),
            final(col).wf(),
            tree_wf(final(xf)@),
            cache_wf(final(xf)@),
            globals_filled_in(old(xf)@, final(xf)@),
            crate::collider::colliders_wf(final(xf)@, final(col)@),
            crate::collider::manager_wf(mgrs@, final(col)@),
            crate::collider::collider_caches_filled_in(old(col)@, final(col)@),
            -MOVE_MAX <= r.x <= MOVE_MAX,
            -MOVE_MAX <= r.y <= MOVE_MAX,
            axis_resolved(
                *old(tile_map),
                descs@,
                final(col)@,
                mgrs@[old(self).collider_mgr.id].colliders@,
                final(xf)@,
                filter,
                aabb,
                Axis2::X,
                by.x as int,
                old(self).tolerance as int,
                r.x as int,
            ),
            axis_resolved(
                *old(tile_map),
                descs@,
                final(col)@,
                mgrs@[old(self).collider_mgr.id].colliders@,
                final(xf)@,
                filter,
                spec_translated(aabb, r.x as int, 0),
                Axis2::Y,
                by.y as int,
                old(self).tolerance as int,
                r.y as int,
            ),
    {
        let ghost tm0 = *old(tile_map);
        let ghost tol = self.tolerance as int;
        let ghost hull = spec_move_hull(aabb, by, tol);
        let ghost cbx = spec_check_box(aabb, Axis2::X, by.x as int, tol);
        proof {
            lemma_query_small_nested(tm0, hull, cbx);
        }
        let rx = self.resolve_axis(tile_map, xf, col, mgrs, descs, aabb, Axis2::X, by.x, filter);
        let ghost mid_xf = xf@;
        let ghost mid_col = col@;
        let mover2 = aabb.translated(Vec2I { x: rx, y: 0 });
        let ghost cby = spec_check_box(mover2, Axis2::Y, by.y as int, tol);
        proof {
            assert(mover2 == spec_translated(aabb, rx as int, 0));
            assert(iabs(rx as int) <= iabs(by.x as int));
            lemma_query_small_nested(tm0, hull, cby);
            // the requirements carry over to the cache-rotated map
            assert forall|l: int|
                0 <= l < tile_map.layers@.len() implies #[trigger] query_small_layer(
                *tile_map,
                cby,
                l,
            ) by {
                assert(query_small_layer(tm0, cby, l));
                assert(tile_map.layers@[l].config == tm0.layers@[l].config);
            }
            assert(descs_wf(*tile_map, descs@)) by {
                assert(tile_map.materials.by_id@ == tm0.materials.by_id@);
            }
        }
        let ghost tm_mid = *tile_map;
        let ry = self.resolve_axis(
            tile_map,
            xf,
            col,
            mgrs,
            descs,
            mover2,
            Axis2::Y,
            by.y,
            filter,
        );
        proof {
            lemma_axis_resolved_transfer(
                tm0,
                descs@,
                mid_col,
                col@,
                mgrs@[self.collider_mgr.id].colliders@,
                mid_xf,
                xf@,
                filter,
                aabb,
                Axis2::X,
                by.x as int,
                tol,
                rx as int,
            );
            lemma_axis_resolved_views(
                tm_mid,
                tm0,
                descs@,
                col@,
                mgrs@[self.collider_mgr.id].colliders@,
                xf@,
                filter,
                mover2,
                Axis2::Y,
                by.y as int,
                tol,
                ry as int,
            );
        }
        Vec2I { x: rx, y: ry }
    }

    /// [`KinematicManager::move_by_raw`] under the default gameplay
    /// filter: obstacles hanging from `ignore_descendants`'s transform
    /// subtree — the mover's own colliders — never block the move.
    pub fn move_by(
        &mut self,
        tile_map: &mut TileMap,
        xf: &mut Storage<Transform>,
        col: &mut Storage<Collider>,
        mgrs: &Storage<ColliderManager>,
        descs: &Storage<TileColliderDescriptor>,
        aabb: Aabb,
        by: Vec2I,
        ignore_descendants: Option<Entity>,
    ) -> (r: Vec2I)
        requires
            old(tile_map).wf(),
            old(self).wf(old(tile_map).materials),
            old(xf).wf(),
            old(col).wf(),
            mgrs.wf(),
            descs.wf(),
            tree_wf(old(xf)@),
            cache_wf(old(xf)@),
            crate::collider::colliders_wf(old(xf)@, old(col)@),
            crate::collider::manager_wf(mgrs@, old(col)@),
            mgrs@.contains_key(old(self).collider_mgr.id),
            descs_wf(*old(tile_map), descs@),
            raw_mover_wf(aabb),
            aabb.ordered(),
            -MOVE_MAX <= by.x <= MOVE_MAX,
            -MOVE_MAX <= by.y <= MOVE_MAX,
            query_small(
                *old(tile_map),
                spec_move_hull(aabb, by, old(self).tolerance as int),
            ),
        ensures
            final(tile_map).wf(),
            final(tile_map).views_eq(*old(tile_map)),
            final(tile_map).materials == old(tile_map).materials,
            final(self).collider_mgr == old(self).collider_mgr,
            final(self).tolerance == old(self).tolerance,
            final(self).wf(final(tile_map).materials),
            final(xf).wf(),
            final(col).wf(),
            tree_wf(final(xf)@),
            cache_wf(final(xf)@),
            globals_filled_in(old(xf)@, final(xf)@),
            crate::collider::colliders_wf(final(xf)@, final(col)@),
            crate::collider::manager_wf(mgrs@, final(col)@),
            crate::collider::collider_caches_filled_in(old(col)@, final(col)@),
            -MOVE_MAX <= r.x <= MOVE_MAX,
            -MOVE_MAX <= r.y <= MOVE_MAX,
            axis_resolved(
                *old(tile_map),
                descs@,
                final(col)@,
                mgrs@[old(self).collider_mgr.id].colliders@,
                final(xf)@,
                spec_filter_of(ignore_descendants),
                aabb,
                Axis2::X,
                by.x as int,
                old(self).tolerance as int,
                r.x as int,
            ),
            axis_resolved(
                *old(tile_map),
                descs@,
                final(col)@,
                mgrs@[old(self).collider_mgr.id].colliders@,
                final(xf)@,
                spec_filter_of(ignore_descendants),
                spec_translated(aabb, r.x as int, 0),
                Axis2::Y,
                by.y as int,
                old(self).tolerance as int,
                r.y as int,
            ),
    {
        let filter = match ignore_descendants {
            Some(e) => CollisionFilter::ExcludeDescendantsOf(e),
            None => CollisionFilter::All,
        };
        self.move_by_raw(tile_map, xf, col, mgrs, descs, aabb, by, filter)
    }
}

/// Whether any obstacle passing `filter` overlaps `probe`: a tile
/// obstacle, or a listed collider whose (computed) box intersects.
pub open spec fn spec_any_obstacle(
    tm: TileMap,
    descs: Map<u64, TileColliderDescriptor>,
    cmap: Map<u64, Collider>,
    mlist: Seq<u64>,
    xfm: Map<u64, Transform>,
    filter: CollisionFilter,
    probe: Aabb,
) -> bool {
    ||| exists|l: int, pos: Vec2I, k: int| #[trigger] tile_obstacle(tm, descs, probe, l, pos, k)
    ||| exists|j: int|
        0 <= j < mlist.len() && cmap.contains_key(#[trigger] mlist[j]) && cmap[
        mlist[j]].global_aabb is Some && probe.spec_intersects(cmap[mlist[j]].global_aabb->Some_0)
            && spec_passes(
            xfm,
            filter,
            AnyCollision::Collider(Entity { id: mlist[j] }, cmap[mlist[j]].global_aabb->Some_0),
        )
}

impl KinematicManager {
    /// Whether any obstacle passing `filter` overlaps the probe box.
    #[verifier::rlimit(100)]
    pub fn probe_overlaps(
        &mut self,
        tile_map: &mut TileMap,
        xf: &mut Storage<Transform>,
        col: &mut Storage<Collider>,
        mgrs: &Storage<ColliderManager>,
        descs: &Storage<TileColliderDescriptor>,
        probe: Aabb,
        filter: CollisionFilter,
    ) -> (r: bool)
        requires
            old(tile_map).wf(),
            old(self).wf(old(tile_map).materials),
            old(xf).wf(),
            old(col).wf(),
            mgrs.wf(),
            descs.wf(),
            tree_wf(old(xf)@),
            cache_wf(old(xf)@),
            crate::collider::colliders_wf(old(xf)@, old(col)@),
            crate::collider::manager_wf(mgrs@, old(col)@),
            mgrs@.contains_key(old(self).collider_mgr.id),
            descs_wf(*old(tile_map), descs@),
            kin_wf(probe),
            probe.ordered(),
            query_small(*old(tile_map), probe),
        ensures
            final(tile_map).wf(),
            final(tile_map).views_eq(*old(tile_map)),
            final(tile_map).materials == old(tile_map).materials,
            final(self).collider_mgr == old(self).collider_mgr,
            final(self).tolerance == old(self).tolerance,
            final(self).wf(final(tile_map).materials),
            final(xf).wf(),
            final(col).wf(),
            tree_wf(final(xf)@),
            cache_wf(final(xf)@),
            globals_filled_in(old(xf)@, final(xf)@),
            crate::collider::colliders_wf(final(xf)@, final(col)@),
            crate::collider::manager_wf(mgrs@, final(col)@),
            crate::collider::collider_caches_filled_in(old(col)@, final(col)@),
            r == spec_any_obstacle(
                *old(tile_map),
                descs@,
                final(col)@,
                mgrs@[old(self).collider_mgr.id].colliders@,
                final(xf)@,
                filter,
                probe,
            ),
    {
        let ghost tm0 = *old(tile_map);
        let obstacles = self.iter_colliders_in(tile_map, xf, col, mgrs, descs, probe);
        let ghost mlist = mgrs@[self.collider_mgr.id].colliders@;
        let ghost xfm = xf@;
        let ghost cmap = col@;
        let mut i: usize = 0;
        while i < obstacles.len()
            invariant
                tm0 == *old(tile_map),
                tile_map.wf(),
                tile_map.views_eq(tm0),
                tile_map.materials == tm0.materials,
                self.collider_mgr == old(self).collider_mgr,
                self.tolerance == old(self).tolerance,
                self.wf(tile_map.materials),
                xf.wf(),
                col.wf(),
                tree_wf(xf@),
                cache_wf(xf@),
                globals_filled_in(old(xf)@, xf@),
                crate::collider::manager_wf(mgrs@, col@),
                crate::collider::collider_caches_filled_in(old(col)@, col@),
                mgrs@.contains_key(self.collider_mgr.id),
                mlist == mgrs@[self.collider_mgr.id].colliders@,
                xf@ == xfm,
                col@ == cmap,
                crate::collider::colliders_wf(xfm, cmap),
                0 <= i <= obstacles@.len(),
                forall|i2: int|
                    0 <= i2 < obstacles@.len() ==> obstacle_sound(
                        tm0,
                        descs@,
                        cmap,
                        mlist,
                        probe,
                        #[trigger] obstacles@[i2],
                    ),
                forall|i2: int|
                    0 <= i2 < i ==> !spec_passes(xfm, filter, #[trigger] obstacles@[i2]),
            decreases obstacles@.len() - i,
        {
            let ob = obstacles[i];
            let passes: bool = match (ob, filter) {
                (AnyCollision::Collider(c, _), CollisionFilter::ExcludeDescendantsOf(root)) => {
                    proof {
                        assert(obstacle_sound(tm0, descs@, cmap, mlist, probe, ob));
                        assert(cmap.contains_key(c.id));
                        assert(xfm.contains_key(c.id));
                    }
                    !Transform::is_descendant_of(xf, c, root)
                },
                _ => true,
            };
            if passes {
                proof {
                    assert(obstacle_sound(tm0, descs@, cmap, mlist, probe, ob));
                    match ob {
                        AnyCollision::Tile(info, pos, bx) => {
                            assert(spec_any_obstacle(
                                tm0,
                                descs@,
                                cmap,
                                mlist,
                                xfm,
                                filter,
                                probe,
                            ));
                        },
                        AnyCollision::Collider(c, bx) => {
                            let j = choose|j: int| 0 <= j < mlist.len() && mlist[j] == c.id;
                            assert(spec_any_obstacle(
                                tm0,
                                descs@,
                                cmap,
                                mlist,
                                xfm,
                                filter,
                                probe,
                            ));
                        },
                    }
                }
                return true;
            }
            i = i + 1;
        }
        proof {
            // nothing passed, so no obstacle exists: a tile obstacle would
            // have been collected and would pass; a collider one likewise
            if spec_any_obstacle(tm0, descs@, cmap, mlist, xfm, filter, probe) {
                if exists|l: int, pos: Vec2I, k: int| #[trigger] tile_obstacle(
                    tm0,
                    descs@,
                    probe,
                    l,
                    pos,
                    k,
                ) {
                    let (l, pos, k) = choose|l: int, pos: Vec2I, k: int|
                        #[trigger] tile_obstacle(tm0, descs@, probe, l, pos, k);
                    let v = tile_obstacle_value(tm0, descs@, l, pos, k);
                    assert(obstacles@.contains(v));
                    let i2 = choose|i2: int|
                        0 <= i2 < obstacles@.len() && obstacles@[i2] == v;
                    assert(spec_passes(xfm, filter, obstacles@[i2]));
                    assert(false);
                } else {
                    let j = choose|j: int|
                        0 <= j < mlist.len() && cmap.contains_key(#[trigger] mlist[j]) && cmap[
                        mlist[j]].global_aabb is Some && probe.spec_intersects(
                            cmap[mlist[j]].global_aabb->Some_0,
                        ) && spec_passes(
                            xfm,
                            filter,
                            AnyCollision::Collider(
                                Entity { id: mlist[j] },
                                cmap[mlist[j]].global_aabb->Some_0,
                            ),
                        );
                    let v = AnyCollision::Collider(
                        Entity { id: mlist[j] },
                        cmap[mlist[j]].global_aabb->Some_0,
                    );
                    assert(obstacles@.contains(v));
                    let i2 = choose|i2: int|
                        0 <= i2 < obstacles@.len() && obstacles@[i2] == v;
                    assert(false);
                }
            }
        }
        false
    }

    /// Whether the mover stands on something: any obstacle (other than its
    /// own subtree, under the usual filter) overlaps a thin probe flush
    /// with its bottom edge, extended down by [`PROBE_EPS`].
    pub fn is_on_ground(
        &mut self,
        tile_map: &mut TileMap,
        xf: &mut Storage<Transform>,
        col: &mut Storage<Collider>,
        mgrs: &Storage<ColliderManager>,
        descs: &Storage<TileColliderDescriptor>,
        aabb: Aabb,
        ignore_descendants: Option<Entity>,
    ) -> (r: bool)
        requires
            old(tile_map).wf(),
            old(self).wf(old(tile_map).materials),
            old(xf).wf(),
            old(col).wf(),
            mgrs.wf(),
            descs.wf(),
            tree_wf(old(xf)@),
            cache_wf(old(xf)@),
            crate::collider::colliders_wf(old(xf)@, old(col)@),
            crate::collider::manager_wf(mgrs@, old(col)@),
            mgrs@.contains_key(old(self).collider_mgr.id),
            descs_wf(*old(tile_map), descs@),
            mover_wf(aabb),
            aabb.ordered(),
            query_small(*old(tile_map), spec_ground_probe(aabb)),
        ensures
            final(tile_map).wf(),
            final(tile_map).views_eq(*old(tile_map)),
            final(tile_map).materials == old(tile_map).materials,
            final(self).collider_mgr == old(self).collider_mgr,
            final(self).tolerance == old(self).tolerance,
            final(self).wf(final(tile_map).materials),
            final(xf).wf(),
            final(col).wf(),
            tree_wf(final(xf)@),
            cache_wf(final(xf)@),
            globals_filled_in(old(xf)@, final(xf)@),
            crate::collider::colliders_wf(final(xf)@, final(col)@),
            crate::collider::manager_wf(mgrs@, final(col)@),
            crate::collider::collider_caches_filled_in(old(col)@, final(col)@),
            r == spec_any_obstacle(
                *old(tile_map),
                descs@,
                final(col)@,
                mgrs@[old(self).collider_mgr.id].colliders@,
                final(xf)@,
                spec_filter_of(ignore_descendants),
                spec_ground_probe(aabb),
            ),
    {
        let probe = Aabb {
            min: Vec2I { x: aabb.min.x, y: aabb.max.y },
            max: Vec2I { x: aabb.max.x, y: aabb.max.y + PROBE_EPS },
        };
        let filter = match ignore_descendants {
            Some(e) => CollisionFilter::ExcludeDescendantsOf(e),
            None => CollisionFilter::All,
        };
        self.probe_overlaps(tile_map, xf, col, mgrs, descs, probe, filter)
    }

    /// Whether the mover presses against a ceiling: the mirror of
    /// [`KinematicManager::is_on_ground`] at the top edge, extended up by
    /// [`PROBE_EPS`].
    pub fn is_on_ceiling(
        &mut self,
        tile_map: &mut TileMap,
        xf: &mut Storage<Transform>,
        col: &mut Storage<Collider>,
        mgrs: &Storage<ColliderManager>,
        descs: &Storage<TileColliderDescriptor>,
        aabb: Aabb,
        ignore_descendants: Option<Entity>,
    ) -> (r: bool)
        requires
            old(tile_map).wf(),
            old(self).wf(old(tile_map).materials),
            old(xf).wf(),
            old(col).wf(),
            mgrs.wf(),
            descs.wf(),
            tree_wf(old(xf)@),
            cache_wf(old(xf)@),
            crate::collider::colliders_wf(old(xf)@, old(col)@),
            crate::collider::manager_wf(mgrs@, old(col)@),
            mgrs@.contains_key(old(self).collider_mgr.id),
            descs_wf(*old(tile_map), descs@),
            mover_wf(aabb),
            aabb.ordered(),
            query_small(*old(tile_map), spec_ceiling_probe(aabb)),
        ensures
            final(tile_map).wf(),
            final(tile_map).views_eq(*old(tile_map)),
            final(tile_map).materials == old(tile_map).materials,
            final(self).collider_mgr == old(self).collider_mgr,
            final(self).tolerance == old(self).tolerance,
            final(self).wf(final(tile_map).materials),
            final(xf).wf(),
            final(col).wf(),
            tree_wf(final(xf)@),
            cache_wf(final(xf)@),
            globals_filled_in(old(xf)@, final(xf)@),
            crate::collider::colliders_wf(final(xf)@, final(col)@),
            crate::collider::manager_wf(mgrs@, final(col)@),
            crate::collider::collider_caches_filled_in(old(col)@, final(col)@),
            r == spec_any_obstacle(
                *old(tile_map),
                descs@,
                final(col)@,
                mgrs@[old(self).collider_mgr.id].colliders@,
                final(xf)@,
                spec_filter_of(ignore_descendants),
                spec_ceiling_probe(aabb),
            ),
    {
        let probe = Aabb {
            min: Vec2I { x: aabb.min.x, y: aabb.min.y - PROBE_EPS },
            max: Vec2I { x: aabb.max.x, y: aabb.min.y },
        };
        let filter = match ignore_descendants {
            Some(e) => CollisionFilter::ExcludeDescendantsOf(e),
            None => CollisionFilter::All,
        };
        self.probe_overlaps(tile_map, xf, col, mgrs, descs, probe, filter)
    }
}

/// The thin box flush under the mover's bottom edge the grounded query
/// tests.
pub open spec fn spec_ground_probe(aabb: Aabb) -> Aabb {
    Aabb {
        min: Vec2I { x: aabb.min.x, y: aabb.max.y },
        max: Vec2I { x: aabb.max.x, y: (aabb.max.y + PROBE_EPS) as i64 },
    }
}

/// The thin box flush above the mover's top edge the ceiling query tests.
pub open spec fn spec_ceiling_probe(aabb: Aabb) -> Aabb {
    Aabb {
        min: Vec2I { x: aabb.min.x, y: (aabb.min.y - PROBE_EPS) as i64 },
        max: Vec2I { x: aabb.max.x, y: aabb.min.y },
    }
}

/// Non-penetration: a resolved axis displacement never exceeds the
/// pre-tolerance gap to any tile obstacle its broad box sees, so the
/// displaced mover does not cross the obstacle's near edge.
pub proof fn lemma_non_penetration(
    tm: TileMap,
    descs: Map<u64, TileColliderDescriptor>,
    cmap: Map<u64, Collider>,
    mlist: Seq<u64>,
    xfm: Map<u64, Transform>,
    filter: CollisionFilter,
    mover: Aabb,
    axis: Axis2,
    d: int,
    tol: int,
    r: int,
    l: int,
    pos: Vec2I,
    k: int,
)
    requires
        axis_resolved(tm, descs, cmap, mlist, xfm, filter, mover, axis, d, tol, r),
        tile_obstacle(tm, descs, spec_check_box(mover, axis, d, tol), l, pos, k),
        0 < tol,
    ensures
        iabs(r) <= spec_gap_of(tm, descs, mover, axis, d, l, pos, k),
{
    assert(iabs(r) <= clamp0(spec_gap_of(tm, descs, mover, axis, d, l, pos, k) - tol));
}

/// The gap an axis pass keeps from tile obstacle `(l, pos, k)`.
pub open spec fn spec_gap_of(
    tm: TileMap,
    descs: Map<u64, TileColliderDescriptor>,
    mover: Aabb,
    axis: Axis2,
    d: int,
    l: int,
    pos: Vec2I,
    k: int,
) -> int {
    spec_gap(mover, tile_obstacle_value(tm, descs, l, pos, k).spec_aabb(), axis, d < 0)
}

/// Sliding: when every obstacle of the pass's broad box admits the full
/// request, the full request is resolved — a wall that blocks only the
/// other axis takes nothing off this one.
pub proof fn lemma_full_slide(
    tm: TileMap,
    descs: Map<u64, TileColliderDescriptor>,
    cmap: Map<u64, Collider>,
    mlist: Seq<u64>,
    xfm: Map<u64, Transform>,
    filter: CollisionFilter,
    mover: Aabb,
    axis: Axis2,
    d: int,
    tol: int,
    r: int,
)
    requires
        axis_resolved(tm, descs, cmap, mlist, xfm, filter, mover, axis, d, tol, r),
        forall|l: int, pos: Vec2I, k: int|
            #[trigger] tile_obstacle(tm, descs, spec_check_box(mover, axis, d, tol), l, pos, k)
                ==> clamp0(spec_gap_of(tm, descs, mover, axis, d, l, pos, k) - tol) >= iabs(d),
        forall|j: int|
            0 <= j < mlist.len() && cmap.contains_key(#[trigger] mlist[j]) && cmap[
            mlist[j]].global_aabb is Some && spec_check_box(mover, axis, d, tol).spec_intersects(
                cmap[mlist[j]].global_aabb->Some_0,
            ) && spec_passes(
                xfm,
                filter,
                AnyCollision::Collider(
                    Entity { id: mlist[j] },
                    cmap[mlist[j]].global_aabb->Some_0,
                ),
            ) ==> clamp0(spec_gap(mover, cmap[mlist[j]].global_aabb->Some_0, axis, d < 0) - tol)
                >= iabs(d),
    ensures
        r == d,
{
    let cb = spec_check_box(mover, axis, d, tol);
    let neg = d < 0;
    if iabs(r) != iabs(d) {
        if exists|l: int, pos: Vec2I, k: int|
            #[trigger] tile_obstacle(tm, descs, cb, l, pos, k) && iabs(r) == clamp0(
                spec_gap(mover, tile_obstacle_value(tm, descs, l, pos, k).spec_aabb(), axis, neg)
                    - tol,
            ) {
            let (l, pos, k) = choose|l: int, pos: Vec2I, k: int|
                #[trigger] tile_obstacle(tm, descs, cb, l, pos, k) && iabs(r) == clamp0(
                    spec_gap(
                        mover,
                        tile_obstacle_value(tm, descs, l, pos, k).spec_aabb(),
                        axis,
                        neg,
                    ) - tol,
                );
            assert(clamp0(spec_gap_of(tm, descs, mover, axis, d, l, pos, k) - tol) >= iabs(d));
            assert(false);
        } else {
            assert(false);
        }
    }
}

/// Self-exclusion: under the subtree-excluding filter, the mover's own
/// colliders never constrain the move — overlapping or not, the resolved
/// displacement is the full request whenever everything else admits it.
pub proof fn lemma_self_exclusion(
    tm: TileMap,
    descs: Map<u64, TileColliderDescriptor>,
    cmap: Map<u64, Collider>,
    mlist: Seq<u64>,
    xfm: Map<u64, Transform>,
    root: Entity,
    mover: Aabb,
    axis: Axis2,
    d: int,
    tol: int,
    r: int,
)
    requires
        axis_resolved(
            tm,
            descs,
            cmap,
            mlist,
            xfm,
            CollisionFilter::ExcludeDescendantsOf(root),
            mover,
            axis,
            d,
            tol,
            r,
        ),
        forall|l: int, pos: Vec2I, k: int|
            #[trigger] tile_obstacle(tm, descs, spec_check_box(mover, axis, d, tol), l, pos, k)
                ==> clamp0(spec_gap_of(tm, descs, mover, axis, d, l, pos, k) - tol) >= iabs(d),
        // only the obstacles OUTSIDE the mover's own subtree need admit
        // the move
        forall|j: int|
            0 <= j < mlist.len() && cmap.contains_key(#[trigger] mlist[j]) && cmap[
            mlist[j]].global_aabb is Some && spec_check_box(mover, axis, d, tol).spec_intersects(
                cmap[mlist[j]].global_aabb->Some_0,
            ) && !(xfm.contains_key(mlist[j]) && crate::transform::spec_is_descendant(
                xfm,
                mlist[j],
                root.id,
            )) ==> clamp0(spec_gap(mover, cmap[mlist[j]].global_aabb->Some_0, axis, d < 0) - tol)
                >= iabs(d),
    ensures
        r == d,
{
    let filter = CollisionFilter::ExcludeDescendantsOf(root);
    assert forall|j: int|
        0 <= j < mlist.len() && cmap.contains_key(#[trigger] mlist[j]) && cmap[
        mlist[j]].global_aabb is Some && spec_check_box(mover, axis, d, tol).spec_intersects(
            cmap[mlist[j]].global_aabb->Some_0,
        ) && spec_passes(
            xfm,
            filter,
            AnyCollision::Collider(Entity { id: mlist[j] }, cmap[mlist[j]].global_aabb->Some_0),
        ) implies clamp0(spec_gap(mover, cmap[mlist[j]].global_aabb->Some_0, axis, d < 0) - tol)
        >= iabs(d) by {}
    lemma_full_slide(tm, descs, cmap, mlist, xfm, filter, mover, axis, d, tol, r);
}

/// The filter [`KinematicManager::move_by`] runs under.
pub open spec fn spec_filter_of(ignore_descendants: Option<Entity>) -> CollisionFilter {
    match ignore_descendants {
        Some(e) => CollisionFilter::ExcludeDescendantsOf(e),
        None => CollisionFilter::All,
    }
}

/// Pushing keeps everything already contained, and contains the new
/// element.
proof fn lemma_push_keeps_contains(s: Seq<AnyCollision>, v: AnyCollision)
    ensures
        forall|x: AnyCollision| s.contains(x) ==> #[trigger] s.push(v).contains(x),
        s.push(v).contains(v),
{
    assert(s.push(v)[s.len() as int] == v);
    assert forall|x: AnyCollision| s.contains(x) implies #[trigger] s.push(v).contains(x) by {
        let i = choose|i: int| 0 <= i < s.len() && s[i] == x;
        assert(s.push(v)[i] == x);
    }
}

/// A tile index taken from the scanned range of `[lo, hi]` maps back into
/// world range: its cell base stays within a tile of the query bounds.
proof fn lemma_cell_world_bound(lo: int, hi: int, s: int, t: int)
    requires
        s > 0,
        s <= crate::tile::MAX_TILE_SIZE,
        -KIN_MAX <= lo <= KIN_MAX,
        -KIN_MAX <= hi <= KIN_MAX,
        lo / s <= t <= hi / s,
    ensures
        in_world(t * s),
{
    vstd::arithmetic::div_mod::lemma_fundamental_div_mod(lo, s);
    vstd::arithmetic::div_mod::lemma_mod_bound(lo, s);
    vstd::arithmetic::div_mod::lemma_fundamental_div_mod(hi, s);
    vstd::arithmetic::div_mod::lemma_mod_bound(hi, s);
    assert(in_world(t * s)) by (nonlinear_arith)
        requires
            s > 0,
            s <= crate::tile::MAX_TILE_SIZE,
            -KIN_MAX <= lo <= KIN_MAX,
            -KIN_MAX <= hi <= KIN_MAX,
            lo == s * (lo / s) + lo % s,
            0 <= lo % s < s,
            hi == s * (hi / s) + hi % s,
            0 <= hi % s < s,
            lo / s <= t <= hi / s,
            WORLD_MAX == 2 * KIN_MAX,
    ;
}

} // verus!
