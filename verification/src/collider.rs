//! Axis-aligned colliders attached to transform nodes, and the manager
//! that lists them for spatial queries.
//!
//! A collider lives on the same entity as its transform node. Its cached
//! global box follows the same discipline as the transform cache: absent,
//! or exactly the node's global transform applied to the local box
//! ([`colliders_wf`]).

use vstd::prelude::*;
use crate::aabb::{Aabb, Vec2I};
use crate::transform::{spec_xform_point, Transform, Xform};
use crate::world::Storage;

verus! {

/// Index value a despawned collider carries instead of a manager slot.
pub const DESPAWNED: usize = usize::MAX;

/// An axis-aligned box bound to a transform node.
#[derive(Debug, Clone)]
pub struct Collider {
    /// Entity carrying the [`ColliderManager`] this collider is listed in.
    pub manager: u64,
    /// Slot in the manager's list, or [`DESPAWNED`].
    pub index_in_manager: usize,
    /// The box relative to the owning transform node.
    pub local_aabb: Aabb,
    /// Cached global box, or absent when stale.
    pub global_aabb: Option<Aabb>,
}

/// The flat list of live colliders in one hierarchy scope.
#[derive(Debug, Clone)]
pub struct ColliderManager {
    /// Entity ids of the live (not despawned) colliders.
    pub colliders: Vec<u64>,
}

impl ColliderManager {
    pub fn new() -> (r: ColliderManager)
        ensures
            r.colliders@.len() == 0,
    {
        ColliderManager { colliders: Vec::new() }
    }
}

/// The global box a collider would cache: its local corners sent through
/// the owning node's global transform, corner by corner, without
/// re-normalizing.
pub open spec fn spec_global_aabb(t: Xform, local: Aabb) -> Aabb {
    Aabb { min: spec_xform_point(t, local.min), max: spec_xform_point(t, local.max) }
}

/// Collider-side well-formedness against the transform store: every
/// collider sits on a transform node, and every cached global box is the
/// (also cached) node global applied to the local box.
pub open spec fn colliders_wf(m: Map<u64, Transform>, c: Map<u64, Collider>) -> bool {
    forall|id: u64| #[trigger]
        c.contains_key(id) ==> m.contains_key(id) && match c[id].global_aabb {
            Some(g) => m[id].global is Some && g == spec_global_aabb(
                m[id].global->Some_0,
                c[id].local_aabb,
            ),
            None => true,
        }
}

/// Manager-side well-formedness: the manager lists exactly the
/// non-despawned colliders that point back at it, each knowing its slot.
pub open spec fn manager_wf(
    mgrs: Map<u64, ColliderManager>,
    c: Map<u64, Collider>,
) -> bool {
    &&& forall|mid: u64| #[trigger]
        mgrs.contains_key(mid) ==> mgrs[mid].colliders@.len() < DESPAWNED
    &&& forall|mid: u64| #[trigger]
        mgrs.contains_key(mid) ==> forall|j: int|
            0 <= j < mgrs[mid].colliders@.len() ==> {
                let cid = #[trigger] mgrs[mid].colliders@[j];
                c.contains_key(cid) && c[cid].manager == mid && c[cid].index_in_manager == j
            }
    &&& forall|cid: u64| #[trigger]
        c.contains_key(cid) && c[cid].index_in_manager != DESPAWNED ==> {
            let mid = c[cid].manager;
            mgrs.contains_key(mid) && c[cid].index_in_manager < mgrs[mid].colliders@.len()
                && mgrs[mid].colliders@[c[cid].index_in_manager as int] == cid
        }
}

/// Collider fields other than the cached boxes are untouched, and every
/// box cached before is still cached with the same value (new ones may
/// have been filled in).
pub open spec fn collider_caches_filled_in(m1: Map<u64, Collider>, m2: Map<u64, Collider>) -> bool {
    &&& m1.dom() == m2.dom()
    &&& forall|id: u64| #[trigger]
        m2.contains_key(id) ==> m2[id].manager == m1[id].manager && m2[id].index_in_manager
            == m1[id].index_in_manager && m2[id].local_aabb == m1[id].local_aabb && (
        m1[id].global_aabb is Some ==> m2[id].global_aabb == m1[id].global_aabb)
}

impl Collider {
    /// Attach a collider to `e`'s transform node with the given local box,
    /// registered in the collider manager nearest above `e` — a scene
    /// without one is misconfigured, excluded by contract. The new collider
    /// takes the next slot of that manager's list.
    pub fn new(
        xf: &Storage<Transform>,
        col: &mut Storage<Collider>,
        mgrs: &mut Storage<ColliderManager>,
        e: crate::world::Entity,
        local_aabb: Aabb,
    )
        requires
            xf.wf(),
            old(col).wf(),
            old(mgrs).wf(),
            crate::transform::tree_wf(xf@),
            colliders_wf(xf@, old(col)@),
            manager_wf(old(mgrs)@, old(col)@),
            xf@.contains_key(e.id),
            !old(col)@.contains_key(e.id),
            crate::transform::spec_deep_find(xf@, old(mgrs)@.dom(), e.id) is Some,
            old(mgrs)@[crate::transform::spec_deep_find(
                xf@,
                old(mgrs)@.dom(),
                e.id,
            )->Some_0].colliders@.len() < DESPAWNED - 1,
        ensures
            final(col).wf(),
            final(mgrs).wf(),
            colliders_wf(xf@, final(col)@),
            manager_wf(final(mgrs)@, final(col)@),
            final(col)@.dom() == old(col)@.dom().insert(e.id),
            final(col)@[e.id].local_aabb == local_aabb,
            final(col)@[e.id].global_aabb is None,
            final(col)@[e.id].manager == crate::transform::spec_deep_find(
                xf@,
                old(mgrs)@.dom(),
                e.id,
            )->Some_0,
            final(col)@[e.id].index_in_manager != DESPAWNED,
            forall|id: u64|
                old(col)@.contains_key(id) ==> final(col)@[id] == old(col)@[id],
            final(mgrs)@.dom() == old(mgrs)@.dom(),
            final(mgrs)@[final(col)@[e.id].manager].colliders@ == old(mgrs)@[final(col)@[e.id].manager].colliders@.push(e.id),
            forall|mid: u64| #[trigger]
                final(mgrs)@.contains_key(mid) && mid != final(col)@[e.id].manager ==> final(mgrs)@[mid] == old(mgrs)@[mid],
    {
        let mid = Transform::deep_obj(xf, mgrs, e).unwrap();
        let mgr = mgrs.get_mut(mid.id);
        let index = mgr.colliders.len();
        mgr.colliders.push(e.id);
        col.insert(
            e.id,
            Collider {
                manager: mid.id,
                index_in_manager: index,
                local_aabb,
                global_aabb: None,
            },
        );
        proof {
            assert(final(col)@.dom() =~= old(col)@.dom().insert(e.id));
            assert(final(mgrs)@.dom() =~= old(mgrs)@.dom());
            assert forall|cid: u64| #[trigger]
                final(col)@.contains_key(cid) implies xf@.contains_key(cid) && match final(col)@[cid].global_aabb {
                Some(g) => xf@[cid].global is Some && g == spec_global_aabb(
                    xf@[cid].global->Some_0,
                    final(col)@[cid].local_aabb,
                ),
                None => true,
            } by {
                if cid != e.id {
                    assert(final(col)@[cid] == old(col)@[cid]);
                }
            }
            assert forall|m2: u64| #[trigger] final(mgrs)@.contains_key(m2) implies forall|
                j: int,
            |
                0 <= j < final(mgrs)@[m2].colliders@.len() ==> {
                    let cid = #[trigger] final(mgrs)@[m2].colliders@[j];
                    final(col)@.contains_key(cid) && final(col)@[cid].manager == m2 && final(col)@[cid].index_in_manager == j
                } by {
                assert forall|j: int| 0 <= j < final(mgrs)@[m2].colliders@.len() implies {
                    let cid = #[trigger] final(mgrs)@[m2].colliders@[j];
                    final(col)@.contains_key(cid) && final(col)@[cid].manager == m2 && final(col)@[cid].index_in_manager == j
                } by {
                    let cid = final(mgrs)@[m2].colliders@[j];
                    if m2 == mid.id && j == old(mgrs)@[mid.id].colliders@.len() {
                        assert(cid == e.id);
                    } else {
                        if m2 == mid.id {
                            assert(cid == old(mgrs)@[m2].colliders@[j]);
                        } else {
                            assert(final(mgrs)@[m2] == old(mgrs)@[m2]);
                        }
                        assert(old(col)@.contains_key(cid));
                        assert(old(col)@[cid].index_in_manager == j);
                        assert(cid != e.id);
                        assert(final(col)@[cid] == old(col)@[cid]);
                    }
                }
            }
            assert forall|cid: u64| #[trigger]
                final(col)@.contains_key(cid) && final(col)@[cid].index_in_manager != DESPAWNED
                    implies {
                let m2 = final(col)@[cid].manager;
                final(mgrs)@.contains_key(m2) && final(col)@[cid].index_in_manager < final(mgrs)@[m2].colliders@.len() && final(mgrs)@[m2].colliders@[final(col)@[cid].index_in_manager as int] == cid
            } by {
                if cid == e.id {
                    assert(final(mgrs)@[mid.id].colliders@[index as int] == e.id);
                } else {
                    assert(final(col)@[cid] == old(col)@[cid]);
                    let m2 = old(col)@[cid].manager;
                    if m2 == mid.id {
                        assert(final(mgrs)@[m2].colliders@[old(col)@[cid].index_in_manager as int] == old(mgrs)@[m2].colliders@[old(col)@[cid].index_in_manager as int]);
                    } else {
                        assert(final(mgrs)@[m2] == old(mgrs)@[m2]);
                    }
                }
            }
        }
    }

    /// Take the collider of `e` out of its manager's list; the displaced
    /// last entry inherits the vacated slot, and the collider is marked
    /// despawned. Despawning twice is excluded by contract.
    pub fn despawn(col: &mut Storage<Collider>, mgrs: &mut Storage<ColliderManager>, e: crate::world::Entity)
        requires
            old(col).wf(),
            old(mgrs).wf(),
            manager_wf(old(mgrs)@, old(col)@),
            old(col)@.contains_key(e.id),
            old(col)@[e.id].index_in_manager != DESPAWNED,
        ensures
            final(col).wf(),
            final(mgrs).wf(),
            manager_wf(final(mgrs)@, final(col)@),
            final(col)@.dom() == old(col)@.dom(),
            final(col)@[e.id].index_in_manager == DESPAWNED,
            final(col)@[e.id].local_aabb == old(col)@[e.id].local_aabb,
            final(col)@[e.id].global_aabb == old(col)@[e.id].global_aabb,
            final(col)@[e.id].manager == old(col)@[e.id].manager,
            final(mgrs)@.dom() == old(mgrs)@.dom(),
            final(mgrs)@[old(col)@[e.id].manager].colliders@ == old(mgrs)@[old(col)@[e.id].manager].colliders@.update(
                old(col)@[e.id].index_in_manager as int,
                old(mgrs)@[old(col)@[e.id].manager].colliders@.last(),
            ).drop_last(),
            forall|mid: u64| #[trigger]
                final(mgrs)@.contains_key(mid) && mid != old(col)@[e.id].manager ==> final(mgrs)@[mid] == old(mgrs)@[mid],
            forall|cid: u64| #[trigger]
                final(col)@.contains_key(cid) ==> final(col)@[cid].local_aabb == old(col)@[cid].local_aabb && final(col)@[cid].global_aabb == old(col)@[cid].global_aabb
                    && final(col)@[cid].manager == old(col)@[cid].manager,
    {
        let mid = col.get(e.id).manager;
        let index = col.get(e.id).index_in_manager;
        let ghost old_list = mgrs@[mid].colliders@;
        let mgr = mgrs.get_mut(mid);
        mgr.colliders.swap_remove(index);
        let ghost new_list = mgrs@[mid].colliders@;
        proof {
            assert(new_list =~= old_list.update(index as int, old_list.last()).drop_last());
        }
        let moved_opt: Option<u64> = {
            let mgr2 = mgrs.get(mid);
            if index < mgr2.colliders.len() {
                Some(mgr2.colliders[index])
            } else {
                None
            }
        };
        match moved_opt {
            Some(moved) => {
                proof {
                    assert(moved == old_list.last());
                    assert(old(col)@[moved].index_in_manager == old_list.len() - 1);
                    assert(moved != e.id);
                }
                let mc = col.get_mut(moved);
                mc.index_in_manager = index;
            },
            None => {},
        }
        let ec = col.get_mut(e.id);
        ec.index_in_manager = DESPAWNED;
        proof {
            let cfin = col@;
            let mfin = mgrs@;
            assert(cfin.dom() =~= old(col)@.dom());
            assert(mfin.dom() =~= old(mgrs)@.dom());
            assert forall|m2: u64| #[trigger] mfin.contains_key(m2) implies forall|j: int|
                0 <= j < mfin[m2].colliders@.len() ==> {
                    let cid = #[trigger] mfin[m2].colliders@[j];
                    cfin.contains_key(cid) && cfin[cid].manager == m2 && cfin[
                    cid].index_in_manager == j
                } by {
                assert forall|j: int| 0 <= j < mfin[m2].colliders@.len() implies {
                    let cid = #[trigger] mfin[m2].colliders@[j];
                    cfin.contains_key(cid) && cfin[cid].manager == m2 && cfin[
                    cid].index_in_manager == j
                } by {
                    let cid = mfin[m2].colliders@[j];
                    if m2 == mid {
                        if j == index && index < new_list.len() {
                            assert(cid == old_list.last());
                        } else {
                            assert(cid == old_list[j]);
                            assert(old(col)@[cid].index_in_manager == j);
                            assert(cid != e.id);
                            assert(cid != old_list.last() || j == old_list.len() - 1) by {
                                if cid == old_list.last() {
                                    assert(old(col)@[cid].index_in_manager == old_list.len()
                                        - 1);
                                }
                            }
                        }
                    } else {
                        assert(mfin[m2] == old(mgrs)@[m2]);
                        assert(old(col)@[cid].manager == m2);
                        assert(cid != e.id);
                        assert(cid != old_list.last() || true);
                        assert(old(col)@[cid].index_in_manager == j);
                        assert(cfin[cid].index_in_manager == j) by {
                            if cid == old_list.last() && index < new_list.len() {
                                assert(old(col)@[cid].manager == mid);
                            }
                        }
                    }
                }
            }
            assert forall|cid: u64| #[trigger]
                cfin.contains_key(cid) && cfin[cid].index_in_manager != DESPAWNED implies {
                let m2 = cfin[cid].manager;
                mfin.contains_key(m2) && cfin[cid].index_in_manager < mfin[m2].colliders@.len()
                    && mfin[m2].colliders@[cfin[cid].index_in_manager as int] == cid
            } by {
                assert(cid != e.id);
                if index < new_list.len() && cid == old_list.last() {
                    assert(cfin[cid].index_in_manager == index);
                    assert(mfin[mid].colliders@[index as int] == cid);
                } else {
                    assert(cfin[cid].index_in_manager == old(col)@[cid].index_in_manager);
                    let m2 = old(col)@[cid].manager;
                    let oj = old(col)@[cid].index_in_manager as int;
                    if m2 == mid {
                        assert(old_list[oj] == cid);
                        assert(oj != index) by {
                            if oj == index {
                                assert(old_list[index as int] == e.id);
                            }
                        }
                        assert(oj != old_list.len() - 1) by {
                            if oj == old_list.len() - 1 {
                                assert(cid == old_list.last());
                                if index < new_list.len() {
                                } else {
                                    assert(index == old_list.len() - 1);
                                }
                            }
                        }
                        assert(mfin[mid].colliders@[oj] == cid);
                    } else {
                        assert(mfin[m2] == old(mgrs)@[m2]);
                    }
                }
            }
        }
    }

    /// The collider's box relative to its transform node.
    pub fn local_aabb(col: &Storage<Collider>, e: crate::world::Entity) -> (r: Aabb)
        requires
            col.wf(),
            col@.contains_key(e.id),
        ensures
            r == col@[e.id].local_aabb,
    {
        col.get(e.id).local_aabb
    }

    /// Replace the collider's local box; its cached global box goes stale.
    pub fn set_local_aabb(col: &mut Storage<Collider>, e: crate::world::Entity, aabb: Aabb)
        requires
            old(col).wf(),
            old(col)@.contains_key(e.id),
        ensures
            final(col).wf(),
            final(col)@.dom() == old(col)@.dom(),
            final(col)@[e.id].local_aabb == aabb,
            final(col)@[e.id].global_aabb is None,
            final(col)@[e.id].manager == old(col)@[e.id].manager,
            final(col)@[e.id].index_in_manager == old(col)@[e.id].index_in_manager,
            forall|id: u64|
                old(col)@.contains_key(id) && id != e.id ==> final(col)@[id] == old(col)@[id],
    {
        let c = col.get_mut(e.id);
        c.local_aabb = aabb;
        c.global_aabb = None;
        proof {
            assert(final(col)@.dom() =~= old(col)@.dom());
        }
    }

    /// The collider's world box: the cached value, recomputed first if
    /// stale by transforming the local corners through the owning node's
    /// global transform.
    pub fn global_aabb(
        xf: &mut Storage<Transform>,
        col: &mut Storage<Collider>,
        e: crate::world::Entity,
    ) -> (r: Aabb)
        requires
            old(xf).wf(),
            old(col).wf(),
            crate::transform::tree_wf(old(xf)@),
            crate::transform::cache_wf(old(xf)@),
            colliders_wf(old(xf)@, old(col)@),
            old(col)@.contains_key(e.id),
        ensures
            final(xf).wf(),
            final(col).wf(),
            crate::transform::tree_wf(final(xf)@),
            crate::transform::cache_wf(final(xf)@),
            colliders_wf(final(xf)@, final(col)@),
            crate::transform::globals_filled_in(old(xf)@, final(xf)@),
            collider_caches_filled_in(old(col)@, final(col)@),
            final(col)@[e.id].global_aabb == Some(r),
            final(xf)@[e.id].global is Some,
            r == spec_global_aabb(final(xf)@[e.id].global->Some_0, final(col)@[e.id].local_aabb),
    {
        let cached = col.get(e.id).global_aabb;
        match cached {
            Some(g) => g,
            None => {
                let t = Transform::global_xform(xf, e);
                let local = col.get(e.id).local_aabb;
                let g = Aabb { min: t.xform_point(local.min), max: t.xform_point(local.max) };
                let c = col.get_mut(e.id);
                c.global_aabb = Some(g);
                proof {
                    assert(final(col)@.dom() =~= old(col)@.dom());
                    assert forall|cid: u64| #[trigger]
                        col@.contains_key(cid) implies xf@.contains_key(cid) && match col@[
                    cid].global_aabb {
                        Some(gg) => xf@[cid].global is Some && gg == spec_global_aabb(
                            xf@[cid].global->Some_0,
                            col@[cid].local_aabb,
                        ),
                        None => true,
                    } by {
                        if cid != e.id {
                            assert(col@[cid] == old(col)@[cid]);
                            if old(col)@[cid].global_aabb is Some {
                                assert(old(xf)@[cid].global is Some);
                                assert(xf@[cid].global == old(xf)@[cid].global);
                            }
                        }
                    }
                }
                g
            },
        }
    }
}

/// [`colliders_wf`] survives any transform change that only fills in
/// stale caches.
pub proof fn lemma_colliders_wf_filled_in(
    m1: Map<u64, Transform>,
    m2: Map<u64, Transform>,
    c: Map<u64, Collider>,
)
    requires
        crate::transform::globals_filled_in(m1, m2),
        colliders_wf(m1, c),
    ensures
        colliders_wf(m2, c),
{
    assert forall|id: u64| #[trigger] c.contains_key(id) implies m2.contains_key(id) && match c[
    id].global_aabb {
        Some(g) => m2[id].global is Some && g == spec_global_aabb(
            m2[id].global->Some_0,
            c[id].local_aabb,
        ),
        None => true,
    } by {
        assert(m1.contains_key(id));
        match c[id].global_aabb {
            Some(g) => {
                assert(m2[id].global == m1[id].global);
            },
            None => {},
        }
    }
}

/// A manager's list never repeats a collider: each listed entry knows its
/// own slot.
pub proof fn lemma_manager_list_distinct(
    mgrs: Map<u64, ColliderManager>,
    c: Map<u64, Collider>,
    mid: u64,
)
    requires
        manager_wf(mgrs, c),
        mgrs.contains_key(mid),
    ensures
        forall|a: int, b: int|
            0 <= a < b < mgrs[mid].colliders@.len() ==> mgrs[mid].colliders@[a] != mgrs[
                mid
            ].colliders@[b],
{
    assert forall|a: int, b: int|
        0 <= a < b < mgrs[mid].colliders@.len() implies mgrs[mid].colliders@[a] != mgrs[
        mid
    ].colliders@[b] by {
        let ca = mgrs[mid].colliders@[a];
        let cb = mgrs[mid].colliders@[b];
        if ca == cb {
            assert(c[ca].index_in_manager == a && c[cb].index_in_manager == b);
        }
    }
}

/// Blank out the cached global box of `e`'s collider, if it has one; the
/// transform invalidation cascade pokes this for every node it dirties.
pub fn invalidate_global_aabb(col: &mut Storage<Collider>, e: u64)
    requires
        old(col).wf(),
    ensures
        final(col).wf(),
        final(col)@.dom() == old(col)@.dom(),
        forall|id: u64| #[trigger]
            final(col)@.contains_key(id) ==> final(col)@[id].manager == old(col)@[id].manager
                && final(col)@[id].index_in_manager == old(col)@[id].index_in_manager
                && final(col)@[id].local_aabb == old(col)@[id].local_aabb,
        forall|id: u64| #[trigger]
            final(col)@.contains_key(id) ==> final(col)@[id].global_aabb
                == old(col)@[id].global_aabb || final(col)@[id].global_aabb is None,
        final(col)@.contains_key(e) ==> final(col)@[e].global_aabb is None,
    {
    if col.has(e) {
        let c = col.get_mut(e);
        c.global_aabb = None;
        proof {
            assert(final(col)@ =~= old(col)@.insert(e, *final(c)));
            assert(final(col)@.dom() =~= old(col)@.dom());
        }
    } else {
        proof {
            assert(final(col)@.dom() =~= old(col)@.dom());
        }
    }
}

} // verus!
