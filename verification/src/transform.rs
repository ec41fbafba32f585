//! The transform hierarchy: 2D affine nodes with parent/child links and a
//! lazily cached global transform.
//!
//! Nodes live in a [`Storage`] keyed by entity id. Two invariants govern
//! the store: [`tree_wf`] says the parent and child links mirror each other
//! (with a ghost depth making parent chains well-founded), and [`cache_wf`]
//! says every cached global transform equals its parent's cached global
//! composed with the node's local transform — a cache entry is either
//! absent or right.

use vstd::prelude::*;
use crate::aabb::Vec2I;
use crate::collider::Collider;
use crate::scalar::SCALE;
use crate::world::{Entity, Storage};

verus! {

/// Clamp a mathematical integer into the 64-bit range.
pub open spec fn sat64(x: int) -> int {
    if x < i64::MIN {
        i64::MIN as int
    } else if x > i64::MAX {
        i64::MAX as int
    } else {
        x
    }
}

/// Fixed-point product, flooring the scale division and clamping into
/// range.
pub open spec fn spec_fx_mul(a: int, b: int) -> int {
    sat64((a * b) / (SCALE as int))
}

/// Saturating sum.
pub open spec fn spec_sat_add(a: int, b: int) -> int {
    sat64(a + b)
}

/// Fixed-point multiply: exactly [`spec_fx_mul`].
pub fn fx_mul(a: i64, b: i64) -> (r: i64)
    ensures
        r == spec_fx_mul(a as int, b as int),
{
    proof {
        assert(-0x4000_0000_0000_0000_0000_0000_0000_0000int <= (a as int) * (b as int)
            <= 0x4000_0000_0000_0000_0000_0000_0000_0000int) by (nonlinear_arith)
            requires
                -0x8000_0000_0000_0000int <= (a as int) < 0x8000_0000_0000_0000int,
                -0x8000_0000_0000_0000int <= (b as int) < 0x8000_0000_0000_0000int,
        ;
    }
    let p: i128 = (a as i128) * (b as i128);
    proof {
        crate::scalar::lemma_floor_div_in_range(
            p as int,
            SCALE as int,
            0x4000_0000_0000_0000_0000_0000_0000_0000int,
        );
    }
    let q: i128 = p.checked_div_euclid(SCALE as i128).unwrap();
    if q < i64::MIN as i128 {
        i64::MIN
    } else if q > i64::MAX as i128 {
        i64::MAX
    } else {
        q as i64
    }
}

/// Saturating add: exactly [`spec_sat_add`].
pub fn sat_add(a: i64, b: i64) -> (r: i64)
    ensures
        r == spec_sat_add(a as int, b as int),
{
    match a.checked_add(b) {
        Some(v) => v,
        None => {
            if a < 0 {
                i64::MIN
            } else {
                i64::MAX
            }
        },
    }
}

/// A 2D affine transform in fixed point: a 2 by 2 basis and a translation.
#[derive(Debug, Copy, Clone, PartialEq, Eq, Structural)]
pub struct Xform {
    pub m11: i64,
    pub m12: i64,
    pub m21: i64,
    pub m22: i64,
    pub tx: i64,
    pub ty: i64,
}

/// Composition `a` after `b` (apply `b` first): basis product and
/// `a`-transformed translation of `b`, in saturating fixed point.
#[verifier::opaque]
pub open spec fn spec_compose(a: Xform, b: Xform) -> Xform {
    Xform {
        m11: spec_sat_add(spec_fx_mul(a.m11 as int, b.m11 as int), spec_fx_mul(a.m12 as int, b.m21 as int)) as i64,
        m12: spec_sat_add(spec_fx_mul(a.m11 as int, b.m12 as int), spec_fx_mul(a.m12 as int, b.m22 as int)) as i64,
        m21: spec_sat_add(spec_fx_mul(a.m21 as int, b.m11 as int), spec_fx_mul(a.m22 as int, b.m21 as int)) as i64,
        m22: spec_sat_add(spec_fx_mul(a.m21 as int, b.m12 as int), spec_fx_mul(a.m22 as int, b.m22 as int)) as i64,
        tx: spec_sat_add(
            spec_sat_add(spec_fx_mul(a.m11 as int, b.tx as int), spec_fx_mul(a.m12 as int, b.ty as int)),
            a.tx as int,
        ) as i64,
        ty: spec_sat_add(
            spec_sat_add(spec_fx_mul(a.m21 as int, b.tx as int), spec_fx_mul(a.m22 as int, b.ty as int)),
            a.ty as int,
        ) as i64,
    }
}

/// The point `p` sent through `x`, in saturating fixed point.
#[verifier::opaque]
pub open spec fn spec_xform_point(x: Xform, p: Vec2I) -> Vec2I {
    Vec2I {
        x: spec_sat_add(
            spec_sat_add(spec_fx_mul(x.m11 as int, p.x as int), spec_fx_mul(x.m12 as int, p.y as int)),
            x.tx as int,
        ) as i64,
        y: spec_sat_add(
            spec_sat_add(spec_fx_mul(x.m21 as int, p.x as int), spec_fx_mul(x.m22 as int, p.y as int)),
            x.ty as int,
        ) as i64,
    }
}

impl Xform {
    /// The identity transform.
    pub fn identity() -> (r: Xform)
        ensures
            r == Xform::spec_identity(),
    {
        Xform { m11: SCALE, m12: 0, m21: 0, m22: SCALE, tx: 0, ty: 0 }
    }

    pub open spec fn spec_identity() -> Xform {
        Xform { m11: SCALE, m12: 0, m21: 0, m22: SCALE, tx: 0, ty: 0 }
    }

    /// Composition `self` after `other`: exactly [`spec_compose`].
    pub fn compose(self, other: Xform) -> (r: Xform)
        ensures
            r == spec_compose(self, other),
    {
        proof {
            reveal(spec_compose);
        }
        Xform {
            m11: sat_add(fx_mul(self.m11, other.m11), fx_mul(self.m12, other.m21)),
            m12: sat_add(fx_mul(self.m11, other.m12), fx_mul(self.m12, other.m22)),
            m21: sat_add(fx_mul(self.m21, other.m11), fx_mul(self.m22, other.m21)),
            m22: sat_add(fx_mul(self.m21, other.m12), fx_mul(self.m22, other.m22)),
            tx: sat_add(sat_add(fx_mul(self.m11, other.tx), fx_mul(self.m12, other.ty)), self.tx),
            ty: sat_add(sat_add(fx_mul(self.m21, other.tx), fx_mul(self.m22, other.ty)), self.ty),
        }
    }

    /// The point `p` sent through `self`: exactly [`spec_xform_point`].
    pub fn xform_point(self, p: Vec2I) -> (r: Vec2I)
        ensures
            r == spec_xform_point(self, p),
    {
        proof {
            reveal(spec_xform_point);
        }
        Vec2I {
            x: sat_add(sat_add(fx_mul(self.m11, p.x), fx_mul(self.m12, p.y)), self.tx),
            y: sat_add(sat_add(fx_mul(self.m21, p.x), fx_mul(self.m22, p.y)), self.ty),
        }
    }

    /// The translation column of the transform.
    pub fn translation(self) -> (r: Vec2I)
        ensures
            r == (Vec2I { x: self.tx, y: self.ty }),
    {
        Vec2I { x: self.tx, y: self.ty }
    }

    /// This transform with its translation replaced.
    pub fn with_translation(self, t: Vec2I) -> (r: Xform)
        ensures
            r == (Xform { tx: t.x, ty: t.y, ..self }),
    {
        Xform { m11: self.m11, m12: self.m12, m21: self.m21, m22: self.m22, tx: t.x, ty: t.y }
    }

    /// A pure translation by `t`.
    pub fn from_translation(t: Vec2I) -> (r: Xform)
        ensures
            r == (Xform { tx: t.x, ty: t.y, ..Xform::spec_identity() }),
    {
        Xform { m11: SCALE, m12: 0, m21: 0, m22: SCALE, tx: t.x, ty: t.y }
    }
}

/// A hierarchical spatial node. The `global` field is the lazily cached
/// global transform: absent means stale, present means exactly the
/// parent's global composed with `local` ([`cache_wf`]).
#[derive(Clone)]
pub struct Transform {
    /// Entity id of the parent node, if any.
    pub parent: Option<u64>,
    /// Entity ids of the children, in insertion order.
    pub children: Vec<u64>,
    /// This node's slot in its parent's child list, for constant-time
    /// removal.
    pub index_in_parent: usize,
    /// Local transform relative to the parent.
    pub local: Xform,
    /// Cached global transform, or absent when stale.
    pub global: Option<Xform>,
    /// Distance from the root, making parent chains well-founded.
    pub depth: Ghost<nat>,
}

/// Parent and child links mirror each other, and each parent sits one
/// depth above its children.
pub open spec fn tree_wf(m: Map<u64, Transform>) -> bool {
    forall|id: u64| #[trigger]
        m.contains_key(id) ==> {
            let n = m[id];
            &&& match n.parent {
                Some(p) => m.contains_key(p) && m[p].depth@ + 1 == n.depth@
                    && n.index_in_parent < m[p].children@.len() && m[p].children@[
                    n.index_in_parent as int
                ] == id,
                None => n.depth@ == 0,
            }
            &&& forall|j: int|
                0 <= j < n.children@.len() ==> {
                    let c = #[trigger] n.children@[j];
                    m.contains_key(c) && m[c].parent == Some(id) && m[c].index_in_parent == j
                }
        }
}

/// Whether `id`'s cache entry is right: absent, or equal to the parent's
/// (also cached) global composed with the local transform.
pub open spec fn cache_ok(m: Map<u64, Transform>, id: u64) -> bool {
    match m[id].global {
        Some(g) => match m[id].parent {
            None => g == m[id].local,
            Some(p) => m.contains_key(p) && m[p].global is Some && g == spec_compose(
                m[p].global->Some_0,
                m[id].local,
            ),
        },
        None => true,
    }
}

/// Every cached global transform in the store is right.
pub open spec fn cache_wf(m: Map<u64, Transform>) -> bool {
    forall|id: u64| #[trigger] m.contains_key(id) ==> cache_ok(m, id)
}

/// Everything except the cached globals agrees between two stores.
pub open spec fn same_but_globals(m1: Map<u64, Transform>, m2: Map<u64, Transform>) -> bool {
    &&& m1.dom() == m2.dom()
    &&& forall|id: u64| #[trigger]
        m1.contains_key(id) ==> m1[id].parent == m2[id].parent && m1[id].children
            == m2[id].children && m1[id].index_in_parent == m2[id].index_in_parent && m1[id].local
            == m2[id].local && m1[id].depth == m2[id].depth
}

/// The tree invariant ignores the cached globals.
pub proof fn lemma_tree_wf_same_but_globals(m1: Map<u64, Transform>, m2: Map<u64, Transform>)
    requires
        tree_wf(m1),
        same_but_globals(m1, m2),
    ensures
        tree_wf(m2),
{
    assert forall|id: u64| #[trigger] m2.contains_key(id) implies {
        let n = m2[id];
        &&& match n.parent {
            Some(p) => m2.contains_key(p) && m2[p].depth@ + 1 == n.depth@
                && n.index_in_parent < m2[p].children@.len() && m2[p].children@[
                n.index_in_parent as int
            ] == id,
            None => n.depth@ == 0,
        }
        &&& forall|j: int|
            0 <= j < n.children@.len() ==> {
                let c = #[trigger] n.children@[j];
                m2.contains_key(c) && m2[c].parent == Some(id) && m2[c].index_in_parent == j
            }
    } by {
        assert(m1.contains_key(id));
        let n1 = m1[id];
        match n1.parent {
            Some(p) => {
                assert(m1.contains_key(p));
            },
            None => {},
        }
        assert forall|j: int| 0 <= j < m2[id].children@.len() implies {
            let c = #[trigger] m2[id].children@[j];
            m2.contains_key(c) && m2[c].parent == Some(id) && m2[c].index_in_parent == j
        } by {
            let c = m2[id].children@[j];
            assert(m1[id].children@[j] == c);
            assert(m1.contains_key(c));
        }
    }
}

/// Whether `e` is `other` or sits somewhere below it in the tree.
pub open spec fn spec_is_descendant(m: Map<u64, Transform>, e: u64, other: u64) -> bool
    decreases m[e].depth@,
    when tree_wf(m) && m.contains_key(e)
{
    e == other || (match m[e].parent {
        Some(p) => spec_is_descendant(m, p, other),
        None => false,
    })
}

/// Nearest node at or above `e` whose id is in `found`: the deep component
/// lookup, abstractly.
pub open spec fn spec_deep_find(m: Map<u64, Transform>, found: Set<u64>, e: u64) -> Option<u64>
    decreases m[e].depth@,
    when tree_wf(m) && m.contains_key(e)
{
    if found.contains(e) {
        Some(e)
    } else {
        match m[e].parent {
            Some(p) => spec_deep_find(m, found, p),
            None => None,
        }
    }
}

impl Transform {
    /// Create `e`'s transform node, attaching it under `parent` (appended
    /// to the parent's child list) or as a root. The node starts at the
    /// identity local transform with a stale global.
    pub fn new(xf: &mut Storage<Transform>, e: Entity, parent: Option<Entity>)
        requires
            old(xf).wf(),
            tree_wf(old(xf)@),
            cache_wf(old(xf)@),
            !old(xf)@.contains_key(e.id),
            match parent {
                Some(p) => old(xf)@.contains_key(p.id),
                None => true,
            },
        ensures
            final(xf).wf(),
            tree_wf(final(xf)@),
            cache_wf(final(xf)@),
            final(xf)@.contains_key(e.id),
            final(xf)@.dom() == old(xf)@.dom().insert(e.id),
            final(xf)@[e.id].parent == (match parent {
                Some(p) => Some(p.id),
                None => None::<u64>,
            }),
            final(xf)@[e.id].children@.len() == 0,
            final(xf)@[e.id].local == Xform::spec_identity(),
            final(xf)@[e.id].global is None,
            forall|o: u64|
                old(xf)@.contains_key(o) && Some(o) != (match parent {
                    Some(p) => Some(p.id),
                    None => None::<u64>,
                }) ==> final(xf)@[o] == old(xf)@[o],
            match parent {
                Some(p) => final(xf)@[p.id].children@ == old(xf)@[p.id].children@.push(e.id)
                    && final(xf)@[p.id].parent == old(xf)@[p.id].parent && final(xf)@[p.id].local
                    == old(xf)@[p.id].local && final(xf)@[p.id].global == old(xf)@[p.id].global,
                None => true,
            },
    {
        let ghost orig = xf@;
        let (parent_id, index, depth): (Option<u64>, usize, Ghost<nat>) = match parent {
            Some(p) => {
                let pn = xf.get_mut(p.id);
                let idx = pn.children.len();
                pn.children.push(e.id);
                let d: Ghost<nat> = Ghost(pn.depth@ + 1);
                (Some(p.id), idx, d)
            },
            None => (None, 0, Ghost(0nat)),
        };
        let node = Transform {
            parent: parent_id,
            children: Vec::new(),
            index_in_parent: index,
            local: Xform::identity(),
            global: None,
            depth,
        };
        xf.insert(e.id, node);
        proof {
            let m = xf@;
            assert(m.dom() =~= orig.dom().insert(e.id));
            assert forall|id: u64| #[trigger] m.contains_key(id) implies {
                let n = m[id];
                &&& match n.parent {
                    Some(p) => m.contains_key(p) && m[p].depth@ + 1 == n.depth@
                        && n.index_in_parent < m[p].children@.len() && m[p].children@[
                        n.index_in_parent as int
                    ] == id,
                    None => n.depth@ == 0,
                }
                &&& forall|j: int|
                    0 <= j < n.children@.len() ==> {
                        let c = #[trigger] n.children@[j];
                        m.contains_key(c) && m[c].parent == Some(id) && m[c].index_in_parent
                            == j
                    }
            } by {
                if id == e.id {
                } else {
                    assert(orig.contains_key(id));
                    match parent {
                        Some(p) => {
                            if id == p.id {
                                assert forall|j: int| 0 <= j < m[id].children@.len() implies {
                                    let c = #[trigger] m[id].children@[j];
                                    m.contains_key(c) && m[c].parent == Some(id)
                                        && m[c].index_in_parent == j
                                } by {
                                    if j < orig[p.id].children@.len() {
                                        assert(orig[p.id].children@[j] == m[id].children@[j]);
                                    }
                                }
                            } else {
                                assert(m[id] == orig[id]);
                                if orig[id].parent == Some(e.id) {
                                    assert(false);
                                }
                            }
                        },
                        None => {
                            assert(m[id] == orig[id]);
                            if orig[id].parent == Some(e.id) {
                                assert(false);
                            }
                        },
                    }
                }
            }
            assert forall|id: u64| #[trigger] m.contains_key(id) implies cache_ok(m, id) by {
                if id != e.id {
                    assert(orig.contains_key(id));
                    assert(cache_ok(orig, id));
                    assert(m[id].global == orig[id].global && m[id].local == orig[id].local
                        && m[id].parent == orig[id].parent);
                    match m[id].global {
                        Some(g) => {
                            match m[id].parent {
                                Some(p) => {
                                    assert(m[p].global == orig[p].global);
                                },
                                None => {},
                            }
                        },
                        None => {},
                    }
                }
            }
        }
    }

    /// The node's parent link.
    pub fn parent_of(xf: &Storage<Transform>, e: Entity) -> (r: Option<Entity>)
        requires
            xf.wf(),
            xf@.contains_key(e.id),
        ensures
            match r {
                Some(p) => xf@[e.id].parent == Some(p.id),
                None => xf@[e.id].parent is None,
            },
    {
        match xf.get(e.id).parent {
            Some(p) => Some(Entity { id: p }),
            None => None,
        }
    }

    /// The node's children, in order.
    pub fn children_of(xf: &Storage<Transform>, e: Entity) -> (r: Vec<Entity>)
        requires
            xf.wf(),
            xf@.contains_key(e.id),
        ensures
            r@.len() == xf@[e.id].children@.len(),
            forall|j: int| 0 <= j < r@.len() ==> r@[j].id == xf@[e.id].children@[j],
    {
        let n = xf.get(e.id);
        let mut r: Vec<Entity> = Vec::new();
        let mut i: usize = 0;
        while i < n.children.len()
            invariant
                n == xf@[e.id],
                xf@.contains_key(e.id),
                0 <= i <= n.children@.len(),
                r@.len() == i,
                forall|j: int| 0 <= j < i ==> r@[j].id == n.children@[j],
            decreases n.children@.len() - i,
        {
            r.push(Entity { id: n.children[i] });
            i = i + 1;
        }
        r
    }

    /// The node's local transform.
    pub fn local_xform(xf: &Storage<Transform>, e: Entity) -> (r: Xform)
        requires
            xf.wf(),
            xf@.contains_key(e.id),
        ensures
            r == xf@[e.id].local,
    {
        xf.get(e.id).local
    }

    /// The node's local translation.
    pub fn local_pos(xf: &Storage<Transform>, e: Entity) -> (r: Vec2I)
        requires
            xf.wf(),
            xf@.contains_key(e.id),
        ensures
            r.x == xf@[e.id].local.tx,
            r.y == xf@[e.id].local.ty,
    {
        Transform::local_xform(xf, e).translation()
    }

    /// Whether `e` is `other` or one of its descendants: walks the parent
    /// chain from `e` looking for `other`.
    pub fn is_descendant_of(xf: &Storage<Transform>, e: Entity, other: Entity) -> (r: bool)
        requires
            xf.wf(),
            tree_wf(xf@),
            xf@.contains_key(e.id),
        ensures
            r == spec_is_descendant(xf@, e.id, other.id),
    {
        let mut cur: u64 = e.id;
        loop
            invariant
                xf.wf(),
                tree_wf(xf@),
                xf@.contains_key(cur),
                spec_is_descendant(xf@, e.id, other.id) == spec_is_descendant(
                    xf@,
                    cur,
                    other.id,
                ),
            decreases xf@[cur].depth@,
        {
            if cur == other.id {
                return true;
            }
            match xf.get(cur).parent {
                Some(p) => {
                    cur = p;
                },
                None => {
                    return false;
                },
            }
        }
    }

    /// Whether `other` is `self` or one of `self`'s descendants.
    pub fn is_ancestor_of(xf: &Storage<Transform>, e: Entity, other: Entity) -> (r: bool)
        requires
            xf.wf(),
            tree_wf(xf@),
            xf@.contains_key(other.id),
        ensures
            r == spec_is_descendant(xf@, other.id, e.id),
    {
        Transform::is_descendant_of(xf, other, e)
    }

    /// Nearest node at or above `e` carrying a component of `st`'s type:
    /// the deep component lookup. A scene where no ancestor carries one is
    /// misconfigured; callers that must tolerate it take the `None`.
    pub fn deep_obj<T>(
        xf: &Storage<Transform>,
        st: &Storage<T>,
        e: Entity,
    ) -> (r: Option<Entity>)
        requires
            xf.wf(),
            st.wf(),
            tree_wf(xf@),
            xf@.contains_key(e.id),
        ensures
            match r {
                Some(a) => spec_deep_find(xf@, st@.dom(), e.id) == Some(a.id)
                    && st@.contains_key(a.id),
                None => spec_deep_find(xf@, st@.dom(), e.id) is None,
            },
    {
        let mut cur: u64 = e.id;
        loop
            invariant
                xf.wf(),
                st.wf(),
                tree_wf(xf@),
                xf@.contains_key(cur),
                spec_deep_find(xf@, st@.dom(), e.id) == spec_deep_find(xf@, st@.dom(), cur),
            decreases xf@[cur].depth@,
        {
            if st.has(cur) {
                return Some(Entity { id: cur });
            }
            match xf.get(cur).parent {
                Some(p) => {
                    cur = p;
                },
                None => {
                    return None;
                },
            }
        }
    }
}

/// Being a descendant never decreases the ghost depth.
pub proof fn lemma_descendant_depth(m: Map<u64, Transform>, a: u64, b: u64)
    requires
        tree_wf(m),
        m.contains_key(a),
        spec_is_descendant(m, a, b),
    ensures
        m.contains_key(b),
        m[a].depth@ >= m[b].depth@,
    decreases m[a].depth@,
{
    if a != b {
        match m[a].parent {
            Some(p) => {
                lemma_descendant_depth(m, p, b);
            },
            None => {},
        }
    }
}

/// A node's parent is never inside the node's own subtree.
pub proof fn lemma_descendant_not_above(m: Map<u64, Transform>, e: u64, p: u64)
    requires
        tree_wf(m),
        m.contains_key(e),
        m[e].parent == Some(p),
    ensures
        !spec_is_descendant(m, p, e),
{
    if spec_is_descendant(m, p, e) {
        lemma_descendant_depth(m, p, e);
    }
}

/// Subtree membership is transitive down the tree.
pub proof fn lemma_descendant_trans(m: Map<u64, Transform>, a: u64, b: u64, c: u64)
    requires
        tree_wf(m),
        m.contains_key(a),
        spec_is_descendant(m, a, b),
        spec_is_descendant(m, b, c),
    ensures
        spec_is_descendant(m, a, c),
    decreases m[a].depth@,
{
    if a != b {
        match m[a].parent {
            Some(p) => {
                lemma_descendant_trans(m, p, b, c);
            },
            None => {},
        }
    }
}

/// Filling exactly one stale cache with its right value keeps every
/// store invariant: nobody's coherence referenced the stale slot.
proof fn lemma_fill_one_cache(before: Map<u64, Transform>, after: Map<u64, Transform>, id: u64)
    requires
        tree_wf(before),
        cache_wf(before),
        before.contains_key(id),
        before[id].global is None,
        after.dom() == before.dom(),
        forall|k: u64| k != id && #[trigger] after.contains_key(k) ==> after[k] == before[k],
        after[id].parent == before[id].parent,
        after[id].children == before[id].children,
        after[id].index_in_parent == before[id].index_in_parent,
        after[id].local == before[id].local,
        after[id].depth == before[id].depth,
        after[id].global is Some,
        cache_ok(after, id),
    ensures
        tree_wf(after),
        cache_wf(after),
        same_but_globals(before, after),
        globals_filled_in(before, after),
{
    assert forall|id2: u64| #[trigger] after.contains_key(id2) implies after[id2].parent
        == before[id2].parent && after[id2].children == before[id2].children && after[
    id2].index_in_parent == before[id2].index_in_parent && after[id2].local == before[id2].local
        && after[id2].depth == before[id2].depth && (before[id2].global is Some ==> after[
    id2].global == before[id2].global) by {
        if id2 != id {
            assert(after[id2] == before[id2]);
        }
    }
    assert(same_but_globals(before, after));
    lemma_tree_wf_same_but_globals(before, after);
    assert forall|id2: u64| #[trigger] after.contains_key(id2) implies cache_ok(after, id2) by {
        if id2 == id {
        } else {
            assert(cache_ok(before, id2));
            if after[id2].global is Some {
                match after[id2].parent {
                    Some(p2) => {
                        if p2 == id {
                            assert(before[id2].global is Some);
                            assert(before[id].global is None);
                            assert(false);
                        } else {
                            assert(after[p2].global == before[p2].global);
                        }
                    },
                    None => {},
                }
            }
        }
    }
}

/// A set containing the subtree root and closed under children holds
/// every descendant.
pub proof fn lemma_descendants_collected(m: Map<u64, Transform>, s: Seq<u64>, e: u64, d: u64)
    requires
        tree_wf(m),
        m.contains_key(d),
        spec_is_descendant(m, d, e),
        s.contains(e),
        forall|i: int, j: int|
            0 <= i < s.len() && m.contains_key(#[trigger] s[i]) && 0 <= j < m[
            s[i]].children@.len() ==> s.contains(#[trigger] m[s[i]].children@[j]),
        forall|i: int| 0 <= i < s.len() ==> m.contains_key(#[trigger] s[i]),
    ensures
        s.contains(d),
    decreases m[d].depth@,
{
    if d != e {
        match m[d].parent {
            Some(p) => {
                lemma_descendants_collected(m, s, e, p);
                let i = choose|i: int| 0 <= i < s.len() && s[i] == p;
                assert(m[p].children@[m[d].index_in_parent as int] == d);
                assert(s.contains(m[s[i]].children@[m[d].index_in_parent as int]));
            },
            None => {},
        }
    }
}

/// Membership in one more taken element is membership before or equality
/// with it.
pub proof fn lemma_take_push_contains(s: Seq<u64>, i: int, x: u64)
    requires
        1 <= i <= s.len(),
    ensures
        s.take(i).contains(x) == (s.take(i - 1).contains(x) || s[i - 1] == x),
{
    if s.take(i).contains(x) {
        let w = choose|w: int| 0 <= w < i && #[trigger] s.take(i)[w] == x;
        if w < i - 1 {
            assert(s.take(i - 1)[w] == x);
        }
    }
    if s.take(i - 1).contains(x) {
        let w = choose|w: int| 0 <= w < i - 1 && #[trigger] s.take(i - 1)[w] == x;
        assert(s.take(i)[w] == x);
    }
    if s[i - 1] == x {
        assert(s.take(i)[i - 1] == x);
    }
}

/// A child list after a swap removal at slot `i`: the last entry moves
/// into the vacated slot and the list shrinks by one.
pub open spec fn spec_detached_children(kids: Seq<u64>, i: int) -> Seq<u64> {
    kids.update(i, kids.last()).drop_last()
}

/// What a child list looks like after `e` left `old_parent`'s list by
/// swap removal and joined `pid`'s at the end.
pub open spec fn spec_children_after(
    m0: Map<u64, Transform>,
    old_parent: Option<u64>,
    pid: Option<u64>,
    e: u64,
    old_index: int,
    id: u64,
) -> Seq<u64> {
    let detached = match old_parent {
        Some(p) => spec_detached_children(m0[p].children@, old_index),
        None => Seq::empty(),
    };
    if old_parent == Some(id) && pid == Some(id) {
        detached.push(e)
    } else if old_parent == Some(id) {
        detached
    } else if pid == Some(id) {
        m0[id].children@.push(e)
    } else {
        m0[id].children@
    }
}

/// A node's slot in its parent's list after the move: `e` takes the end
/// of the new list, the displaced sibling takes `e`'s old slot, everyone
/// else stays put.
pub open spec fn spec_index_after(
    m0: Map<u64, Transform>,
    old_parent: Option<u64>,
    e: u64,
    old_index: int,
    idx: int,
    id: u64,
) -> int {
    if id == e {
        idx
    } else if (match old_parent {
        Some(p) => old_index < m0[p].children@.len() - 1 && id == m0[p].children@.last(),
        None => false,
    }) {
        old_index
    } else {
        m0[id].index_in_parent as int
    }
}

/// One node's tree links after a subtree move: the mirror conditions hold
/// again once the subtree's depths are shifted under the new chain.
#[verifier::rlimit(100)]
proof fn lemma_set_parent_node_ok(
    m0: Map<u64, Transform>,
    m1: Map<u64, Transform>,
    mf: Map<u64, Transform>,
    sub: Seq<u64>,
    e: u64,
    pid: Option<u64>,
    idx: int,
    old_parent: Option<u64>,
    old_index: int,
    new_e_depth: nat,
    id: u64,
)
    requires
        tree_wf(m0),
        m0.contains_key(e),
        old_parent == m0[e].parent,
        old_index == m0[e].index_in_parent as int,
        match pid {
            Some(q) => m0.contains_key(q) && q != e && !spec_is_descendant(m0, q, e)
                && new_e_depth == m0[q].depth@ + 1,
            None => new_e_depth == 0,
        },
        // the collected subtree is exactly e's
        forall|j: int|
            0 <= j < sub.len() ==> m0.contains_key(#[trigger] sub[j]) && spec_is_descendant(
                m0,
                sub[j],
                e,
            ),
        forall|id2: u64|
            m0.contains_key(id2) && spec_is_descendant(m0, id2, e) ==> sub.contains(id2),
        sub.contains(e),
        // the rewired store before the depth shift
        m1.dom() == m0.dom(),
        forall|id2: u64| #[trigger]
            m1.contains_key(id2) ==> m1[id2].local == m0[id2].local && m1[id2].depth == m0[
            id2].depth && m1[id2].global == m0[id2].global,
        forall|id2: u64| #[trigger]
            m1.contains_key(id2) ==> m1[id2].parent == (if id2 == e {
                pid
            } else {
                m0[id2].parent
            }),
        forall|id2: u64| #[trigger]
            m1.contains_key(id2) ==> m1[id2].children@ == spec_children_after(
                m0,
                old_parent,
                pid,
                e,
                old_index,
                id2,
            ),
        forall|id2: u64| #[trigger]
            m1.contains_key(id2) ==> m1[id2].index_in_parent as int == spec_index_after(
                m0,
                old_parent,
                e,
                old_index,
                idx,
                id2,
            ),
        match pid {
            Some(q) => idx == m1[q].children@.len() - 1 && m1[q].children@.last() == e,
            None => idx == 0,
        },
        // the finished store: the subtree's depths shifted, caches stale
        mf.dom() == m1.dom(),
        forall|id2: u64| #[trigger]
            mf.contains_key(id2) ==> mf[id2].parent == m1[id2].parent && mf[id2].children
                == m1[id2].children && mf[id2].local == m1[id2].local && mf[
            id2].index_in_parent == m1[id2].index_in_parent,
        forall|id2: u64| #[trigger]
            mf.contains_key(id2) && !sub.contains(id2) ==> mf[id2].global == m1[id2].global
                && mf[id2].depth == m1[id2].depth,
        forall|j: int|
            0 <= j < sub.len() ==> mf[#[trigger] sub[j]].global is None && mf[
            sub[j]].depth@ == m0[sub[j]].depth@ + new_e_depth - m0[e].depth@,
        mf.contains_key(id),
    ensures
        ({
            let nn = mf[id];
            &&& match nn.parent {
                Some(pp) => mf.contains_key(pp) && mf[pp].depth@ + 1 == nn.depth@
                    && nn.index_in_parent < mf[pp].children@.len() && mf[pp].children@[
                    nn.index_in_parent as int
                ] == id,
                None => nn.depth@ == 0,
            }
            &&& forall|j: int|
                0 <= j < nn.children@.len() ==> {
                    let c = #[trigger] nn.children@[j];
                    mf.contains_key(c) && mf[c].parent == Some(id) && mf[c].index_in_parent
                        == j
                }
        }),
{
    let base = m0[e].depth@;
    // e's old parent and the new one sit outside the subtree
    match old_parent {
        Some(p) => {
            lemma_descendant_not_above(m0, e, p);
        },
        None => {},
    }
    assert forall|v: u64| sub.contains(v) implies #[trigger] mf[v].global is None && mf[
    v].depth@ == m0[v].depth@ + new_e_depth - base && m0[v].depth@ >= base by {
        let w = choose|w: int| 0 <= w < sub.len() && sub[w] == v;
        lemma_descendant_depth(m0, v, e);
    }
    // membership in the subtree passes between parent and child
    assert forall|v: u64|
        m0.contains_key(v) && v != e && m0[v].parent is Some && sub.contains(
        #[trigger] m0[v].parent->Some_0,
    ) implies sub.contains(v) by {
        assert(spec_is_descendant(m0, m0[v].parent->Some_0, e));
        assert(spec_is_descendant(m0, v, e));
    }
    assert forall|v: u64|
        sub.contains(v) && v != e implies m0[v].parent is Some && sub.contains(
        #[trigger] m0[v].parent->Some_0,
    ) by {
        assert(spec_is_descendant(m0, v, e));
    }
    // parent side
    let nn = mf[id];
    match nn.parent {
        Some(pp) => {
            if id == e {
                assert(pp == pid->Some_0);
                assert(!sub.contains(pp));
                assert(mf[pp].depth@ == m0[pp].depth@);
                assert(mf[e].depth@ == new_e_depth);
                assert(mf[pp].children@.last() == e);
                assert(nn.index_in_parent as int == idx);
            } else {
                assert(pp == m0[id].parent->Some_0);
                assert(m0[pp].children@[m0[id].index_in_parent as int] == id);
                if sub.contains(id) {
                    assert(sub.contains(pp));
                    assert(mf[id].depth@ == m0[id].depth@ + new_e_depth - base);
                    assert(mf[pp].depth@ == m0[pp].depth@ + new_e_depth - base);
                    assert(m0[pp].depth@ + 1 == m0[id].depth@);
                    // a subtree parent is neither of the two rewired lists
                    assert(old_parent != Some(pp)) by {
                        match old_parent {
                            Some(p) => {
                                if p == pp {
                                    assert(sub.contains(p));
                                }
                            },
                            None => {},
                        }
                    }
                    assert(pid != Some(pp)) by {
                        match pid {
                            Some(q) => {
                                if q == pp {
                                    assert(sub.contains(q));
                                    assert(spec_is_descendant(m0, q, e));
                                }
                            },
                            None => {},
                        }
                    }
                    assert(mf[pp].children@ == m0[pp].children@);
                    assert(mf[id].index_in_parent as int == m0[id].index_in_parent as int) by {
                        match old_parent {
                            Some(p) => {
                                if old_index < m0[p].children@.len() - 1 && id == m0[
                                p].children@.last() {
                                    assert(m0[id].parent == Some(p));
                                    assert(sub.contains(p));
                                }
                            },
                            None => {},
                        }
                    }
                } else {
                    assert(!sub.contains(pp));
                    assert(mf[id].depth@ == m0[id].depth@ && mf[pp].depth@ == m0[pp].depth@);
                    let oi = m0[id].index_in_parent as int;
                    if old_parent == Some(pp) {
                        let p = pp;
                        let kids = m0[p].children@;
                        assert(kids[old_index] == e);
                        if old_index < kids.len() - 1 && id == kids.last() {
                            assert(mf[id].index_in_parent as int == old_index);
                            assert(spec_detached_children(kids, old_index)[old_index] == id);
                        } else {
                            assert(oi != old_index) by {
                                if oi == old_index {
                                    assert(kids[oi] == id && kids[old_index] == e);
                                }
                            }
                            assert(oi != kids.len() - 1) by {
                                if oi == kids.len() - 1 {
                                    assert(kids.last() == id);
                                    assert(old_index < kids.len() - 1 || old_index == kids.len()
                                        - 1);
                                }
                            }
                            assert(mf[id].index_in_parent as int == oi) by {
                                if old_index < kids.len() - 1 && id == kids.last() {
                                }
                            }
                            assert(spec_detached_children(kids, old_index)[oi] == kids[oi]);
                        }
                        assert(nn.index_in_parent < mf[pp].children@.len() && mf[pp].children@[
                        nn.index_in_parent as int] == id);
                    } else if pid == Some(pp) {
                        assert(mf[pp].children@ == m0[pp].children@.push(e));
                        assert(mf[id].index_in_parent as int == oi) by {
                            match old_parent {
                                Some(p) => {
                                    if old_index < m0[p].children@.len() - 1 && id == m0[
                                    p].children@.last() {
                                        assert(m0[id].parent == Some(p));
                                    }
                                },
                                None => {},
                            }
                        }
                        assert(mf[pp].children@[oi] == m0[pp].children@[oi]);
                    } else {
                        assert(mf[pp].children@ == m0[pp].children@);
                        assert(mf[id].index_in_parent as int == oi) by {
                            match old_parent {
                                Some(p) => {
                                    if old_index < m0[p].children@.len() - 1 && id == m0[
                                    p].children@.last() {
                                        assert(m0[id].parent == Some(p));
                                    }
                                },
                                None => {},
                            }
                        }
                    }
                }
            }
        },
        None => {
            if id == e {
                assert(mf[e].depth@ == new_e_depth);
            } else {
                assert(m0[id].parent is None);
                assert(!sub.contains(id)) by {
                    if sub.contains(id) {
                        assert(m0[id].parent is Some);
                    }
                }
                assert(mf[id].depth@ == m0[id].depth@);
            }
        },
    }
    // child side
    assert forall|j: int| 0 <= j < nn.children@.len() implies {
        let c = #[trigger] nn.children@[j];
        mf.contains_key(c) && mf[c].parent == Some(id) && mf[c].index_in_parent == j
    } by {
        let c = nn.children@[j];
        let is_old_p = old_parent == Some(id);
        let is_new_p = pid == Some(id);
        if is_new_p && j == nn.children@.len() - 1 {
            assert(c == e);
            assert(mf[e].parent == pid);
            assert(mf[e].index_in_parent as int == idx);
            assert(idx == j);
        } else if is_old_p {
            let kids = m0[id].children@;
            assert(kids[old_index] == e);
            let detached = spec_detached_children(kids, old_index);
            assert(j < detached.len());
            assert(c == detached[j]);
            if j == old_index && old_index < kids.len() - 1 {
                assert(c == kids.last());
                assert(m0[c].parent == Some(id));
                assert(m0[c].index_in_parent as int == kids.len() - 1);
                assert(c != e) by {
                    if c == e {
                        assert(m0[e].index_in_parent as int == kids.len() - 1);
                    }
                }
                assert(mf[c].parent == Some(id));
                assert(mf[c].index_in_parent as int == old_index);
            } else {
                assert(c == kids[j]);
                assert(m0[c].parent == Some(id));
                assert(m0[c].index_in_parent as int == j);
                assert(c != e) by {
                    if c == e {
                        assert(m0[e].index_in_parent as int == j);
                        assert(kids[old_index] == e && kids[j] == e);
                    }
                }
                assert(mf[c].parent == Some(id));
                assert(mf[c].index_in_parent as int == j) by {
                    if old_index < kids.len() - 1 && c == kids.last() {
                        assert(m0[c].index_in_parent as int == kids.len() - 1);
                        assert(j == kids.len() - 1);
                        assert(j < detached.len());
                    }
                }
            }
        } else if is_new_p {
            assert(j < m0[id].children@.len());
            assert(c == m0[id].children@[j]);
            assert(m0[c].parent == Some(id));
            assert(m0[c].index_in_parent as int == j);
            assert(c != e) by {
                if c == e {
                    assert(m0[e].parent == Some(id));
                    assert(old_parent == Some(id));
                }
            }
            assert(mf[c].parent == Some(id));
            assert(mf[c].index_in_parent as int == j) by {
                match old_parent {
                    Some(p) => {
                        if old_index < m0[p].children@.len() - 1 && c == m0[
                        p].children@.last() {
                            assert(m0[c].parent == Some(p));
                            assert(p == id);
                        }
                    },
                    None => {},
                }
            }
        } else {
            assert(nn.children@ == m0[id].children@);
            assert(m0[c].parent == Some(id));
            assert(m0[c].index_in_parent as int == j);
            assert(c != e) by {
                if c == e {
                    assert(m0[e].parent == Some(id));
                }
            }
            assert(mf[c].parent == Some(id));
            assert(mf[c].index_in_parent as int == j) by {
                match old_parent {
                    Some(p) => {
                        if old_index < m0[p].children@.len() - 1 && c == m0[
                        p].children@.last() {
                            assert(m0[c].parent == Some(p));
                            assert(p == id);
                        }
                    },
                    None => {},
                }
            }
        }
    }
}

/// Invalidation is monotone down the tree: while a node's cached global
/// is stale, so is every descendant's — a descendant's next read cannot
/// come from a cache that bypasses the changed ancestor.
pub proof fn lemma_stale_subtree(m: Map<u64, Transform>, e: u64, d: u64)
    requires
        tree_wf(m),
        cache_wf(m),
        m.contains_key(d),
        m.contains_key(e),
        spec_is_descendant(m, d, e),
        m[e].global is None,
    ensures
        m[d].global is None,
    decreases m[d].depth@,
{
    if d != e {
        match m[d].parent {
            Some(p) => {
                lemma_stale_subtree(m, e, p);
                if m[d].global is Some {
                    assert(cache_ok(m, d));
                }
            },
            None => {},
        }
    }
}

/// Whether `v` holds `x`.
pub fn contains_id(v: &Vec<u64>, x: u64) -> (r: bool)
    ensures
        r == v@.contains(x),
{
    let mut i: usize = 0;
    while i < v.len()
        invariant
            0 <= i <= v@.len(),
            forall|j: int| 0 <= j < i ==> v@[j] != x,
        decreases v@.len() - i,
    {
        if v[i] == x {
            proof {
                assert(v@.contains(x));
            }
            return true;
        }
        i = i + 1;
    }
    proof {
        assert(!v@.contains(x));
    }
    false
}

/// A duplicate-free sequence drawn from a finite set is no longer than the
/// set.
pub proof fn lemma_visited_bound(visited: Seq<u64>, dom: Set<u64>)
    requires
        visited.no_duplicates(),
        forall|i: int| 0 <= i < visited.len() ==> dom.contains(#[trigger] visited[i]),
        dom.finite(),
    ensures
        visited.len() <= dom.len(),
{
    visited.unique_seq_to_set();
    assert forall|v: u64| visited.to_set().contains(v) implies dom.contains(v) by {
        let i = choose|i: int| 0 <= i < visited.len() && visited[i] == v;
    }
    vstd::set_lib::lemma_len_subset(visited.to_set(), dom);
}

/// Only the cached global transforms distinguish the stores, and each one
/// either survived or went stale.
pub open spec fn globals_went_stale(m1: Map<u64, Transform>, m2: Map<u64, Transform>) -> bool {
    &&& same_but_globals(m1, m2)
    &&& forall|id: u64| #[trigger]
        m2.contains_key(id) ==> m2[id].global == m1[id].global || m2[id].global is None
}

/// Only the cached global transforms distinguish the stores, and each
/// cached one survived (new ones may have been filled in).
pub open spec fn globals_filled_in(m1: Map<u64, Transform>, m2: Map<u64, Transform>) -> bool {
    &&& same_but_globals(m1, m2)
    &&& forall|id: u64| #[trigger]
        m2.contains_key(id) && m1[id].global is Some ==> m2[id].global == m1[id].global
}

/// Collider fields other than the cached boxes are untouched and the
/// cached boxes either survived or went stale.
pub open spec fn collider_caches_went_stale(m1: Map<u64, Collider>, m2: Map<u64, Collider>) -> bool {
    &&& m1.dom() == m2.dom()
    &&& forall|id: u64| #[trigger]
        m2.contains_key(id) ==> m2[id].manager == m1[id].manager && m2[id].index_in_manager
            == m1[id].index_in_manager && m2[id].local_aabb == m1[id].local_aabb && (
        m2[id].global_aabb == m1[id].global_aabb || m2[id].global_aabb is None)
}

/// Append every element of `items` to `stack`.
pub fn push_all(stack: &mut Vec<u64>, items: &Vec<u64>)
    ensures
        final(stack)@ == old(stack)@ + items@,
{
    let mut k: usize = 0;
    while k < items.len()
        invariant
            0 <= k <= items@.len(),
            stack@ == old(stack)@ + items@.take(k as int),
        decreases items@.len() - k,
    {
        stack.push(items[k]);
        proof {
            assert(old(stack)@ + items@.take(k as int) + seq![items@[k as int]] =~= old(
                stack,
            )@ + items@.take(k + 1));
        }
        k = k + 1;
    }
    proof {
        assert(items@.take(items@.len() as int) =~= items@);
    }
}

impl Transform {
    /// The node's child ids, as a plain vector.
    pub fn children_ids(xf: &Storage<Transform>, m: u64) -> (r: Vec<u64>)
        requires
            xf.wf(),
            xf@.contains_key(m),
        ensures
            r@ == xf@[m].children@,
    {
        let n = xf.get(m);
        let mut r: Vec<u64> = Vec::new();
        let mut i: usize = 0;
        while i < n.children.len()
            invariant
                n == xf@[m],
                xf@.contains_key(m),
                0 <= i <= n.children@.len(),
                r@ == n.children@.take(i as int),
            decreases n.children@.len() - i,
        {
            r.push(n.children[i]);
            proof {
                assert(n.children@.take(i as int).push(n.children@[i as int]) =~= n.children@.take(
                    i + 1,
                ));
            }
            i = i + 1;
        }
        proof {
            assert(n.children@.take(n.children@.len() as int) =~= n.children@);
        }
        r
    }

    /// Mark `e`'s cached global transform (and its collider's cached box)
    /// stale, cascading to every descendant whose cache was still live.
    /// Invalidating an already-stale node is a no-op: nothing below it can
    /// be live, so the cascade stops early.
    pub fn invalidate_global_xform(
        xf: &mut Storage<Transform>,
        col: &mut Storage<Collider>,
        e: Entity,
    )
        requires
            old(xf).wf(),
            old(col).wf(),
            tree_wf(old(xf)@),
            cache_wf(old(xf)@),
            crate::collider::colliders_wf(old(xf)@, old(col)@),
            old(xf)@.contains_key(e.id),
        ensures
            final(xf).wf(),
            final(col).wf(),
            tree_wf(final(xf)@),
            cache_wf(final(xf)@),
            crate::collider::colliders_wf(final(xf)@, final(col)@),
            globals_went_stale(old(xf)@, final(xf)@),
            collider_caches_went_stale(old(col)@, final(col)@),
            final(xf)@[e.id].global is None,
            old(xf)@[e.id].global is None ==> final(xf)@ == old(xf)@ && final(col)@ == old(
                col,
            )@,
    {
        if xf.get(e.id).global.is_none() {
            return ;
        }
        proof {
            xf.lemma_dom_finite();
        }
        let ghost n = xf@.dom().len();
        let mut stack: Vec<u64> = Vec::new();
        stack.push(e.id);
        proof {
            assert(stack@[0] == e.id);
            assert(stack@.contains(e.id));
        }
        let mut visited: Vec<u64> = Vec::new();
        while stack.len() > 0
            invariant
                xf.wf(),
                col.wf(),
                tree_wf(xf@),
                globals_went_stale(old(xf)@, xf@),
                collider_caches_went_stale(old(col)@, col@),
                crate::collider::colliders_wf(xf@, col@),
                xf@.dom().finite(),
                n == xf@.dom().len(),
                forall|i: int| 0 <= i < stack@.len() ==> xf@.contains_key(#[trigger] stack@[i]),
                visited@.no_duplicates(),
                forall|i: int|
                    0 <= i < visited@.len() ==> xf@.dom().contains(#[trigger] visited@[i]),
                forall|i: int|
                    0 <= i < visited@.len() ==> xf@[#[trigger] visited@[i]].global is None,
                visited@.len() <= n,
                forall|id: u64| #[trigger]
                    xf@.contains_key(id) && xf@[id].global is Some ==> cache_ok(xf@, id)
                        || stack@.contains(id),
                xf@[e.id].global is None || stack@.contains(e.id),
            decreases n - visited@.len(), stack@.len(),
        {
            let ghost prior_stack = stack@;
            let m = stack.pop().unwrap();
            proof {
                assert(stack@ =~= prior_stack.drop_last());
                assert forall|v: u64| stack@.contains(v) implies prior_stack.contains(v) by {
                    let i = choose|i: int| 0 <= i < stack@.len() && stack@[i] == v;
                    assert(prior_stack[i] == v);
                }
            }
            if !contains_id(&visited, m) {
                let ghost before = xf@;
                visited.push(m);
                proof {
                    assert forall|i: int|
                        0 <= i < visited@.len() implies xf@.dom().contains(
                        #[trigger] visited@[i],
                    ) && xf@[visited@[i]].global is None || visited@[i] == m by {
                        if i < visited@.len() - 1 {
                            assert(visited@[i] == visited@.drop_last()[i]);
                        }
                    }
                    lemma_visited_bound(visited@, xf@.dom());
                }
                if xf.get(m).global.is_some() {
                    let node = xf.get_mut(m);
                    node.global = None;
                    crate::collider::invalidate_global_aabb(col, m);
                    let kids = Transform::children_ids(xf, m);
                    push_all(&mut stack, &kids);
                    proof {
                        assert(xf@.dom() =~= before.dom());
                        assert forall|id: u64| #[trigger] xf@.contains_key(id) implies xf@[id].parent
                            == before[id].parent && xf@[id].children == before[id].children
                            && xf@[id].index_in_parent == before[id].index_in_parent
                            && xf@[id].local == before[id].local && xf@[id].depth
                            == before[id].depth && (xf@[id].global == before[id].global
                            || xf@[id].global is None) by {
                            if id != m {
                                assert(xf@[id] == before[id]);
                            }
                        }
                        assert(same_but_globals(before, xf@));
                        assert(globals_went_stale(old(xf)@, xf@));
                        lemma_tree_wf_same_but_globals(before, xf@);
                        assert forall|id: u64| #[trigger]
                            xf@.contains_key(id) && xf@[id].global is Some implies cache_ok(
                            xf@,
                            id,
                        ) || stack@.contains(id) by {
                            assert(id != m);
                            assert(before[id].global is Some);
                            if cache_ok(before, id) {
                                if before[id].parent == Some(m) {
                                    // a live child of the node just dirtied:
                                    // it is in the pushed child list
                                    let j = before[id].index_in_parent as int;
                                    assert(before[m].children@[j] == id);
                                    assert(stack@[prior_stack.len() - 1 + j] == id);
                                    assert(stack@.contains(id));
                                } else {
                                    match before[id].parent {
                                        Some(p) => {
                                            assert(xf@[p].global == before[p].global);
                                            assert(cache_ok(xf@, id));
                                        },
                                        None => {
                                            assert(cache_ok(xf@, id));
                                        },
                                    }
                                }
                            } else {
                                // it was already waiting on the stack, below
                                // the popped top
                                assert(prior_stack.contains(id));
                                let i = choose|i: int|
                                    0 <= i < prior_stack.len() && prior_stack[i] == id;
                                assert(i < prior_stack.len() - 1);
                                assert(stack@[i] == id);
                                assert(stack@.contains(id));
                            }
                        }
                        assert(xf@[e.id].global is None || stack@.contains(e.id)) by {
                            if xf@[e.id].global is Some {
                                assert(prior_stack.contains(e.id));
                                let i = choose|i: int|
                                    0 <= i < prior_stack.len() && prior_stack[i] == e.id;
                                assert(i < prior_stack.len() - 1);
                                assert(stack@[i] == e.id);
                            }
                        }
                        assert forall|i: int|
                            0 <= i < visited@.len() implies xf@[
                        #[trigger] visited@[i]].global is None by {}
                    }
                } else {
                    proof {
                        assert forall|id: u64| #[trigger]
                            xf@.contains_key(id) && xf@[id].global is Some implies cache_ok(
                            xf@,
                            id,
                        ) || stack@.contains(id) by {
                            if !cache_ok(xf@, id) {
                                assert(prior_stack.contains(id));
                                let i = choose|i: int|
                                    0 <= i < prior_stack.len() && prior_stack[i] == id;
                                assert(i < prior_stack.len() - 1);
                                assert(stack@[i] == id);
                            }
                        }
                        assert(xf@[e.id].global is None || stack@.contains(e.id)) by {
                            if xf@[e.id].global is Some {
                                let i = choose|i: int|
                                    0 <= i < prior_stack.len() && prior_stack[i] == e.id;
                                assert(i < prior_stack.len() - 1);
                                assert(stack@[i] == e.id);
                            }
                        }
                    }
                }
            } else {
                proof {
                    assert(xf@[m].global is None);
                    assert forall|id: u64| #[trigger]
                        xf@.contains_key(id) && xf@[id].global is Some implies cache_ok(
                        xf@,
                        id,
                    ) || stack@.contains(id) by {
                        if !cache_ok(xf@, id) {
                            assert(prior_stack.contains(id));
                            let i = choose|i: int|
                                0 <= i < prior_stack.len() && prior_stack[i] == id;
                            assert(i < prior_stack.len() - 1);
                            assert(stack@[i] == id);
                        }
                    }
                    assert(xf@[e.id].global is None || stack@.contains(e.id)) by {
                        if xf@[e.id].global is Some {
                            let i = choose|i: int|
                                0 <= i < prior_stack.len() && prior_stack[i] == e.id;
                            assert(i < prior_stack.len() - 1);
                            assert(stack@[i] == e.id);
                        }
                    }
                }
            }
        }
    }
}

impl Transform {
    /// The node's global transform: the cached value, recomputed first if
    /// stale by climbing to the nearest live ancestor cache and filling
    /// downward. By [`cache_wf`] the result is the parent's global
    /// composed with the node's local transform.
    #[verifier::rlimit(100)]
    #[verifier::spinoff_prover]
    pub fn global_xform(xf: &mut Storage<Transform>, e: Entity) -> (r: Xform)
        requires
            old(xf).wf(),
            tree_wf(old(xf)@),
            cache_wf(old(xf)@),
            old(xf)@.contains_key(e.id),
        ensures
            final(xf).wf(),
            tree_wf(final(xf)@),
            cache_wf(final(xf)@),
            globals_filled_in(old(xf)@, final(xf)@),
            final(xf)@[e.id].global == Some(r),
    {
        let cached = xf.get(e.id).global;
        match cached {
            Some(g) => {
                return g;
            },
            None => {},
        }
        // Climb to the nearest ancestor with a live cache, recording the
        // stale chain.
        let mut path: Vec<u64> = Vec::new();
        path.push(e.id);
        let mut cur: u64 = e.id;
        proof {
            assert(path@ == seq![e.id]);
        }
        loop
            invariant
                xf.wf(),
                xf@ == old(xf)@,
                tree_wf(xf@),
                cache_wf(xf@),
                xf@.contains_key(cur),
                path@.len() > 0,
                path@[0] == e.id,
                path@.last() == cur,
                forall|i: int|
                    0 <= i < path@.len() ==> xf@.contains_key(#[trigger] path@[i]) && xf@[
                    path@[i]].global is None && xf@[path@[i]].depth@ + i == xf@[e.id].depth@,
                forall|i: int|
                    0 <= i < path@.len() - 1 ==> xf@[#[trigger] path@[i]].parent == Some(
                        path@[i + 1],
                    ),
            ensures
                xf.wf(),
                xf@ == old(xf)@,
                path@.len() > 0,
                path@[0] == e.id,
                forall|i: int|
                    0 <= i < path@.len() ==> xf@.contains_key(#[trigger] path@[i]) && xf@[
                    path@[i]].global is None && xf@[path@[i]].depth@ + i == xf@[e.id].depth@,
                forall|i: int|
                    0 <= i < path@.len() - 1 ==> xf@[#[trigger] path@[i]].parent == Some(
                        path@[i + 1],
                    ),
                match xf@[path@.last()].parent {
                    Some(p) => xf@.contains_key(p) && xf@[p].global is Some,
                    None => true,
                },
            decreases xf@[cur].depth@,
        {
            let parent = xf.get(cur).parent;
            match parent {
                None => {
                    break ;
                },
                Some(p) => {
                    if xf.get(p).global.is_some() {
                        break ;
                    }
                    path.push(p);
                    cur = p;
                    proof {
                        assert forall|i: int|
                            0 <= i < path@.len() - 1 implies xf@[#[trigger] path@[i]].parent
                            == Some(path@[i + 1]) by {
                            if i < path@.len() - 2 {
                                assert(path@.drop_last()[i] == path@[i]);
                                assert(path@.drop_last()[i + 1] == path@[i + 1]);
                            }
                        }
                    }
                },
            }
        }
        // Fill the chain downward, each node from its (now live) parent.
        let ghost phase1 = xf@;
        let mut i: usize = path.len();
        while i > 0
            invariant
                xf.wf(),
                tree_wf(xf@),
                cache_wf(xf@),
                globals_filled_in(phase1, xf@),
                phase1 == old(xf)@,
                0 <= i <= path@.len(),
                path@.len() > 0,
                path@[0] == e.id,
                forall|j: int|
                    0 <= j < path@.len() ==> phase1.contains_key(#[trigger] path@[j]) && phase1[
                    path@[j]].global is None && phase1[path@[j]].depth@ + j == phase1[
                    e.id].depth@,
                forall|j: int|
                    0 <= j < path@.len() - 1 ==> phase1[#[trigger] path@[j]].parent == Some(
                        path@[j + 1],
                    ),
                match phase1[path@.last()].parent {
                    Some(p) => phase1.contains_key(p) && phase1[p].global is Some,
                    None => true,
                },
                forall|j: int|
                    i <= j < path@.len() ==> xf@[#[trigger] path@[j]].global is Some,
                forall|j: int| 0 <= j < i ==> xf@[#[trigger] path@[j]].global is None,
            decreases i,
        {
            i = i - 1;
            let id = path[i];
            let local = xf.get(id).local;
            let parent = xf.get(id).parent;
            let g: Xform = match parent {
                None => local,
                Some(p) => {
                    let pg = xf.get(p).global;
                    proof {
                        if i == path@.len() - 1 {
                            assert(xf@[p].global == phase1[p].global);
                        } else {
                            assert(p == path@[i + 1]);
                        }
                    }
                    pg.unwrap().compose(local)
                },
            };
            let ghost before = xf@;
            let node = xf.get_mut(id);
            node.global = Some(g);
            proof {
                assert(xf@.dom() =~= before.dom());
                assert(cache_ok(xf@, id));
                lemma_fill_one_cache(before, xf@, id);
                assert forall|j: int| 0 <= j < i implies xf@[
                #[trigger] path@[j]].global is None by {
                    assert(phase1[path@[j]].depth@ != phase1[id].depth@);
                    assert(path@[j] != id);
                    assert(xf@[path@[j]] == before[path@[j]]);
                }
            }
        }
        let g = xf.get(e.id).global;
        proof {
            assert(xf@[path@[0]].global is Some);
        }
        g.unwrap()
    }

    /// Replace the node's local transform; its own and every descendant's
    /// cached global (and collider box) go stale so the next read
    /// recomputes through the new value.
    pub fn set_local_xform(
        xf: &mut Storage<Transform>,
        col: &mut Storage<Collider>,
        e: Entity,
        x: Xform,
    )
        requires
            old(xf).wf(),
            old(col).wf(),
            tree_wf(old(xf)@),
            cache_wf(old(xf)@),
            crate::collider::colliders_wf(old(xf)@, old(col)@),
            old(xf)@.contains_key(e.id),
        ensures
            final(xf).wf(),
            final(col).wf(),
            tree_wf(final(xf)@),
            cache_wf(final(xf)@),
            crate::collider::colliders_wf(final(xf)@, final(col)@),
            final(xf)@.dom() == old(xf)@.dom(),
            final(xf)@[e.id].local == x,
            final(xf)@[e.id].global is None,
            final(xf)@[e.id].parent == old(xf)@[e.id].parent,
            final(xf)@[e.id].children == old(xf)@[e.id].children,
            final(xf)@[e.id].index_in_parent == old(xf)@[e.id].index_in_parent,
            final(xf)@[e.id].depth == old(xf)@[e.id].depth,
            forall|id: u64| #[trigger]
                final(xf)@.contains_key(id) && id != e.id ==> final(xf)@[id].parent == old(xf)@[id].parent && final(xf)@[id].children == old(xf)@[id].children && final(xf)@[id].index_in_parent == old(xf)@[id].index_in_parent && final(xf)@[id].local
                    == old(xf)@[id].local && final(xf)@[id].depth == old(xf)@[id].depth && (
                final(xf)@[id].global == old(xf)@[id].global || final(xf)@[id].global is None),
            collider_caches_went_stale(old(col)@, final(col)@),
    {
        Transform::invalidate_global_xform(xf, col, e);
        let ghost mid = xf@;
        let node = xf.get_mut(e.id);
        node.local = x;
        proof {
            assert(xf@.dom() =~= mid.dom());
            assert forall|id: u64| #[trigger] xf@.contains_key(id) implies xf@[id].parent
                == mid[id].parent && xf@[id].children == mid[id].children && xf@[
            id].index_in_parent == mid[id].index_in_parent && xf@[id].depth == mid[id].depth
                && xf@[id].global == mid[id].global by {
                if id != e.id {
                    assert(xf@[id] == mid[id]);
                }
            }
            assert forall|id: u64| #[trigger] xf@.contains_key(id) implies {
                let n = xf@[id];
                &&& match n.parent {
                    Some(p) => xf@.contains_key(p) && xf@[p].depth@ + 1 == n.depth@
                        && n.index_in_parent < xf@[p].children@.len() && xf@[p].children@[
                        n.index_in_parent as int
                    ] == id,
                    None => n.depth@ == 0,
                }
                &&& forall|j: int|
                    0 <= j < n.children@.len() ==> {
                        let c = #[trigger] n.children@[j];
                        xf@.contains_key(c) && xf@[c].parent == Some(id) && xf@[c].index_in_parent
                            == j
                    }
            } by {
                assert(mid.contains_key(id));
                assert forall|j: int| 0 <= j < xf@[id].children@.len() implies {
                    let c = #[trigger] xf@[id].children@[j];
                    xf@.contains_key(c) && xf@[c].parent == Some(id) && xf@[c].index_in_parent
                        == j
                } by {
                    assert(mid[id].children@[j] == xf@[id].children@[j]);
                }
            }
            assert forall|id: u64| #[trigger] xf@.contains_key(id) implies cache_ok(xf@, id) by {
                assert(cache_ok(mid, id));
                if id != e.id && xf@[id].global is Some {
                    match xf@[id].parent {
                        Some(p) => {
                            if p == e.id {
                                assert(mid[e.id].global is None);
                                assert(false);
                            }
                        },
                        None => {},
                    }
                }
            }
        }
    }

    /// Replace the node's local translation, keeping its basis.
    pub fn set_local_pos(
        xf: &mut Storage<Transform>,
        col: &mut Storage<Collider>,
        e: Entity,
        pos: Vec2I,
    )
        requires
            old(xf).wf(),
            old(col).wf(),
            tree_wf(old(xf)@),
            cache_wf(old(xf)@),
            crate::collider::colliders_wf(old(xf)@, old(col)@),
            old(xf)@.contains_key(e.id),
        ensures
            final(xf).wf(),
            final(col).wf(),
            tree_wf(final(xf)@),
            cache_wf(final(xf)@),
            crate::collider::colliders_wf(final(xf)@, final(col)@),
            final(xf)@.dom() == old(xf)@.dom(),
            final(xf)@[e.id].local == (Xform {
                tx: pos.x,
                ty: pos.y,
                ..old(xf)@[e.id].local
            }),
            final(xf)@[e.id].global is None,
            collider_caches_went_stale(old(col)@, final(col)@),
    {
        let local = Transform::local_xform(xf, e);
        Transform::set_local_xform(xf, col, e, local.with_translation(pos));
    }

    /// Move the node's local translation by `dt`, saturating at the
    /// numeric range.
    pub fn translate_local(
        xf: &mut Storage<Transform>,
        col: &mut Storage<Collider>,
        e: Entity,
        dt: Vec2I,
    )
        requires
            old(xf).wf(),
            old(col).wf(),
            tree_wf(old(xf)@),
            cache_wf(old(xf)@),
            crate::collider::colliders_wf(old(xf)@, old(col)@),
            old(xf)@.contains_key(e.id),
        ensures
            final(xf).wf(),
            final(col).wf(),
            tree_wf(final(xf)@),
            cache_wf(final(xf)@),
            crate::collider::colliders_wf(final(xf)@, final(col)@),
            final(xf)@.dom() == old(xf)@.dom(),
            final(xf)@[e.id].local == (Xform {
                tx: spec_sat_add(old(xf)@[e.id].local.tx as int, dt.x as int) as i64,
                ty: spec_sat_add(old(xf)@[e.id].local.ty as int, dt.y as int) as i64,
                ..old(xf)@[e.id].local
            }),
            final(xf)@[e.id].global is None,
            collider_caches_went_stale(old(col)@, final(col)@),
    {
        let local = Transform::local_xform(xf, e);
        let moved = Vec2I { x: sat_add(local.tx, dt.x), y: sat_add(local.ty, dt.y) };
        Transform::set_local_xform(xf, col, e, local.with_translation(moved));
    }

    /// Move node `e` — subtree and all — under `new_parent`, or make it a
    /// root: it leaves its old parent's child list (the displaced last
    /// sibling takes over its slot) and is appended to the new parent's.
    /// No local transform is compensated, so every global pose in the
    /// subtree changes implicitly; the whole subtree's caches go stale so
    /// the next reads reflect the new chain. Moving a node under its own
    /// subtree would close a cycle — a programming error, excluded by
    /// contract.
    #[verifier::rlimit(100)]
    #[verifier::spinoff_prover]
    pub fn set_parent(
        xf: &mut Storage<Transform>,
        col: &mut Storage<Collider>,
        e: Entity,
        new_parent: Option<Entity>,
    )
        requires
            old(xf).wf(),
            old(col).wf(),
            tree_wf(old(xf)@),
            cache_wf(old(xf)@),
            crate::collider::colliders_wf(old(xf)@, old(col)@),
            old(xf)@.contains_key(e.id),
            match new_parent {
                Some(q) => old(xf)@.contains_key(q.id) && q.id != e.id && !spec_is_descendant(
                    old(xf)@,
                    q.id,
                    e.id,
                ),
                None => true,
            },
        ensures
            final(xf).wf(),
            final(col).wf(),
            tree_wf(final(xf)@),
            cache_wf(final(xf)@),
            crate::collider::colliders_wf(final(xf)@, final(col)@),
            final(xf)@.dom() == old(xf)@.dom(),
            final(xf)@[e.id].parent == (match new_parent {
                Some(q) => Some(q.id),
                None => None::<u64>,
            }),
            final(xf)@[e.id].children == old(xf)@[e.id].children,
            final(xf)@[e.id].local == old(xf)@[e.id].local,
            final(xf)@[e.id].global is None,
            // every node keeps its local transform; caches in e's subtree
            // go stale, everything else keeps its cache
            forall|id: u64| #[trigger]
                final(xf)@.contains_key(id) ==> final(xf)@[id].local == old(xf)@[id].local
                    && (final(xf)@[id].parent == old(xf)@[id].parent || id == e.id) && (if spec_is_descendant(
                    old(xf)@,
                    id,
                    e.id,
                ) {
                    final(xf)@[id].global is None
                } else {
                    final(xf)@[id].global == old(xf)@[id].global
                }),
            // child lists change only at the two parents involved
            forall|id: u64| #[trigger]
                final(xf)@.contains_key(id) && Some(id) != old(xf)@[e.id].parent && Some(id)
                    != (match new_parent {
                    Some(q) => Some(q.id),
                    None => None::<u64>,
                }) ==> final(xf)@[id].children == old(xf)@[id].children,
            // the old parent's list loses e by swap removal, the displaced
            // last sibling inheriting e's slot
            match old(xf)@[e.id].parent {
                Some(p) => {
                    let detached = spec_detached_children(
                        old(xf)@[p].children@,
                        old(xf)@[e.id].index_in_parent as int,
                    );
                    &&& final(xf)@[p].children@ == (if (match new_parent {
                        Some(q) => q.id == p,
                        None => false,
                    }) {
                        detached.push(e.id)
                    } else {
                        detached
                    })
                    &&& (old(xf)@[e.id].index_in_parent < old(xf)@[p].children@.len() - 1
                        ==> final(xf)@[old(xf)@[p].children@.last()].index_in_parent == old(xf)@[e.id].index_in_parent)
                },
                None => true,
            },
            // the new parent's list gains e at its end
            match new_parent {
                Some(q) => final(xf)@[q.id].children@.len() > 0 && final(xf)@[q.id].children@.last() == e.id && final(xf)@[e.id].index_in_parent as int
                    == final(xf)@[q.id].children@.len() - 1,
                None => final(xf)@[e.id].index_in_parent == 0,
            },
            collider_caches_went_stale(old(col)@, final(col)@),
    {
        let ghost m0 = xf@;
        let old_parent = xf.get(e.id).parent;
        let old_index = xf.get(e.id).index_in_parent;
        let ghost old_kids_ghost: Seq<u64> = match old_parent {
            Some(p) => m0[p].children@,
            None => Seq::empty(),
        };
        let ghost detached_ghost: Seq<u64> = spec_detached_children(
            old_kids_ghost,
            old_index as int,
        );
        // Collect the subtree that moves with e.
        proof {
            xf.lemma_dom_finite();
        }
        let ghost n = m0.dom().len();
        let mut stack: Vec<u64> = Vec::new();
        stack.push(e.id);
        proof {
            assert(stack@[0] == e.id);
            assert(stack@.contains(e.id));
        }
        let mut visited: Vec<u64> = Vec::new();
        while stack.len() > 0
            invariant
                xf.wf(),
                xf@ == m0,
                tree_wf(m0),
                m0.contains_key(e.id),
                m0.dom().finite(),
                n == m0.dom().len(),
                forall|i: int|
                    0 <= i < stack@.len() ==> m0.contains_key(#[trigger] stack@[i])
                        && spec_is_descendant(m0, stack@[i], e.id),
                visited@.no_duplicates(),
                forall|i: int|
                    0 <= i < visited@.len() ==> m0.dom().contains(#[trigger] visited@[i])
                        && spec_is_descendant(m0, visited@[i], e.id),
                visited@.len() <= n,
                forall|i: int, j: int|
                    0 <= i < visited@.len() && 0 <= j < m0[#[trigger] visited@[i]].children@.len()
                        ==> visited@.contains(#[trigger] m0[visited@[i]].children@[j])
                        || stack@.contains(m0[visited@[i]].children@[j]),
                visited@.contains(e.id) || stack@.contains(e.id),
            decreases n - visited@.len(), stack@.len(),
        {
            let ghost prior_stack = stack@;
            let m = stack.pop().unwrap();
            proof {
                assert(stack@ =~= prior_stack.drop_last());
                assert forall|v: u64| stack@.contains(v) implies prior_stack.contains(v) by {
                    let i = choose|i: int| 0 <= i < stack@.len() && stack@[i] == v;
                    assert(prior_stack[i] == v);
                }
            }
            if !contains_id(&visited, m) {
                let ghost prior_visited = visited@;
                visited.push(m);
                proof {
                    assert forall|i: int|
                        0 <= i < visited@.len() implies m0.dom().contains(#[trigger] visited@[i])
                        && spec_is_descendant(m0, visited@[i], e.id) by {
                        if i < visited@.len() - 1 {
                            assert(visited@[i] == prior_visited[i]);
                        }
                    }
                    lemma_visited_bound(visited@, m0.dom());
                }
                let kids = Transform::children_ids(xf, m);
                let ghost stack_before = stack@;
                push_all(&mut stack, &kids);
                proof {
                    assert forall|i: int, j: int|
                        0 <= i < visited@.len() && 0 <= j < m0[
                        #[trigger] visited@[i]].children@.len() implies visited@.contains(
                        #[trigger] m0[visited@[i]].children@[j],
                    ) || stack@.contains(m0[visited@[i]].children@[j]) by {
                        let c = m0[visited@[i]].children@[j];
                        if i == visited@.len() - 1 {
                            assert(stack@[stack_before.len() + j] == c);
                        } else {
                            assert(visited@[i] == prior_visited[i]);
                            if prior_visited.contains(c) {
                                let w = choose|w: int|
                                    0 <= w < prior_visited.len() && prior_visited[w] == c;
                                assert(visited@[w] == c);
                            } else {
                                assert(prior_stack.contains(c));
                                let w = choose|w: int|
                                    0 <= w < prior_stack.len() && prior_stack[w] == c;
                                if w == prior_stack.len() - 1 {
                                    assert(c == m);
                                    assert(visited@.last() == c);
                                } else {
                                    assert(stack@[w] == c);
                                }
                            }
                        }
                    }
                    assert forall|i: int|
                        0 <= i < stack@.len() implies m0.contains_key(#[trigger] stack@[i])
                        && spec_is_descendant(m0, stack@[i], e.id) by {
                        if i < stack_before.len() {
                            assert(stack@[i] == stack_before[i]);
                        } else {
                            assert(stack@[i] == m0[m].children@[i - stack_before.len()]);
                        }
                    }
                    assert(visited@.contains(e.id) || stack@.contains(e.id)) by {
                        if m == e.id {
                            assert(visited@.last() == e.id);
                        } else if prior_visited.contains(e.id) {
                            let w = choose|w: int|
                                0 <= w < prior_visited.len() && prior_visited[w] == e.id;
                            assert(visited@[w] == e.id);
                        } else {
                            let w = choose|w: int|
                                0 <= w < prior_stack.len() && prior_stack[w] == e.id;
                            assert(w < prior_stack.len() - 1);
                            assert(stack@[w] == e.id);
                        }
                    }
                }
            } else {
                proof {
                    assert(visited@.contains(e.id) || stack@.contains(e.id)) by {
                        if !visited@.contains(e.id) {
                            let w = choose|w: int|
                                0 <= w < prior_stack.len() && prior_stack[w] == e.id;
                            if w == prior_stack.len() - 1 {
                                assert(m == e.id);
                                assert(visited@.contains(m));
                            } else {
                                assert(stack@[w] == e.id);
                            }
                        }
                    }
                    assert forall|i: int, j: int|
                        0 <= i < visited@.len() && 0 <= j < m0[
                        #[trigger] visited@[i]].children@.len() implies visited@.contains(
                        #[trigger] m0[visited@[i]].children@[j],
                    ) || stack@.contains(m0[visited@[i]].children@[j]) by {
                        let c = m0[visited@[i]].children@[j];
                        if !visited@.contains(c) {
                            assert(prior_stack.contains(c));
                            let w = choose|w: int|
                                0 <= w < prior_stack.len() && prior_stack[w] == c;
                            if w == prior_stack.len() - 1 {
                                assert(c == m);
                                assert(visited@.contains(m));
                            } else {
                                assert(stack@[w] == c);
                            }
                        }
                    }
                }
            }
        }
        let ghost sub = visited@;
        proof {
            assert(sub.contains(e.id));
            assert forall|id: u64|
                m0.contains_key(id) && spec_is_descendant(m0, id, e.id) implies sub.contains(
                id,
            ) by {
                lemma_descendants_collected(m0, sub, e.id, id);
            }
            // nothing above e sits in its own subtree
            match old_parent {
                Some(p) => {
                    lemma_descendant_not_above(m0, e.id, p);
                    assert(!sub.contains(p));
                },
                None => {},
            }
            match new_parent {
                Some(q) => {
                    assert(!sub.contains(q.id));
                },
                None => {},
            }
            // a subtree member other than e has its parent in the subtree
            assert forall|v: u64|
                sub.contains(v) && v != e.id implies m0[v].parent is Some && sub.contains(
                m0[v].parent->Some_0,
            ) by {
                assert(spec_is_descendant(m0, v, e.id));
            }
        }
        // Unhook e from its old parent, the displaced sibling taking over
        // the vacated slot.
        match old_parent {
            Some(p) => {
                proof {
                    assert(m0[p].children@[old_index as int] == e.id);
                }
                let pn = xf.get_mut(p);
                pn.children.swap_remove(old_index);
                proof {
                    assert(xf@[p].children@ =~= detached_ghost);
                }
                let plen = xf.get(p).children.len();
                if old_index < plen {
                    let moved = xf.get(p).children[old_index];
                    proof {
                        assert(moved == old_kids_ghost.last());
                        assert(m0[moved].index_in_parent == old_kids_ghost.len() - 1);
                        assert(moved != e.id) by {
                            if moved == e.id {
                                assert(m0[e.id].index_in_parent == old_index);
                            }
                        }
                        assert(!sub.contains(moved)) by {
                            if sub.contains(moved) {
                                assert(m0[moved].parent == Some(p));
                                assert(sub.contains(p));
                            }
                        }
                    }
                    let mn = xf.get_mut(moved);
                    mn.index_in_parent = old_index;
                }
            },
            None => {},
        }
        // Append e to the new parent's list and rewire its links.
        let (pid, idx): (Option<u64>, usize) = match new_parent {
            Some(q) => {
                let qn = xf.get_mut(q.id);
                let i = qn.children.len();
                qn.children.push(e.id);
                (Some(q.id), i)
            },
            None => (None, 0),
        };
        let en = xf.get_mut(e.id);
        en.parent = pid;
        en.index_in_parent = idx;
        let ghost m1 = xf@;
        let ghost base_depth = m0[e.id].depth@;
        let ghost new_e_depth: nat = match new_parent {
            Some(q) => (m0[q.id].depth@ + 1) as nat,
            None => 0nat,
        };
        let ghost opid: Option<u64> = pid;
        proof {
            assert(m1.dom() =~= m0.dom());
            assert forall|id2: u64| #[trigger] m1.contains_key(id2) implies m1[id2].local
                == m0[id2].local && m1[id2].depth == m0[id2].depth && m1[id2].global
                == m0[id2].global by {}
            assert forall|id2: u64| #[trigger] m1.contains_key(id2) implies m1[id2].parent == (
            if id2 == e.id {
                opid
            } else {
                m0[id2].parent
            }) by {}
            assert forall|id2: u64| #[trigger] m1.contains_key(id2) implies m1[id2].children@
                == spec_children_after(m0, old_parent, opid, e.id, old_index as int, id2) by {
                match old_parent {
                    Some(p) => {
                        if id2 == p && opid == Some(p) {
                        } else if id2 == p {
                        }
                    },
                    None => {},
                }
            }
            assert forall|id2: u64| #[trigger] m1.contains_key(id2) implies m1[
            id2].index_in_parent as int == spec_index_after(
                m0,
                old_parent,
                e.id,
                old_index as int,
                idx as int,
                id2,
            ) by {}
            match new_parent {
                Some(q) => {
                    assert(idx as int == m1[q.id].children@.len() - 1 && m1[
                    q.id].children@.last() == e.id);
                },
                None => {},
            }
        }
        // Retarget the subtree: fresh depths under the new chain, caches
        // stale so the next reads recompute through it.
        let mut i2: usize = 0;
        while i2 < visited.len()
            invariant
                xf.wf(),
                col.wf(),
                visited@ == sub,
                sub.no_duplicates(),
                0 <= i2 <= sub.len(),
                forall|j: int| 0 <= j < sub.len() ==> m1.contains_key(#[trigger] sub[j]),
                forall|j: int| 0 <= j < sub.len() ==> m0.contains_key(#[trigger] sub[j]),
                xf@.dom() == m1.dom(),
                tree_wf(m0),
                m0.contains_key(e.id),
                base_depth == m0[e.id].depth@,
                forall|j: int|
                    0 <= j < sub.len() ==> spec_is_descendant(m0, #[trigger] sub[j], e.id),
                forall|id: u64| #[trigger]
                    xf@.contains_key(id) ==> xf@[id].parent == m1[id].parent && xf@[id].children
                        == m1[id].children && xf@[id].local == m1[id].local && xf@[
                    id].index_in_parent == m1[id].index_in_parent,
                forall|id: u64| #[trigger]
                    xf@.contains_key(id) && !sub.take(i2 as int).contains(id) ==> xf@[id].global
                        == m1[id].global && xf@[id].depth == m1[id].depth,
                forall|j: int|
                    0 <= j < i2 ==> xf@[#[trigger] sub[j]].global is None && xf@[
                    sub[j]].depth@ == m0[sub[j]].depth@ + new_e_depth - base_depth,
                collider_caches_went_stale(old(col)@, col@),
                crate::collider::colliders_wf(xf@, col@),
            decreases sub.len() - i2,
        {
            let id = visited[i2];
            proof {
                assert(sub[i2 as int] == id);
                assert(m1.contains_key(id));
                lemma_descendant_depth(m0, id, e.id);
                assert(!sub.take(i2 as int).contains(id)) by {
                    if sub.take(i2 as int).contains(id) {
                        let w = choose|w: int|
                            0 <= w < i2 && #[trigger] sub.take(i2 as int)[w] == id;
                        assert(sub[w] == id);
                    }
                }
            }
            let n2 = xf.get_mut(id);
            n2.global = None;
            n2.depth = Ghost(((m0[id].depth@ + new_e_depth) - base_depth) as nat);
            crate::collider::invalidate_global_aabb(col, id);
            i2 = i2 + 1;
            proof {
                assert(sub.take(i2 as int) =~= sub.take(i2 - 1).push(sub[i2 - 1]));
                assert forall|id2: u64| #[trigger]
                    xf@.contains_key(id2) && !sub.take(i2 as int).contains(id2) implies xf@[
                id2].global == m1[id2].global && xf@[id2].depth == m1[id2].depth by {
                    lemma_take_push_contains(sub, i2 as int, id2);
                }
                assert forall|j: int|
                    0 <= j < i2 implies xf@[#[trigger] sub[j]].global is None && xf@[
                sub[j]].depth@ == m0[sub[j]].depth@ + new_e_depth - base_depth by {
                    if j < i2 - 1 {
                        assert(sub[j] != id);
                    }
                }
            }
        }
        proof {
            assert(sub.take(sub.len() as int) =~= sub);
            let mf = xf@;
            // consolidated shape of the finished store
            assert forall|id: u64| #[trigger] mf.contains_key(id) implies mf[id].local
                == m0[id].local && (mf[id].parent == m0[id].parent || id == e.id) && (if sub.contains(
                id,
            ) {
                mf[id].global is None && mf[id].depth@ == m0[id].depth@ + new_e_depth
                    - base_depth
            } else {
                mf[id].global == m0[id].global && mf[id].depth == m0[id].depth
            }) by {
                if sub.contains(id) {
                    let w = choose|w: int| 0 <= w < sub.len() && sub[w] == id;
                }
            }
            // tree links mirror again
            assert forall|id: u64| #[trigger] mf.contains_key(id) implies {
                let nn = mf[id];
                &&& match nn.parent {
                    Some(pp) => mf.contains_key(pp) && mf[pp].depth@ + 1 == nn.depth@
                        && nn.index_in_parent < mf[pp].children@.len() && mf[pp].children@[
                        nn.index_in_parent as int
                    ] == id,
                    None => nn.depth@ == 0,
                }
                &&& forall|j: int|
                    0 <= j < nn.children@.len() ==> {
                        let c = #[trigger] nn.children@[j];
                        mf.contains_key(c) && mf[c].parent == Some(id) && mf[c].index_in_parent
                            == j
                    }
            } by {
                lemma_set_parent_node_ok(
                    m0,
                    m1,
                    mf,
                    sub,
                    e.id,
                    opid,
                    idx as int,
                    old_parent,
                    old_index as int,
                    new_e_depth,
                    id,
                );
            }
            assert(cache_wf(mf)) by {
                assert forall|id: u64| #[trigger] mf.contains_key(id) implies cache_ok(
                    mf,
                    id,
                ) by {
                    if !sub.contains(id) {
                        assert(mf[id].global == m0[id].global);
                        if mf[id].global is Some {
                            assert(id != e.id);
                            match mf[id].parent {
                                Some(pp) => {
                                    assert(!sub.contains(pp)) by {
                                        if sub.contains(pp) {
                                            assert(m0[pp].children@[m0[
                                            id].index_in_parent as int] == id);
                                            let w = choose|w: int|
                                                0 <= w < sub.len() && sub[w] == pp;
                                            assert(sub.contains(id));
                                        }
                                    }
                                    assert(mf[pp].global == m0[pp].global);
                                    assert(cache_ok(m0, id));
                                },
                                None => {
                                    assert(cache_ok(m0, id));
                                },
                            }
                        }
                    }
                }
            }
            assert(crate::collider::colliders_wf(mf, col@));
        }
    }

    /// The node's global translation, recomputing the cache as needed.
    pub fn global_pos(xf: &mut Storage<Transform>, e: Entity) -> (r: Vec2I)
        requires
            old(xf).wf(),
            tree_wf(old(xf)@),
            cache_wf(old(xf)@),
            old(xf)@.contains_key(e.id),
        ensures
            final(xf).wf(),
            tree_wf(final(xf)@),
            cache_wf(final(xf)@),
            globals_filled_in(old(xf)@, final(xf)@),
            final(xf)@[e.id].global is Some,
            r.x == final(xf)@[e.id].global->Some_0.tx,
            r.y == final(xf)@[e.id].global->Some_0.ty,
    {
        Transform::global_xform(xf, e).translation()
    }
}

} // verus!
