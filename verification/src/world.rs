//! Entities, the world that tracks which of them are alive, and the
//! per-component-type storage.
//!
//! An [`Entity`] is an opaque non-zero 64-bit handle drawn from a xorshift
//! generator owned by the [`World`]. Component values of one type live in a
//! [`Storage`], a map from entity id to value whose specification is a
//! [`Map`]. Operations on entities that are not alive, or on components
//! that are absent, are excluded by contract here; callers that must
//! tolerate them test first through the `try` entry points.

use vstd::prelude::*;

verus! {

/// An opaque, stable, non-zero identifier naming a bundle of components.
#[derive(Debug, Copy, Clone, PartialEq, Eq, Hash, Structural)]
pub struct Entity {
    pub id: u64,
}

/// One xorshift step; a full-cycle linear generator over the non-zero
/// 64-bit values.
pub open spec fn spec_xorshift(s: u64) -> u64 {
    let a = s ^ (s << 13);
    let b = a ^ (a >> 7);
    b ^ (b << 17)
}

/// One xorshift step, swerving to a fixed odd constant on the (never
/// observed for non-zero seeds) zero output so that the result is always a
/// usable id seed.
pub fn xorshift64(s: u64) -> (r: u64)
    ensures
        r == (if spec_xorshift(s) == 0 {
            0x9E3779B97F4A7C15u64
        } else {
            spec_xorshift(s)
        }),
        r != 0,
{
    let a = s ^ (s << 13u64);
    let b = a ^ (a >> 7u64);
    let c = b ^ (b << 17u64);
    if c == 0 {
        0x9E3779B97F4A7C15u64
    } else {
        c
    }
}

/// Upper bound on simultaneously alive entities; far beyond what memory
/// admits, and room enough for the id prober to stay below `u64::MAX`.
pub const ALIVE_MAX: u64 = 1_000_000_000_000;

/// The set of alive entities and the id generator state.
pub struct World {
    /// Current xorshift state; the next id candidate is drawn from it.
    pub rng: u64,
    /// Ids of the alive entities, each exactly once.
    pub alive: Vec<u64>,
    /// Count of entities ever spawned.
    pub spawned: u64,
}

impl World {
    /// Ids of alive entities: no duplicates, never zero, bounded in number.
    pub open spec fn wf(self) -> bool {
        &&& self.alive@.no_duplicates()
        &&& forall|i: int| 0 <= i < self.alive@.len() ==> self.alive@[i] != 0
        &&& self.alive@.len() <= ALIVE_MAX
    }

    /// The alive ids as a set.
    pub open spec fn alive_ids(self) -> Set<u64> {
        self.alive@.to_set()
    }

    pub open spec fn spec_is_alive(self, e: Entity) -> bool {
        self.alive_ids().contains(e.id)
    }

    pub open spec fn spec_alive_count(self) -> int {
        self.alive@.len() as int
    }

    pub open spec fn spec_spawned_count(self) -> u64 {
        self.spawned
    }

    /// A fresh world with no entities; `seed` primes the id generator.
    pub fn new(seed: u64) -> (r: World)
        ensures
            r.wf(),
            r.alive_ids() == Set::<u64>::empty(),
            r.spec_alive_count() == 0,
            r.spec_spawned_count() == 0,
    {
        let rng: u64 = if seed == 0 {
            1
        } else {
            seed
        };
        let w = World { rng, alive: Vec::new(), spawned: 0 };
        proof {
            assert(w.alive@.to_set() =~= Set::<u64>::empty());
        }
        w
    }

    pub fn is_alive(&self, e: Entity) -> (r: bool)
        ensures
            r == self.spec_is_alive(e),
    {
        let mut i: usize = 0;
        while i < self.alive.len()
            invariant
                0 <= i <= self.alive@.len(),
                forall|j: int| 0 <= j < i ==> self.alive@[j] != e.id,
            decreases self.alive@.len() - i,
        {
            if self.alive[i] == e.id {
                proof {
                    assert(self.alive@.contains(e.id));
                }
                return true;
            }
            i = i + 1;
        }
        proof {
            assert(!self.alive@.contains(e.id));
        }
        false
    }

    /// Allocate a fresh entity: a non-zero id not currently alive.
    ///
    /// The candidate comes from the xorshift generator; if taken, the next
    /// ids in sequence are probed, and among `alive.len() + 2` consecutive
    /// values at least one must be free.
    pub fn spawn(&mut self) -> (e: Entity)
        requires
            old(self).wf(),
            old(self).spec_alive_count() < ALIVE_MAX,
        ensures
            final(self).wf(),
            e.id != 0,
            !old(self).spec_is_alive(e),
            final(self).alive_ids() == old(self).alive_ids().insert(e.id),
            final(self).spec_is_alive(e),
            final(self).spec_alive_count() == old(self).spec_alive_count() + 1,
            final(self).spec_spawned_count() == (if old(self).spec_spawned_count()
                == u64::MAX {
                0u64
            } else {
                (old(self).spec_spawned_count() + 1) as u64
            }),
            forall|o: Entity| old(self).spec_is_alive(o) ==> final(self).spec_is_alive(o),
    {
        self.spawned = if self.spawned == u64::MAX {
            0
        } else {
            self.spawned + 1
        };
        let drawn = xorshift64(self.rng);
        self.rng = drawn;
        let n: u64 = self.alive.len() as u64;
        // Keep the whole probe window above zero and below u64::MAX.
        let base: u64 = if drawn >= u64::MAX - (n + 2) {
            1
        } else {
            drawn
        };
        let mut i: u64 = 0;
        while i < n + 1
            invariant
                self.alive@ == old(self).alive@,
                self.wf(),
                n == self.alive@.len(),
                n < ALIVE_MAX,
                1 <= base,
                base + n + 1 < u64::MAX,
                0 <= i <= n + 1,
                self.spawned == (if old(self).spawned == u64::MAX {
                    0u64
                } else {
                    (old(self).spawned + 1) as u64
                }),
                forall|j: int|
                    0 <= j < i ==> self.alive_ids().contains(#[trigger] ((base + j) as u64)),
            decreases n + 1 - i,
        {
            let candidate: u64 = base + i;
            if !self.is_alive(Entity { id: candidate }) {
                let ghost prior = self.alive@;
                self.alive.push(candidate);
                proof {
                    assert(self.alive@ == prior.push(candidate));
                    assert(self.alive@[prior.len() as int] == candidate);
                    assert forall|v: u64| self.alive@.contains(v) implies (prior.contains(v)
                        || v == candidate) by {
                        let k = choose|k: int|
                            0 <= k < self.alive@.len() && self.alive@[k] == v;
                        if k < prior.len() {
                            assert(prior[k] == v);
                        }
                    }
                    assert forall|v: u64| prior.contains(v) implies self.alive@.contains(
                        v,
                    ) by {
                        let k = choose|k: int| 0 <= k < prior.len() && prior[k] == v;
                        assert(self.alive@[k] == v);
                    }
                    assert(self.alive@.contains(candidate));
                    assert(self.alive@.to_set() =~= prior.to_set().insert(candidate));
                    assert forall|a: int, b: int|
                        0 <= a < b < self.alive@.len() implies self.alive@[a]
                        != self.alive@[b] by {
                        if b < prior.len() {
                            assert(prior[a] == self.alive@[a] && prior[b] == self.alive@[b]);
                        } else {
                            assert(self.alive@[b] == candidate);
                            assert(prior[a] == self.alive@[a]);
                            if self.alive@[a] == candidate {
                                assert(prior.contains(candidate));
                            }
                        }
                    }
                    assert forall|k: int| 0 <= k < self.alive@.len() implies self.alive@[k]
                        != 0 by {
                        if k < prior.len() {
                            assert(self.alive@[k] == prior[k]);
                            assert(prior.contains(prior[k]));
                        }
                    }
                }
                return Entity { id: candidate };
            }
            i = i + 1;
        }
        proof {
            // Pigeonhole: all n + 1 probed ids cannot fit in n alive slots.
            let ghost cands = vstd::set_lib::set_int_range(base as int, base + n + 1);
            let ghost alive_int = self.alive@.map_values(|v: u64| v as int).to_set();
            vstd::set_lib::lemma_int_range(base as int, base + n + 1);
            assert forall|v: int| cands.contains(v) implies alive_int.contains(v) by {
                let j = v - base;
                assert(self.alive_ids().contains((base + j) as u64));
                let idx = choose|idx: int|
                    0 <= idx < self.alive@.len() && self.alive@[idx] == (base + j) as u64;
                assert(self.alive@.map_values(|u: u64| u as int)[idx] == v);
                assert(self.alive@.map_values(|u: u64| u as int).contains(v));
            }
            assert(self.alive@.map_values(|v: u64| v as int).len() == self.alive@.len());
            self.alive@.map_values(|v: u64| v as int).lemma_cardinality_of_set();
            vstd::set_lib::lemma_len_subset(cands, alive_int);
            assert(false);
        }
        vstd::pervasive::unreached()
    }

    /// Remove `e` from the alive set. Destroying a dead entity is a
    /// programming error, excluded by contract; the scene drives component
    /// teardown before calling this.
    pub fn destroy(&mut self, e: Entity)
        requires
            old(self).wf(),
            old(self).spec_is_alive(e),
        ensures
            final(self).wf(),
            final(self).alive_ids() == old(self).alive_ids().remove(e.id),
            final(self).spec_alive_count() == old(self).spec_alive_count() - 1,
            final(self).spec_spawned_count() == old(self).spec_spawned_count(),
    {
        let ghost prior = self.alive@;
        let mut i: usize = 0;
        while i < self.alive.len()
            invariant
                self.alive@ == prior,
                self.spawned == old(self).spawned,
                prior == old(self).alive@,
                old(self).wf(),
                0 <= i <= prior.len(),
                forall|j: int| 0 <= j < i ==> prior[j] != e.id,
                prior.contains(e.id),
            decreases prior.len() - i,
        {
            if self.alive[i] == e.id {
                self.alive.swap_remove(i);
                proof {
                    let after = self.alive@;
                    assert(after =~= prior.update(i as int, prior.last()).drop_last());
                    lemma_swap_remove_set(prior, i as int);
                    assert forall|k: int| 0 <= k < after.len() implies after[k] != 0 by {
                        assert(after.contains(after[k]));
                        assert(prior.to_set().remove(prior[i as int]).contains(after[k]));
                        let m = choose|m: int| 0 <= m < prior.len() && prior[m] == after[k];
                    }
                }
                return ;
            }
            i = i + 1;
        }
        proof {
            let idx = choose|idx: int| 0 <= idx < prior.len() && prior[idx] == e.id;
            assert(false);
        }
    }

    /// Number of entities currently alive.
    pub fn alive_entity_count(&self) -> (r: usize)
        ensures
            r == self.spec_alive_count(),
    {
        self.alive.len()
    }

    /// Every alive entity, in storage order.
    pub fn alive_entities(&self) -> (r: Vec<Entity>)
        ensures
            r@.len() == self.spec_alive_count(),
            forall|k: int| 0 <= k < r@.len() ==> r@[k].id == self.alive@[k],
            forall|k: int| 0 <= k < r@.len() ==> self.spec_is_alive(#[trigger] r@[k]),
    {
        let mut r: Vec<Entity> = Vec::new();
        let mut i: usize = 0;
        while i < self.alive.len()
            invariant
                0 <= i <= self.alive@.len(),
                r@.len() == i,
                forall|k: int| 0 <= k < i ==> r@[k].id == self.alive@[k],
                forall|k: int| 0 <= k < i ==> self.spec_is_alive(#[trigger] r@[k]),
            decreases self.alive@.len() - i,
        {
            let e = Entity { id: self.alive[i] };
            proof {
                assert(self.alive@.contains(self.alive@[i as int]));
            }
            r.push(e);
            i = i + 1;
        }
        r
    }

    /// Number of entities ever spawned.
    pub fn spawned_entity_count(&self) -> (r: u64)
        ensures
            r == self.spec_spawned_count(),
    {
        self.spawned
    }
}

impl Entity {
    /// Allocate an entity in `world` without an owning guard; the caller
    /// destroys it explicitly.
    pub fn new_unmanaged(world: &mut World) -> (e: Entity)
        requires
            old(world).wf(),
            old(world).spec_alive_count() < ALIVE_MAX,
        ensures
            final(world).wf(),
            e.id != 0,
            !old(world).spec_is_alive(e),
            final(world).alive_ids() == old(world).alive_ids().insert(e.id),
            final(world).spec_alive_count() == old(world).spec_alive_count() + 1,
    {
        world.spawn()
    }

    /// Attach a component, replacing and returning any prior value of the
    /// same type. Attaching to a dead entity is a programming error,
    /// excluded by contract.
    pub fn insert<T>(self, world: &World, storage: &mut Storage<T>, value: T) -> (prior: Option<
        T,
    >)
        requires
            world.wf(),
            old(storage).wf(),
            world.spec_is_alive(self),
        ensures
            final(storage).wf(),
            final(storage)@ == old(storage)@.insert(self.id, value),
            match prior {
                Some(v) => old(storage)@.contains_key(self.id) && v == old(storage)@[self.id],
                None => !old(storage)@.contains_key(self.id),
            },
    {
        storage.insert(self.id, value)
    }

    /// Attach a component and hand the entity back, for chained
    /// construction.
    pub fn with<T>(self, world: &World, storage: &mut Storage<T>, value: T) -> (e: Entity)
        requires
            world.wf(),
            old(storage).wf(),
            world.spec_is_alive(self),
        ensures
            e == self,
            final(storage).wf(),
            final(storage)@ == old(storage)@.insert(self.id, value),
    {
        storage.insert(self.id, value);
        self
    }

    /// Detach and return this entity's component of the storage's type.
    /// Unlike [`Entity::insert`] this tolerates a dying entity that still
    /// carries the component, so teardown code can strip components in any
    /// order; an absent component on an alive entity is a plain `None`.
    /// Removing from a fully dead entity that lacks the component is a
    /// dead-reference error, excluded by contract.
    pub fn remove<T>(self, world: &World, storage: &mut Storage<T>) -> (r: Option<T>)
        requires
            old(storage).wf(),
            world.spec_is_alive(self) || old(storage)@.contains_key(self.id),
        ensures
            final(storage).wf(),
            final(storage)@ == old(storage)@.remove(self.id),
            match r {
                Some(v) => old(storage)@.contains_key(self.id) && v == old(storage)@[self.id],
                None => !old(storage)@.contains_key(self.id),
            },
    {
        storage.remove(self.id)
    }

    /// Whether this entity carries a component of the storage's type.
    pub fn has<T>(self, storage: &Storage<T>) -> (r: bool)
        requires
            storage.wf(),
        ensures
            r == storage@.contains_key(self.id),
    {
        storage.has(self.id)
    }

    /// Borrow this entity's component, or nothing when it is absent: the
    /// tolerant twin of [`Storage::get`].
    pub fn try_obj<T>(self, storage: &Storage<T>) -> (r: Option<&T>)
        requires
            storage.wf(),
        ensures
            match r {
                Some(v) => storage@.contains_key(self.id) && *v == storage@[self.id],
                None => !storage@.contains_key(self.id),
            },
    {
        storage.try_get(self.id)
    }

    /// Borrow this entity's component; absence is excluded by contract.
    pub fn obj<T>(self, storage: &Storage<T>) -> (r: &T)
        requires
            storage.wf(),
            storage@.contains_key(self.id),
        ensures
            *r == storage@[self.id],
    {
        storage.get(self.id)
    }

    pub fn is_alive(self, world: &World) -> (r: bool)
        ensures
            r == world.spec_is_alive(self),
    {
        world.is_alive(self)
    }

    /// Remove this entity from the alive set. This is liveness bookkeeping
    /// only: the caller strips the components first, the way
    /// the scene's despawn cascade does, or their storage entries are
    /// orphaned.
    pub fn destroy(self, world: &mut World)
        requires
            old(world).wf(),
            old(world).spec_is_alive(self),
        ensures
            final(world).wf(),
            final(world).alive_ids() == old(world).alive_ids().remove(self.id),
            final(world).spec_alive_count() == old(world).spec_alive_count() - 1,
    {
        world.destroy(self)
    }
}

/// An entity handle whose holder has taken on the duty of destroying it;
/// the guard is split off or given up explicitly rather than by a
/// destructor, so the duty is visible in the code.
#[derive(Debug, PartialEq, Eq, Structural)]
pub struct OwnedEntity {
    pub entity: Entity,
}

impl OwnedEntity {
    pub fn new(world: &mut World) -> (r: OwnedEntity)
        requires
            old(world).wf(),
            old(world).spec_alive_count() < ALIVE_MAX,
        ensures
            final(world).wf(),
            r.entity.id != 0,
            !old(world).spec_is_alive(r.entity),
            final(world).alive_ids() == old(world).alive_ids().insert(r.entity.id),
            final(world).spec_alive_count() == old(world).spec_alive_count() + 1,
    {
        OwnedEntity { entity: world.spawn() }
    }

    /// The underlying non-owning handle.
    pub fn entity(&self) -> (e: Entity)
        ensures
            e == self.entity,
    {
        self.entity
    }

    /// Give up the destruction duty and keep only the bare handle.
    pub fn unmanage(self) -> (e: Entity)
        ensures
            e == self.entity,
    {
        self.entity
    }

    /// The guard together with a bare handle to pass around.
    pub fn split_guard(self) -> (r: (OwnedEntity, Entity))
        ensures
            r.0 == self,
            r.1 == self.entity,
    {
        let e = self.entity;
        (self, e)
    }

    /// Attach a component and hand the guard back, for chained
    /// construction.
    pub fn with<T>(self, world: &World, storage: &mut Storage<T>, value: T) -> (r: OwnedEntity)
        requires
            world.wf(),
            old(storage).wf(),
            world.spec_is_alive(self.entity),
        ensures
            r == self,
            final(storage).wf(),
            final(storage)@ == old(storage)@.insert(self.entity.id, value),
    {
        storage.insert(self.entity.id, value);
        self
    }

    pub fn insert<T>(&self, world: &World, storage: &mut Storage<T>, value: T) -> (prior:
        Option<T>)
        requires
            world.wf(),
            old(storage).wf(),
            world.spec_is_alive(self.entity),
        ensures
            final(storage).wf(),
            final(storage)@ == old(storage)@.insert(self.entity.id, value),
            match prior {
                Some(v) => old(storage)@.contains_key(self.entity.id) && v == old(
                    storage,
                )@[self.entity.id],
                None => !old(storage)@.contains_key(self.entity.id),
            },
    {
        storage.insert(self.entity.id, value)
    }

    pub fn remove<T>(&self, world: &World, storage: &mut Storage<T>) -> (r: Option<T>)
        requires
            old(storage).wf(),
            world.spec_is_alive(self.entity) || old(storage)@.contains_key(self.entity.id),
        ensures
            final(storage).wf(),
            final(storage)@ == old(storage)@.remove(self.entity.id),
            match r {
                Some(v) => old(storage)@.contains_key(self.entity.id) && v == old(
                    storage,
                )@[self.entity.id],
                None => !old(storage)@.contains_key(self.entity.id),
            },
    {
        storage.remove(self.entity.id)
    }

    pub fn has<T>(&self, storage: &Storage<T>) -> (r: bool)
        requires
            storage.wf(),
        ensures
            r == storage@.contains_key(self.entity.id),
    {
        storage.has(self.entity.id)
    }

    pub fn try_obj<'a, T>(&self, storage: &'a Storage<T>) -> (r: Option<&'a T>)
        requires
            storage.wf(),
        ensures
            match r {
                Some(v) => storage@.contains_key(self.entity.id) && *v == storage@[self.entity.id],
                None => !storage@.contains_key(self.entity.id),
            },
    {
        storage.try_get(self.entity.id)
    }

    pub fn obj<'a, T>(&self, storage: &'a Storage<T>) -> (r: &'a T)
        requires
            storage.wf(),
            storage@.contains_key(self.entity.id),
        ensures
            *r == storage@[self.entity.id],
    {
        storage.get(self.entity.id)
    }

    pub fn is_alive(&self, world: &World) -> (r: bool)
        ensures
            r == world.spec_is_alive(self.entity),
    {
        world.is_alive(self.entity)
    }

    /// Consume the guard and remove the entity from the alive set.
    pub fn destroy(self, world: &mut World)
        requires
            old(world).wf(),
            old(world).spec_is_alive(self.entity),
        ensures
            final(world).wf(),
            final(world).alive_ids() == old(world).alive_ids().remove(self.entity.id),
            final(world).spec_alive_count() == old(world).spec_alive_count() - 1,
    {
        world.destroy(self.entity)
    }
}

/// Component values of one type, keyed by entity id.
///
/// The specification view is a [`Map`] from id to value; the backing
/// association list keeps each key at most once.
pub struct Storage<T> {
    pub pairs: Vec<(u64, T)>,
}

impl<T> View for Storage<T> {
    type V = Map<u64, T>;

    open spec fn view(&self) -> Map<u64, T> {
        Map::new(
            |id: u64| exists|i: int| 0 <= i < self.pairs@.len() && self.pairs@[i].0 == id,
            |id: u64|
                self.pairs@[choose|i: int|
                    0 <= i < self.pairs@.len() && self.pairs@[i].0 == id].1,
        )
    }
}

impl<T> Storage<T> {
    /// Keys appear at most once.
    pub open spec fn wf(self) -> bool {
        forall|i: int, j: int|
            0 <= i < j < self.pairs@.len() ==> self.pairs@[i].0 != self.pairs@[j].0
    }

    /// In a well-formed storage, the pair at `i` is the view entry of its
    /// key.
    proof fn lemma_pair_is_view_entry(self, i: int)
        requires
            self.wf(),
            0 <= i < self.pairs@.len(),
        ensures
            self@.contains_key(self.pairs@[i].0),
            self@[self.pairs@[i].0] == self.pairs@[i].1,
    {
        let id = self.pairs@[i].0;
        let w = choose|w: int| 0 <= w < self.pairs@.len() && self.pairs@[w].0 == id;
        assert(w == i);
    }

    /// A well-formed storage's key set is finite and as large as its pair
    /// list.
    pub proof fn lemma_dom_finite(self)
        requires
            self.wf(),
        ensures
            self@.dom().finite(),
            self@.dom().len() == self.pairs@.len(),
    {
        broadcast use vstd::seq_lib::seq_to_set_is_finite;

        let keys = self.pairs@.map_values(|p: (u64, T)| p.0);
        assert forall|a: int, b: int| 0 <= a < b < keys.len() implies keys[a] != keys[b] by {
            assert(keys[a] == self.pairs@[a].0 && keys[b] == self.pairs@[b].0);
        }
        keys.unique_seq_to_set();
        assert forall|k: u64| keys.to_set().contains(k) implies self@.dom().contains(k) by {
            let i = choose|i: int| 0 <= i < keys.len() && keys[i] == k;
            assert(self.pairs@[i].0 == k);
        }
        assert forall|k: u64| self@.dom().contains(k) implies keys.to_set().contains(k) by {
            let i = choose|i: int| 0 <= i < self.pairs@.len() && self.pairs@[i].0 == k;
            assert(keys[i] == k);
        }
        assert(keys.to_set() =~= self@.dom());
    }

    pub fn new() -> (r: Storage<T>)
        ensures
            r.wf(),
            r@ == Map::<u64, T>::empty(),
    {
        let r = Storage { pairs: Vec::new() };
        proof {
            assert(r@ =~= Map::<u64, T>::empty());
        }
        r
    }

    /// Index of `id`'s pair, if present.
    fn find_index(&self, id: u64) -> (r: Option<usize>)
        requires
            self.wf(),
        ensures
            match r {
                Some(i) => i < self.pairs@.len() && self.pairs@[i as int].0 == id
                    && self@.contains_key(id) && self@[id] == self.pairs@[i as int].1,
                None => !self@.contains_key(id),
            },
    {
        let mut i: usize = 0;
        while i < self.pairs.len()
            invariant
                self.wf(),
                0 <= i <= self.pairs@.len(),
                forall|j: int| 0 <= j < i ==> self.pairs@[j].0 != id,
            decreases self.pairs@.len() - i,
        {
            if self.pairs[i].0 == id {
                proof {
                    self.lemma_pair_is_view_entry(i as int);
                }
                return Some(i);
            }
            i = i + 1;
        }
        None
    }

    pub fn has(&self, id: u64) -> (r: bool)
        requires
            self.wf(),
        ensures
            r == self@.contains_key(id),
    {
        self.find_index(id).is_some()
    }

    /// Borrow the component of `id`, or nothing when it is absent.
    pub fn try_get(&self, id: u64) -> (r: Option<&T>)
        requires
            self.wf(),
        ensures
            match r {
                Some(v) => self@.contains_key(id) && *v == self@[id],
                None => !self@.contains_key(id),
            },
    {
        match self.find_index(id) {
            Some(i) => Some(&self.pairs[i].1),
            None => None,
        }
    }

    /// Borrow the component of `id`; absence is excluded by contract.
    pub fn get(&self, id: u64) -> (r: &T)
        requires
            self.wf(),
            self@.contains_key(id),
        ensures
            *r == self@[id],
    {
        self.try_get(id).unwrap()
    }

    /// Remove and return the component of `id`, if any.
    pub fn remove(&mut self, id: u64) -> (r: Option<T>)
        requires
            old(self).wf(),
        ensures
            final(self).wf(),
            final(self)@ == old(self)@.remove(id),
            match r {
                Some(v) => old(self)@.contains_key(id) && v == old(self)@[id],
                None => !old(self)@.contains_key(id),
            },
    {
        match self.find_index(id) {
            Some(i) => {
                let ghost prior = *self;
                let pair = self.pairs.swap_remove(i);
                proof {
                    self.lemma_after_swap_remove(prior, i as int);
                }
                Some(pair.1)
            },
            None => {
                proof {
                    assert(self@ =~= old(self)@.remove(id));
                }
                None
            },
        }
    }

    /// After swap-removing index `i`, the view lost exactly that key.
    proof fn lemma_after_swap_remove(self, prior: Storage<T>, i: int)
        requires
            prior.wf(),
            0 <= i < prior.pairs@.len(),
            self.pairs@ == prior.pairs@.update(i, prior.pairs@.last()).drop_last(),
        ensures
            self.wf(),
            self@ == prior@.remove(prior.pairs@[i].0),
    {
        let id = prior.pairs@[i].0;
        let n = prior.pairs@.len() as int;
        assert forall|a: int, b: int|
            0 <= a < b < self.pairs@.len() implies self.pairs@[a].0 != self.pairs@[b].0 by {
            let pa: int = if a == i {
                n - 1
            } else {
                a
            };
            let pb: int = if b == i {
                n - 1
            } else {
                b
            };
            assert(self.pairs@[a] == prior.pairs@[pa]);
            assert(self.pairs@[b] == prior.pairs@[pb]);
        }
        assert forall|k: u64| #[trigger] self@.contains_key(k) implies prior@.contains_key(k)
            && k != id by {
            let j = choose|j: int| 0 <= j < self.pairs@.len() && self.pairs@[j].0 == k;
            let pj: int = if j == i {
                n - 1
            } else {
                j
            };
            assert(self.pairs@[j] == prior.pairs@[pj]);
            prior.lemma_pair_is_view_entry(pj);
            if k == id {
                assert(prior.pairs@[pj].0 == prior.pairs@[i].0);
            }
        }
        assert forall|k: u64| prior@.contains_key(k) && k != id implies #[trigger] self@.contains_key(
            k,
        ) && self@[k] == prior@[k] by {
            let j = choose|j: int| 0 <= j < prior.pairs@.len() && prior.pairs@[j].0 == k;
            prior.lemma_pair_is_view_entry(j);
            let nj: int = if j == n - 1 {
                i
            } else {
                j
            };
            assert(j != i);
            if j == n - 1 && i == n - 1 {
                assert(false);
            }
            assert(self.pairs@[nj] == prior.pairs@[j]);
            self.lemma_pair_is_view_entry(nj);
        }
        assert(self@ =~= prior@.remove(id));
    }

    /// Store `value` for `id`, handing back any prior value of that key.
    pub fn insert(&mut self, id: u64, value: T) -> (prior: Option<T>)
        requires
            old(self).wf(),
        ensures
            final(self).wf(),
            final(self)@ == old(self)@.insert(id, value),
            match prior {
                Some(v) => old(self)@.contains_key(id) && v == old(self)@[id],
                None => !old(self)@.contains_key(id),
            },
    {
        let prior = self.remove(id);
        let ghost mid = *self;
        self.pairs.push((id, value));
        proof {
            assert forall|a: int, b: int|
                0 <= a < b < self.pairs@.len() implies self.pairs@[a].0 != self.pairs@[b].0 by {
                if b < mid.pairs@.len() {
                    assert(self.pairs@[a] == mid.pairs@[a]);
                    assert(self.pairs@[b] == mid.pairs@[b]);
                } else {
                    assert(self.pairs@[b] == (id, value));
                    assert(self.pairs@[a] == mid.pairs@[a]);
                    if mid.pairs@[a].0 == id {
                        mid.lemma_pair_is_view_entry(a);
                    }
                }
            }
            let n = mid.pairs@.len() as int;
            assert(self.pairs@[n] == (id, value));
            self.lemma_pair_is_view_entry(n);
            assert forall|k: u64| #[trigger] self@.contains_key(k) && k != id implies mid@.contains_key(
                k,
            ) && self@[k] == mid@[k] by {
                let j = choose|j: int| 0 <= j < self.pairs@.len() && self.pairs@[j].0 == k;
                assert(j != n);
                assert(self.pairs@[j] == mid.pairs@[j]);
                mid.lemma_pair_is_view_entry(j);
                self.lemma_pair_is_view_entry(j);
            }
            assert forall|k: u64| mid@.contains_key(k) implies #[trigger] self@.contains_key(
                k,
            ) by {
                let j = choose|j: int| 0 <= j < mid.pairs@.len() && mid.pairs@[j].0 == k;
                assert(self.pairs@[j] == mid.pairs@[j]);
                self.lemma_pair_is_view_entry(j);
            }
            assert(self@ =~= old(self)@.insert(id, value));
        }
        prior
    }

    /// Mutably borrow the component of `id`; the view afterwards holds
    /// whatever the caller leaves behind the reference.
    pub fn get_mut(&mut self, id: u64) -> (r: &mut T)
        requires
            old(self).wf(),
            old(self)@.contains_key(id),
        ensures
            *r == old(self)@[id],
            final(self).wf(),
            final(self)@ == old(self)@.insert(id, *final(r)),
    {
        let i = self.find_index(id).unwrap();
        let ghost prior = *self;
        let ghost gi = i as int;
        let pair: &mut (u64, T) = &mut self.pairs[i];
        proof {
            assert(*pair == prior.pairs@[gi]);
        }
        let r: &mut T = &mut pair.1;
        proof {
            assert forall|a: int, b: int|
                0 <= a < b < after_borrow(self).pairs@.len() implies after_borrow(
                self,
            ).pairs@[a].0 != after_borrow(self).pairs@[b].0 by {
                assert(after_borrow(self).pairs@[a].0 == prior.pairs@[a].0);
                assert(after_borrow(self).pairs@[b].0 == prior.pairs@[b].0);
            }
            assert(after_borrow(self).pairs@[gi].0 == id);
            assert(after_borrow(self).pairs@[gi].1 == *final(r));
            after_borrow(self).lemma_pair_is_view_entry(gi);
            assert forall|k: u64| #[trigger] after_borrow(self)@.contains_key(k) && k != id
                implies prior@.contains_key(k) && after_borrow(self)@[k] == prior@[k] by {
                let j = choose|j: int|
                    0 <= j < after_borrow(self).pairs@.len() && after_borrow(self).pairs@[j].0
                        == k;
                assert(j != gi);
                assert(after_borrow(self).pairs@[j] == prior.pairs@[j]);
                prior.lemma_pair_is_view_entry(j);
                after_borrow(self).lemma_pair_is_view_entry(j);
            }
            assert forall|k: u64| prior@.contains_key(k) implies #[trigger] after_borrow(
                self,
            )@.contains_key(k) by {
                let j = choose|j: int| 0 <= j < prior.pairs@.len() && prior.pairs@[j].0 == k;
                if j == gi {
                    after_borrow(self).lemma_pair_is_view_entry(gi);
                } else {
                    assert(after_borrow(self).pairs@[j] == prior.pairs@[j]);
                    after_borrow(self).lemma_pair_is_view_entry(j);
                }
            }
            assert(after_borrow(self)@ =~= prior@.insert(id, *final(r)));
        }
        r
    }
}

/// Swap-removing index `i` of a duplicate-free sequence removes exactly
/// that element from its set.
proof fn lemma_swap_remove_set(s: Seq<u64>, i: int)
    requires
        s.no_duplicates(),
        0 <= i < s.len(),
    ensures
        s.update(i, s.last()).drop_last().no_duplicates(),
        s.update(i, s.last()).drop_last().to_set() == s.to_set().remove(s[i]),
        s.update(i, s.last()).drop_last().len() == s.len() - 1,
{
    let t = s.update(i, s.last()).drop_last();
    assert forall|a: int, b: int| 0 <= a < b < t.len() implies t[a] != t[b] by {
        assert(s[a] == s[a]);
    }
    assert forall|v: u64| t.to_set().contains(v) implies s.to_set().remove(s[i]).contains(
        v,
    ) by {
        let k = choose|k: int| 0 <= k < t.len() && t[k] == v;
        if k == i {
            assert(s[s.len() - 1] == v);
            assert(s.contains(v));
        } else {
            assert(s[k] == v);
            assert(s.contains(v));
        }
    }
    assert forall|v: u64| s.to_set().remove(s[i]).contains(v) implies t.to_set().contains(
        v,
    ) by {
        let k = choose|k: int| 0 <= k < s.len() && s[k] == v;
        if k == s.len() - 1 {
            if i < s.len() - 1 {
                assert(t[i] == v);
                assert(t.contains(v));
            }
        } else if k == i {
        } else {
            assert(t[k] == v);
            assert(t.contains(v));
        }
    }
    assert(t.to_set() =~= s.to_set().remove(s[i]));
}

} // verus!
