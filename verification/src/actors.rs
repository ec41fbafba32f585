//! The actor bookkeeping: the live actor list and the deferred despawn
//! queue.
//!
//! Despawns are queued and applied in a dedicated flush step
//! ([`crate::scene::Scene::process_despawns`]) rather than mutating the
//! live set while gameplay code may be mid-iteration over it; an entity
//! queued twice, or dead by flush time, is skipped.

use vstd::prelude::*;

verus! {

/// Live actors and the queued despawns awaiting the next flush.
#[derive(Debug)]
pub struct ActorManager {
    /// Entity ids of the spawned actors.
    pub actors: Vec<u64>,
    /// Entity ids whose despawn is deferred to the next flush.
    pub queued_despawns: Vec<u64>,
}

impl ActorManager {
    pub fn new() -> (r: ActorManager)
        ensures
            r.actors@.len() == 0,
            r.queued_despawns@.len() == 0,
    {
        ActorManager { actors: Vec::new(), queued_despawns: Vec::new() }
    }

    /// Record `e` in the live actor list.
    pub fn note_spawn(&mut self, e: crate::world::Entity)
        ensures
            final(self).actors@ == old(self).actors@.push(e.id),
            final(self).queued_despawns@ == old(self).queued_despawns@,
    {
        self.actors.push(e.id);
    }

    /// Defer `e`'s despawn to the next flush.
    pub fn queue_despawn(&mut self, e: crate::world::Entity)
        ensures
            final(self).queued_despawns@ == old(self).queued_despawns@.push(e.id),
            final(self).actors@ == old(self).actors@,
    {
        self.queued_despawns.push(e.id);
    }

    /// Drop the first occurrence of `id` from the live list, the last
    /// entry taking over its slot; a list without `id` is untouched.
    pub fn forget(&mut self, id: u64)
        ensures
            final(self).queued_despawns@ == old(self).queued_despawns@,
            !old(self).actors@.contains(id) ==> final(self).actors@ == old(self).actors@,
            old(self).actors@.contains(id) ==> exists|i: int|
                0 <= i < old(self).actors@.len() && old(self).actors@[i] == id && (forall|j: int|
                    0 <= j < i ==> old(self).actors@[j] != id) && final(self).actors@ == old(
                    self,
                ).actors@.update(i, old(self).actors@.last()).drop_last(),
    {
        let mut i: usize = 0;
        while i < self.actors.len()
            invariant
                self.actors@ == old(self).actors@,
                self.queued_despawns@ == old(self).queued_despawns@,
                0 <= i <= self.actors@.len(),
                forall|j: int| 0 <= j < i ==> old(self).actors@[j] != id,
            decreases self.actors@.len() - i,
        {
            if self.actors[i] == id {
                let ghost prior = self.actors@;
                let ghost found = i as int;
                self.actors.swap_remove(i);
                proof {
                    assert(self.actors@ =~= prior.update(found, prior.last()).drop_last());
                    assert(prior[found] == id);
                    assert(prior.contains(id));
                }
                return ;
            }
            i = i + 1;
        }
        proof {
            assert(!old(self).actors@.contains(id));
        }
    }
}

} // verus!
