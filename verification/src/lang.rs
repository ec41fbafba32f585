//! Small language-level helpers: growable option slots and the
//! despawn-exactly-once step marker.

use vstd::prelude::*;

verus! {

/// Grow `vec` with empty slots until `length` slots exist; existing slots
/// are untouched.
pub fn ensure_length<T>(vec: &mut Vec<Option<T>>, length: usize)
    ensures
        final(vec)@.len() == vstd::math::max(old(vec)@.len() as int, length as int),
        forall|i: int| 0 <= i < old(vec)@.len() ==> final(vec)@[i] == old(vec)@[i],
        forall|i: int| old(vec)@.len() <= i < final(vec)@.len() ==> final(vec)@[i] is None,
{
    while vec.len() < length
        invariant
            old(vec)@.len() <= vec@.len() <= vstd::math::max(old(vec)@.len() as int, length as int),
            forall|i: int| 0 <= i < old(vec)@.len() ==> vec@[i] == old(vec)@[i],
            forall|i: int| old(vec)@.len() <= i < vec@.len() ==> vec@[i] is None,
        decreases length - vec@.len(),
    {
        vec.push(None);
    }
}

/// Mutably borrow slot `index` of `vec`, growing it with empty slots as
/// needed.
pub fn ensure_index<T>(vec: &mut Vec<Option<T>>, index: usize) -> (r: &mut Option<T>)
    requires
        index < usize::MAX,
    ensures
        *r == (if index < old(vec)@.len() {
            old(vec)@[index as int]
        } else {
            None::<T>
        }),
        final(vec)@.len() == vstd::math::max(old(vec)@.len() as int, index + 1),
        forall|i: int|
            0 <= i < final(vec)@.len() && i != index ==> final(vec)@[i] == (if i < old(
                vec,
            )@.len() {
                old(vec)@[i]
            } else {
                None::<T>
            }),
        final(vec)@[index as int] == *final(r),
{
    ensure_length(vec, index + 1);
    &mut vec[index]
}

/// Records that a component's despawn ran; marking twice, or dropping a
/// component that was never marked, was a debug assertion in spirit and is
/// excluded by contract here.
#[derive(Debug, Clone, PartialEq, Eq, Structural)]
pub struct DespawnStep {
    pub dropped: bool,
}

impl DespawnStep {
    pub fn new() -> (r: DespawnStep)
        ensures
            !r.dropped,
    {
        DespawnStep { dropped: false }
    }

    /// Record the despawn; a second mark is a double despawn, excluded by
    /// contract.
    pub fn mark(&mut self)
        requires
            !old(self).dropped,
        ensures
            final(self).dropped,
    {
        self.dropped = true;
    }
}

} // verus!
