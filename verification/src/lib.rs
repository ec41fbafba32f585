//! A verified 2D tile-game core: an entity/component world, a transform
//! hierarchy with lazy global-transform caching, axis-aligned colliders,
//! a chunked sparse tile map, and an axis-separated kinematic mover.
//!
//! World geometry is carried in fixed-point coordinates (see [`scalar`]),
//! so every geometric operation has an exact integer specification.

pub mod aabb;
pub mod actors;
pub mod collider;
pub mod kinematic;
pub mod lang;
pub mod world;
pub mod scalar;
pub mod scene;
pub mod tile;
pub mod transform;

use vstd::prelude::*;

verus! {

} // verus!
