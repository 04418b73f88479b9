use vstd::prelude::*;

verus! {

/// Identifies a body by its index in the engine's body list.
#[derive(Debug, Clone, Copy, PartialEq, Eq, Hash, Structural)]
pub struct BodyHandle(pub usize);

/// Collision filtering data of a body: which categories it belongs to, which
/// it accepts, and its group (same non-zero group: always or never collide).
#[derive(Debug, Clone, Copy, PartialEq, Eq, Structural)]
pub struct CollisionFilter {
    pub category: u32,
    pub mask: u32,
    pub group: i32,
}

} // verus!
