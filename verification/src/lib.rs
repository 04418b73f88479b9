//! Integer and bookkeeping core of a 2D rigid body physics engine: handles,
//! collision filtering, composites, the lifecycle of colliding pairs, contact
//! counting, constraint ordering and the unique edge axes of a polygon.

pub mod body;
pub mod collision;
pub mod composite;
pub mod constraint;
pub mod engine;
pub mod factory;
pub mod geometry;
