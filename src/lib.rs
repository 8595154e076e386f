//! Barnes-Hut octree over fixed-point bodies.
//!
//! Positions are integer coordinates and masses integer units, so the tree's
//! aggregates (total mass, and the mass-weighted position sum from which the
//! centre of mass follows) are exact. The per-body walk yields the point
//! masses that attract the body and the near-field collisions it meets; the
//! caller turns the point masses into a force law of its choice.
//!
//! - `bbox`: bounding boxes, their octants and octant codes.
//! - `tree`: the octree, insertion, aggregation and depth-first iteration.
//! - `force`: the opening-angle walk, the pairwise reference evaluation and
//!   the per-step driver.
pub mod bbox;
pub mod tree;
pub mod force;
