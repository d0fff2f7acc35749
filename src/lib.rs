//! A deterministic gravity sandbox: bodies attract one another, collide,
//! and merge, all on fixed-point integer quantities so that every step is
//! exact and reproducible.
pub mod arith;
pub mod body;
pub mod geometry;
pub mod grouping;
pub mod merge;
pub mod resolve;
pub mod scan;
pub mod world;

pub use body::{newtonian_grav, pair_force, Body};
pub use geometry::{check_collision, inverse_volume_of_sphere, isqrt, volume_of_sphere};
pub use grouping::put_in_collision_group;
pub use merge::collide_planets;
pub use resolve::resolve_collisions;
pub use scan::accumulate;
pub use world::{SimError, StepReport, World};
