//! Flocking ("boids") simulation core on fixed-point integer vectors.
//!
//! Positions and headings are stored in fixed point: `UNIT` sub-units make
//! one world unit. Every computation is exact integer arithmetic, so each
//! rule of the flocking model is stated and proved over mathematical
//! integers.

mod vector;
mod steering;
mod flock;
mod spawn;

pub use vector::{Vec3, UNIT, COORD_LIMIT, HEADING_LIMIT, normalize, floor_sqrt_u128};
pub use steering::{
    find_neighbor_headings,
    find_nearby_boids, separation_calculator, cohesion_calculator, alignment_calculator,
    NEIGHBOR_RADIUS, MAX_AGENTS,
};
pub use flock::{
    Boid, AlignmentScope, boid_heading_calculator, boid_movement, tick, MAP_RADIUS,
    MICROS_PER_SECOND,
};
pub use spawn::{spawn_boid, spawn_candidate, flock_at, spawn_flock, NUM_BIRDS, SPAWN_RADIUS, BOID_SPEED, SPAWN_ATTEMPTS};
