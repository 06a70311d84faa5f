use vstd::prelude::*;
use rand::Rng;
use rand::rngs::ThreadRng;
use crate::vector::{Vec3, Point, COORD_LIMIT, zero, bounded};
use crate::flock::{Boid, boid_ok};

verus! {

/// Number of agents the simulation starts with.
pub const NUM_BIRDS: usize = 2000;

/// Radius, in fixed point, of the disk round the origin where agents start.
pub const SPAWN_RADIUS: i64 = 100_000;

/// Speed, in world units per second, that a new agent gets.
pub const BOID_SPEED: u32 = 100;

/// Draws per agent before it is placed at the centre of the spawn disk.
pub const SPAWN_ATTEMPTS: u32 = 64;

#[verifier::external_type_specification]
#[verifier::external_body]
pub struct ExThreadRng(ThreadRng);

/// Relies on rand::Rng::gen_range: a value drawn from the half-open range
/// `lo..hi`, which must not be empty.
#[verifier::external_body]
fn draw_in_range(rng: &mut ThreadRng, lo: i64, hi: i64) -> (r: i64)
    requires
        lo < hi,
    ensures
        lo <= r < hi,
{
    rng.gen_range(lo..hi)
}

/// `p` lies in the plane `z = 0`, strictly inside the disk of radius `radius`
/// round the origin.
pub open spec fn in_spawn_disk(p: Point, radius: int) -> bool {
    p.2 == 0 && p.0 * p.0 + p.1 * p.1 < radius * radius
}

/// A new agent at `position`, at rest (zero heading), with the given speed.
pub fn spawn_boid(position: Vec3, speed: u32) -> (b: Boid)
    ensures
        b.position == position,
        b.heading@ == zero(),
        b.speed == speed,
{
    Boid { position, heading: Vec3 { x: 0, y: 0, z: 0 }, speed }
}

/// A drawn pair `(x, y)` accepted as a spawn point: the point `(x, y, 0)`
/// where it lies strictly inside the disk of radius `spawn_radius`, else none.
pub fn spawn_candidate(x: i64, y: i64, spawn_radius: i64) -> (p: Option<Vec3>)
    ensures
        p == if x * x + y * y < spawn_radius * spawn_radius {
            Some(Vec3 { x, y, z: 0 })
        } else {
            None::<Vec3>
        },
{
    let ax: u128 = if x >= 0 { x as u128 } else { (-(x as i128)) as u128 };
    let ay: u128 = if y >= 0 { y as u128 } else { (-(y as i128)) as u128 };
    let ar: u128 = if spawn_radius >= 0 { spawn_radius as u128 } else { (-(spawn_radius as i128)) as u128 };
    assert(ax * ax <= 0x8000_0000_0000_0000 * 0x8000_0000_0000_0000) by (nonlinear_arith)
        requires ax <= 0x8000_0000_0000_0000;
    assert(ay * ay <= 0x8000_0000_0000_0000 * 0x8000_0000_0000_0000) by (nonlinear_arith)
        requires ay <= 0x8000_0000_0000_0000;
    assert(ar * ar <= 0x8000_0000_0000_0000 * 0x8000_0000_0000_0000) by (nonlinear_arith)
        requires ar <= 0x8000_0000_0000_0000;
    assert(ax * ax == x * x && ay * ay == y * y && ar * ar == spawn_radius * spawn_radius) by (nonlinear_arith)
        requires
            ax == x || ax == -x,
            ay == y || ay == -y,
            ar == spawn_radius || ar == -spawn_radius,
    ;
    if ax * ax + ay * ay < ar * ar {
        Some(Vec3 { x, y, z: 0 })
    } else {
        None
    }
}

/// A point drawn inside the spawn disk: pairs are drawn from the enclosing
/// square until `spawn_candidate` accepts one; after `SPAWN_ATTEMPTS` misses
/// the centre is used.
fn spawn_point(rng: &mut ThreadRng, spawn_radius: i64) -> (p: Vec3)
    requires
        0 < spawn_radius <= COORD_LIMIT,
    ensures
        in_spawn_disk(p@, spawn_radius as int),
{
    let mut attempt: u32 = 0;
    while attempt < SPAWN_ATTEMPTS
        invariant
            0 < spawn_radius <= COORD_LIMIT,
        decreases SPAWN_ATTEMPTS - attempt,
    {
        let x = draw_in_range(rng, -spawn_radius, spawn_radius);
        let y = draw_in_range(rng, -spawn_radius, spawn_radius);
        if let Some(p) = spawn_candidate(x, y, spawn_radius) {
            return p;
        }
        attempt += 1;
    }
    assert(0 < spawn_radius * spawn_radius) by (nonlinear_arith)
        requires 0 < spawn_radius;
    Vec3 { x: 0, y: 0, z: 0 }
}

/// Agents at rest at the given positions, in order, all with speed `speed`.
pub fn flock_at(positions: &Vec<Vec3>, speed: u32) -> (r: Vec<Boid>)
    ensures
        r.len() == positions.len(),
        forall|k: int|
            0 <= k < positions.len() ==> #[trigger] r@[k] == (Boid {
                position: positions@[k],
                heading: Vec3 { x: 0, y: 0, z: 0 },
                speed,
            }),
{
    let mut out: Vec<Boid> = Vec::new();
    let mut i: usize = 0;
    while i < positions.len()
        invariant
            i <= positions.len(),
            out.len() == i,
            forall|k: int|
                0 <= k < i ==> #[trigger] out@[k] == (Boid {
                    position: positions@[k],
                    heading: Vec3 { x: 0, y: 0, z: 0 },
                    speed,
                }),
        decreases positions.len() - i,
    {
        out.push(spawn_boid(positions[i], speed));
        i += 1;
    }
    out
}

/// A population of `count` agents at rest, each at a random point of the
/// spawn disk of radius `spawn_radius`, all with speed `speed`.
pub fn spawn_flock(rng: &mut ThreadRng, count: usize, spawn_radius: i64, speed: u32) -> (r: Vec<Boid>)
    requires
        0 < spawn_radius <= COORD_LIMIT,
    ensures
        r.len() == count,
        forall|k: int|
            0 <= k < count ==> in_spawn_disk((#[trigger] r@[k]).position@, spawn_radius as int)
                && r@[k].heading@ == zero() && r@[k].speed == speed && boid_ok(r@[k]),
{
    let mut points: Vec<Vec3> = Vec::new();
    let mut i: usize = 0;
    while i < count
        invariant
            0 < spawn_radius <= COORD_LIMIT,
            i <= count,
            points.len() == i,
            forall|k: int|
                0 <= k < i ==> in_spawn_disk(#[trigger] points@[k]@, spawn_radius as int)
                    && bounded(points@[k]@, COORD_LIMIT as int),
        decreases count - i,
    {
        let p = spawn_point(rng, spawn_radius);
        proof {
            let (x, y) = (p.x as int, p.y as int);
            let r = spawn_radius as int;
            assert(-r <= x <= r && -r <= y <= r) by (nonlinear_arith)
                requires
                    x * x + y * y < r * r,
                    0 < r,
            {
                if x > r { assert(x * x > r * r) by (nonlinear_arith) requires x > r, r > 0; }
                if x < -r { assert(x * x > r * r) by (nonlinear_arith) requires x < -r, r > 0; }
                if y > r { assert(y * y > r * r) by (nonlinear_arith) requires y > r, r > 0; }
                if y < -r { assert(y * y > r * r) by (nonlinear_arith) requires y < -r, r > 0; }
                assert(x * x >= 0 && y * y >= 0) by (nonlinear_arith);
            }
        }
        points.push(p);
        i += 1;
    }
    let r = flock_at(&points, speed);
    assert forall|k: int| 0 <= k < count implies boid_ok(#[trigger] r@[k]) by {
        assert(r@[k].position == points@[k]);
    }
    r
}

} // verus!
