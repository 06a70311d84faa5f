use vstd::prelude::*;

verus! {

/// Fixed-point sub-units in one world unit; a normalized vector has this length.
pub const UNIT: i64 = 1000;

/// Largest magnitude of a coordinate that `normalize` accepts (2^40).
pub const HEADING_LIMIT: i64 = 0x100_0000_0000;

/// Largest magnitude of a position coordinate (2^40).
pub const COORD_LIMIT: i64 = 0x100_0000_0000;

/// A point or direction in fixed point. Motion is planar: `z` is carried
/// but never changed by the simulation.
#[derive(Clone, Copy, Debug, PartialEq, Eq, Structural)]
pub struct Vec3 {
    pub x: i64,
    pub y: i64,
    pub z: i64,
}

/// The mathematical vector: three unbounded integers.
pub type Point = (int, int, int);

impl View for Vec3 {
    type V = Point;

    open spec fn view(&self) -> Point {
        (self.x as int, self.y as int, self.z as int)
    }
}

pub open spec fn zero() -> Point {
    (0, 0, 0)
}

pub open spec fn vadd(a: Point, b: Point) -> Point {
    (a.0 + b.0, a.1 + b.1, a.2 + b.2)
}

pub open spec fn vsub(a: Point, b: Point) -> Point {
    (a.0 - b.0, a.1 - b.1, a.2 - b.2)
}

pub open spec fn vneg(a: Point) -> Point {
    (-a.0, -a.1, -a.2)
}

/// Squared Euclidean length.
pub open spec fn norm_sq(a: Point) -> int {
    a.0 * a.0 + a.1 * a.1 + a.2 * a.2
}

/// Every coordinate lies in `[-bound, bound]`.
pub open spec fn bounded(a: Point, bound: int) -> bool {
    -bound <= a.0 <= bound && -bound <= a.1 <= bound && -bound <= a.2 <= bound
}

/// Integer division rounding toward zero (as Rust's `/` does).
pub open spec fn trunc_div(a: int, d: int) -> int {
    if a >= 0 {
        a / d
    } else {
        -((-a) / d)
    }
}

pub open spec fn is_floor_sqrt(n: int, r: int) -> bool {
    0 <= r && r * r <= n && n < (r + 1) * (r + 1)
}

/// The integer square root, rounded down.
pub open spec fn floor_sqrt(n: int) -> int {
    choose|r: int| is_floor_sqrt(n, r)
}

/// One coordinate of the unit direction of a vector with squared length
/// `n`: the square root of `c² · UNIT² / n`, both steps rounded down, with the
/// sign of `c`. So `r² · n <= c² · UNIT² < (|r| + 1)² · n`, whatever the
/// vector's magnitude.
pub open spec fn unit_coord(c: int, n: int) -> int {
    let m = floor_sqrt(c * c * 1_000_000 / n);
    if c >= 0 {
        m
    } else {
        -m
    }
}

/// The direction of `a` at length `UNIT`, each coordinate rounded toward zero.
pub open spec fn unit_of(a: Point) -> Point {
    let n = norm_sq(a);
    (unit_coord(a.0, n), unit_coord(a.1, n), unit_coord(a.2, n))
}

pub proof fn lemma_floor_sqrt_unique(n: int, r: int)
    requires
        is_floor_sqrt(n, r),
    ensures
        floor_sqrt(n) == r,
{
    let s = floor_sqrt(n);
    assert(is_floor_sqrt(n, s));
    if s < r {
        assert((s + 1) * (s + 1) <= r * r) by (nonlinear_arith)
            requires
                0 <= s,
                s + 1 <= r,
        ;
    } else if r < s {
        assert((r + 1) * (r + 1) <= s * s) by (nonlinear_arith)
            requires
                0 <= r,
                r + 1 <= s,
        ;
    }
}

/// Floor square root of `n` by bisection.
pub fn floor_sqrt_u128(n: u128) -> (r: u64)
    ensures
        is_floor_sqrt(n as int, r as int),
{
    let mut lo: u128 = 0;
    let mut hi: u128 = 0x1_0000_0000_0000_0000;
    assert(n < (hi as int) * (hi as int));
    while hi - lo > 1
        invariant
            lo < hi <= 0x1_0000_0000_0000_0000,
            (lo as int) * (lo as int) <= n,
            n < (hi as int) * (hi as int),
        decreases hi - lo,
    {
        let mid: u128 = lo + (hi - lo) / 2;
        assert((mid as int) * (mid as int) < 0x1_0000_0000_0000_0000 * 0x1_0000_0000_0000_0000) by (nonlinear_arith)
            requires
                0 <= mid < 0x1_0000_0000_0000_0000,
        ;
        let sq: u128 = mid * mid;
        if sq <= n {
            lo = mid;
        } else {
            hi = mid;
        }
    }
    lo as u64
}

/// Squared length of `(x, y, z)`, computed without overflow.
pub fn norm_sq_wide(x: i128, y: i128, z: i128) -> (r: u128)
    requires
        bounded((x as int, y as int, z as int), 0x8000_0000_0000_0000),
    ensures
        r as int == norm_sq((x as int, y as int, z as int)),
{
    let ax: u128 = if x >= 0 { x as u128 } else { (-x) as u128 };
    let ay: u128 = if y >= 0 { y as u128 } else { (-y) as u128 };
    let az: u128 = if z >= 0 { z as u128 } else { (-z) as u128 };
    assert(ax * ax <= 0x8000_0000_0000_0000 * 0x8000_0000_0000_0000) by (nonlinear_arith)
        requires ax <= 0x8000_0000_0000_0000;
    assert(ay * ay <= 0x8000_0000_0000_0000 * 0x8000_0000_0000_0000) by (nonlinear_arith)
        requires ay <= 0x8000_0000_0000_0000;
    assert(az * az <= 0x8000_0000_0000_0000 * 0x8000_0000_0000_0000) by (nonlinear_arith)
        requires az <= 0x8000_0000_0000_0000;
    assert(ax * ax == x * x && ay * ay == y * y && az * az == z * z) by (nonlinear_arith)
        requires
            ax == x || ax == -x,
            ay == y || ay == -y,
            az == z || az == -z,
    ;
    ax * ax + ay * ay + az * az
}

/// Divides rounding toward zero.
pub fn div_toward_zero(a: i128, d: u128) -> (r: i128)
    requires
        d > 0,
        -0x4000_0000_0000_0000_0000_0000_0000_0000 < a < 0x4000_0000_0000_0000_0000_0000_0000_0000,
    ensures
        r == trunc_div(a as int, d as int),
{
    if a >= 0 {
        ((a as u128) / d) as i128
    } else {
        let m: u128 = (-a) as u128;
        -((m / d) as i128)
    }
}

/// See `unit_coord`; `c` is a coordinate of a vector of squared length `n`.
fn unit_coord_exec(c: i128, n: u128) -> (r: i64)
    requires
        n > 0,
        c * c <= n,
        -0x100_0000_0000 <= c <= 0x100_0000_0000,
    ensures
        r == unit_coord(c as int, n as int),
        -UNIT <= r <= UNIT,
{
    let a: u128 = if c >= 0 { c as u128 } else { (-c) as u128 };
    assert(a * a == c * c) by (nonlinear_arith)
        requires a == c || a == -c;
    assert(a * a <= 0x100_0000_0000 * 0x100_0000_0000) by (nonlinear_arith)
        requires a <= 0x100_0000_0000;
    let a2: u128 = a * a;
    let q: u128 = a2 * 1_000_000 / n;
    proof {
        vstd::arithmetic::div_mod::lemma_div_is_ordered(a2 * 1_000_000, n * 1_000_000, n as int);
        vstd::arithmetic::div_mod::lemma_div_multiples_vanish(1_000_000, n as int);
        assert(a2 * 1_000_000 <= n * 1_000_000) by (nonlinear_arith)
            requires a2 <= n;
    }
    let m = floor_sqrt_u128(q);
    proof {
        lemma_floor_sqrt_unique(q as int, m as int);
        assert(q as int == c * c * 1_000_000 / (n as int));
        if m > 1000 {
            assert(m * m > 1_000_000) by (nonlinear_arith)
                requires m > 1000;
        }
    }
    if c >= 0 {
        m as i64
    } else {
        -(m as i64)
    }
}

/// The direction of `v` at length `UNIT` (see `unit_of`). A zero vector has
/// no direction and is not accepted.
pub fn normalize(v: &Vec3) -> (r: Vec3)
    requires
        bounded(v@, HEADING_LIMIT as int),
        norm_sq(v@) > 0,
    ensures
        r@ == unit_of(v@),
        bounded(r@, UNIT as int),
{
    let x = v.x as i128;
    let y = v.y as i128;
    let z = v.z as i128;
    assert(x * x <= 0x100_0000_0000 * 0x100_0000_0000) by (nonlinear_arith)
        requires -0x100_0000_0000 <= x <= 0x100_0000_0000;
    assert(y * y <= 0x100_0000_0000 * 0x100_0000_0000) by (nonlinear_arith)
        requires -0x100_0000_0000 <= y <= 0x100_0000_0000;
    assert(z * z <= 0x100_0000_0000 * 0x100_0000_0000) by (nonlinear_arith)
        requires -0x100_0000_0000 <= z <= 0x100_0000_0000;
    assert(x * x >= 0 && y * y >= 0 && z * z >= 0) by (nonlinear_arith);
    let n: u128 = (x * x + y * y + z * z) as u128;
    assert(n as int == norm_sq(v@));
    let rx = unit_coord_exec(x, n);
    let ry = unit_coord_exec(y, n);
    let rz = unit_coord_exec(z, n);
    Vec3 { x: rx, y: ry, z: rz }
}

} // verus!
