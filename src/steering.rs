use vstd::prelude::*;
use crate::vector::{
    Vec3, Point, UNIT, HEADING_LIMIT, COORD_LIMIT, zero, vadd, vsub, vneg, norm_sq, bounded,
    trunc_div, unit_of, normalize, norm_sq_wide, div_toward_zero,
};

verus! {

/// Distance, in fixed point, under which another agent counts as a neighbor.
pub const NEIGHBOR_RADIUS: i64 = 100_000;

/// The square of `NEIGHBOR_RADIUS`.
pub const NEIGHBOR_RADIUS_SQ: u128 = 10_000_000_000;

/// Largest population the fixed-width arithmetic admits.
pub const MAX_AGENTS: usize = 0x10_0000;

/// The view of each vector of a list.
pub open spec fn points(s: Seq<Vec3>) -> Seq<Point> {
    s.map_values(|v: Vec3| v@)
}

/// `d` is a neighbor offset: nonzero, and shorter than the neighbor radius.
pub open spec fn is_neighbor_offset(d: Point) -> bool {
    0 < norm_sq(d) < NEIGHBOR_RADIUS_SQ
}

/// `d` lies within the neighbor radius of the origin.
pub open spec fn within_radius(d: Point) -> bool {
    norm_sq(d) < NEIGHBOR_RADIUS_SQ
}

/// The offsets `p - q` of the positions `p` of `ps` that are neighbors of
/// `q`, in the order of `ps`.
pub open spec fn neighbors(ps: Seq<Vec3>, q: Point) -> Seq<Point>
    decreases ps.len(),
{
    if ps.len() == 0 {
        seq![]
    } else {
        let rest = neighbors(ps.drop_last(), q);
        let d = vsub(ps.last()@, q);
        if is_neighbor_offset(d) {
            rest.push(d)
        } else {
            rest
        }
    }
}

/// The headings `hs[k]` of the agents whose positions `ps[k]` are neighbors
/// of `q`, in order. `ps` and `hs` describe the same agents.
pub open spec fn neighbor_headings(ps: Seq<Vec3>, hs: Seq<Vec3>, q: Point) -> Seq<Vec3>
    decreases ps.len(),
{
    if ps.len() == 0 || hs.len() == 0 {
        seq![]
    } else {
        let rest = neighbor_headings(ps.drop_last(), hs.drop_last(), q);
        if is_neighbor_offset(vsub(ps.last()@, q)) {
            rest.push(hs.last())
        } else {
            rest
        }
    }
}

/// Sum of the offsets of `ns` that lie within the neighbor radius.
pub open spec fn sum_within(ns: Seq<Point>) -> Point
    decreases ns.len(),
{
    if ns.len() == 0 {
        zero()
    } else {
        let rest = sum_within(ns.drop_last());
        if within_radius(ns.last()) {
            vadd(rest, ns.last())
        } else {
            rest
        }
    }
}

/// Number of the offsets of `ns` that lie within the neighbor radius.
pub open spec fn count_within(ns: Seq<Point>) -> nat
    decreases ns.len(),
{
    if ns.len() == 0 {
        0
    } else {
        count_within(ns.drop_last()) + if within_radius(ns.last()) { 1nat } else { 0nat }
    }
}

/// Pushes away from the neighbors: the negated sum of their offsets.
pub open spec fn separation(ns: Seq<Point>) -> Point {
    vneg(sum_within(ns))
}

/// Pulls toward the neighbors' centroid: the mean of their offsets, each
/// coordinate rounded toward zero; zero where there is none.
pub open spec fn cohesion(ns: Seq<Point>) -> Point {
    let n = count_within(ns) as int;
    let s = sum_within(ns);
    if n == 0 {
        zero()
    } else {
        (trunc_div(s.0, n), trunc_div(s.1, n), trunc_div(s.2, n))
    }
}

/// Sum of the unit directions of the nonzero headings of `hs`.
pub open spec fn alignment(hs: Seq<Vec3>) -> Point
    decreases hs.len(),
{
    if hs.len() == 0 {
        zero()
    } else {
        let rest = alignment(hs.drop_last());
        if norm_sq(hs.last()@) > 0 {
            vadd(rest, unit_of(hs.last()@))
        } else {
            rest
        }
    }
}

/// Each vector of `s` has its coordinates in `[-bound, bound]`.
pub open spec fn all_bounded(s: Seq<Vec3>, bound: int) -> bool {
    forall|k: int| 0 <= k < s.len() ==> bounded(#[trigger] s[k]@, bound)
}

/// A coordinate of a vector shorter than the radius is smaller than the radius.
proof fn lemma_within_radius_bounded(d: Point)
    requires
        within_radius(d),
    ensures
        bounded(d, NEIGHBOR_RADIUS - 1),
{
    assert(bounded(d, NEIGHBOR_RADIUS - 1)) by (nonlinear_arith)
        requires
            d.0 * d.0 + d.1 * d.1 + d.2 * d.2 < 100_000 * 100_000,
    ;
}

/// Every offset that `neighbors` yields is a neighbor offset.
pub proof fn lemma_neighbors_are_offsets(ps: Seq<Vec3>, q: Point)
    ensures
        forall|k: int| 0 <= k < neighbors(ps, q).len() ==> is_neighbor_offset(#[trigger] neighbors(ps, q)[k]),
        neighbors(ps, q).len() <= ps.len(),
    decreases ps.len(),
{
    if ps.len() > 0 {
        lemma_neighbors_are_offsets(ps.drop_last(), q);
    }
}

/// The relative offsets of all positions of `boid_list` that lie within the
/// neighbor radius of `position`, excluding those at distance zero (the
/// agent itself, and any agent sharing its exact position).
pub fn find_nearby_boids(boid_list: Vec<Vec3>, position: Vec3) -> (r: Vec<Vec3>)
    requires
        all_bounded(boid_list@, COORD_LIMIT as int),
        bounded(position@, COORD_LIMIT as int),
    ensures
        points(r@) == neighbors(boid_list@, position@),
        forall|k: int| 0 <= k < r.len() ==> norm_sq(#[trigger] r@[k]@) > 0,
        r.len() <= boid_list.len(),
{
    let mut out: Vec<Vec3> = Vec::new();
    let n = boid_list.len();
    let mut i: usize = 0;
    while i < n
        invariant
            n == boid_list.len(),
            i <= n,
            all_bounded(boid_list@, COORD_LIMIT as int),
            bounded(position@, COORD_LIMIT as int),
            points(out@) == neighbors(boid_list@.take(i as int), position@),
        decreases n - i,
    {
        let p = boid_list[i];
        assert(bounded(boid_list@[i as int]@, COORD_LIMIT as int));
        let dx: i128 = p.x as i128 - position.x as i128;
        let dy: i128 = p.y as i128 - position.y as i128;
        let dz: i128 = p.z as i128 - position.z as i128;
        let d2 = norm_sq_wide(dx, dy, dz);
        assert(boid_list@.take(i + 1).drop_last() == boid_list@.take(i as int));
        if d2 > 0 && d2 < NEIGHBOR_RADIUS_SQ {
            proof {
                lemma_within_radius_bounded((dx as int, dy as int, dz as int));
            }
            let d = Vec3 { x: dx as i64, y: dy as i64, z: dz as i64 };
            let ghost before = out@;
            out.push(d);
            assert(points(out@) =~= points(before).push(d@));
        }
        i += 1;
    }
    assert(boid_list@.take(n as int) == boid_list@);
    proof {
        lemma_neighbors_are_offsets(boid_list@, position@);
        assert forall|k: int| 0 <= k < out.len() implies norm_sq(#[trigger] out@[k]@) > 0 by {
            assert(points(out@)[k] == out@[k]@);
        }
    }
    out
}

/// The headings of the agents that are neighbors of `position`: the agents
/// whose offsets `find_nearby_boids` yields.
pub fn find_neighbor_headings(positions: &Vec<Vec3>, headings: &Vec<Vec3>, position: Vec3) -> (r: Vec<Vec3>)
    requires
        positions.len() == headings.len(),
        all_bounded(positions@, COORD_LIMIT as int),
        bounded(position@, COORD_LIMIT as int),
    ensures
        r@ == neighbor_headings(positions@, headings@, position@),
        r.len() <= positions.len(),
{
    let mut out: Vec<Vec3> = Vec::new();
    let n = positions.len();
    let mut i: usize = 0;
    while i < n
        invariant
            n == positions.len() == headings.len(),
            i <= n,
            out.len() <= i,
            all_bounded(positions@, COORD_LIMIT as int),
            bounded(position@, COORD_LIMIT as int),
            out@ == neighbor_headings(positions@.take(i as int), headings@.take(i as int), position@),
        decreases n - i,
    {
        let p = positions[i];
        assert(bounded(positions@[i as int]@, COORD_LIMIT as int));
        let dx: i128 = p.x as i128 - position.x as i128;
        let dy: i128 = p.y as i128 - position.y as i128;
        let dz: i128 = p.z as i128 - position.z as i128;
        let d2 = norm_sq_wide(dx, dy, dz);
        assert(positions@.take(i + 1).drop_last() == positions@.take(i as int));
        assert(headings@.take(i + 1).drop_last() == headings@.take(i as int));
        assert(positions@.take(i + 1).last() == p);
        if d2 > 0 && d2 < NEIGHBOR_RADIUS_SQ {
            out.push(headings[i]);
        }
        i += 1;
    }
    assert(positions@.take(n as int) == positions@);
    assert(headings@.take(n as int) == headings@);
    out
}

/// The neighbor headings are headings of the flock, and no more of them than agents.
pub proof fn lemma_neighbor_headings_from(ps: Seq<Vec3>, hs: Seq<Vec3>, q: Point, bound: int)
    requires
        all_bounded(hs, bound),
    ensures
        all_bounded(neighbor_headings(ps, hs, q), bound),
        neighbor_headings(ps, hs, q).len() <= ps.len(),
    decreases ps.len(),
{
    if ps.len() > 0 && hs.len() > 0 {
        let t = hs.drop_last();
        assert forall|k: int| 0 <= k < t.len() implies bounded(#[trigger] t[k]@, bound) by {
            assert(t[k] == hs[k]);
        }
        lemma_neighbor_headings_from(ps.drop_last(), t, q, bound);
        assert(bounded(hs[hs.len() - 1]@, bound));
    }
}

/// Sum of all vectors of `ns`.
pub open spec fn sum_all(ns: Seq<Point>) -> Point
    decreases ns.len(),
{
    if ns.len() == 0 {
        zero()
    } else {
        vadd(sum_all(ns.drop_last()), ns.last())
    }
}

proof fn lemma_within_sums(ns: Seq<Point>)
    requires
        forall|k: int| 0 <= k < ns.len() ==> within_radius(#[trigger] ns[k]),
    ensures
        sum_within(ns) == sum_all(ns),
        count_within(ns) == ns.len(),
    decreases ns.len(),
{
    if ns.len() > 0 {
        let rest = ns.drop_last();
        assert forall|k: int| 0 <= k < rest.len() implies within_radius(#[trigger] rest[k]) by {
            assert(rest[k] == ns[k]);
        }
        lemma_within_sums(rest);
        assert(within_radius(ns[ns.len() - 1]));
    }
}

/// For offsets that all lie strictly within the neighbor radius, the
/// separation force is the negated sum of all of them.
pub proof fn lemma_separation_negates_sum(ns: Seq<Point>)
    requires
        forall|k: int| 0 <= k < ns.len() ==> within_radius(#[trigger] ns[k]),
    ensures
        separation(ns) == vneg(sum_all(ns)),
{
    lemma_within_sums(ns);
}

/// For a nonempty set of offsets that all lie strictly within the neighbor
/// radius, the cohesion force is their mean (each coordinate rounded toward
/// zero).
pub proof fn lemma_cohesion_is_mean(ns: Seq<Point>)
    requires
        ns.len() > 0,
        forall|k: int| 0 <= k < ns.len() ==> within_radius(#[trigger] ns[k]),
    ensures
        cohesion(ns) == (
            trunc_div(sum_all(ns).0, ns.len() as int),
            trunc_div(sum_all(ns).1, ns.len() as int),
            trunc_div(sum_all(ns).2, ns.len() as int),
        ),
{
    lemma_within_sums(ns);
}

/// What the neighbor finder yields lies within the neighbor radius, so the
/// steering calculators' radius filter keeps all of it.
pub proof fn lemma_neighbors_within_radius(ps: Seq<Vec3>, q: Point)
    ensures
        forall|k: int| 0 <= k < neighbors(ps, q).len() ==> within_radius(#[trigger] neighbors(ps, q)[k]),
{
    lemma_neighbors_are_offsets(ps, q);
    assert forall|k: int| 0 <= k < neighbors(ps, q).len() implies within_radius(#[trigger] neighbors(ps, q)[k]) by {
        assert(is_neighbor_offset(neighbors(ps, q)[k]));
    }
}

/// Bound on a coordinate of a sum of up to `MAX_AGENTS` offsets within the radius.
pub const SUM_LIMIT: i64 = 104_856_551_424;

/// Bound on a coordinate of a sum of up to `MAX_AGENTS` unit directions.
pub const ALIGN_LIMIT: i64 = 1_048_576_000;

proof fn lemma_trunc_div_shrinks(a: int, d: int)
    requires
        d >= 1,
    ensures
        a >= 0 ==> 0 <= trunc_div(a, d) <= a,
        a < 0 ==> a <= trunc_div(a, d) <= 0,
{
    let m = if a >= 0 { a } else { -a };
    vstd::arithmetic::div_mod::lemma_div_is_ordered_by_denominator(m, 1, d);
    vstd::arithmetic::div_mod::lemma_div_pos_is_pos(m, d);
}

/// Sum and number of the vectors of `list` that lie within the neighbor
/// radius of the origin.
fn sum_and_count_within(list: &Vec<Vec3>) -> (r: (Vec3, usize))
    requires
        list.len() <= MAX_AGENTS,
    ensures
        r.0@ == sum_within(points(list@)),
        r.1 == count_within(points(list@)),
        r.1 <= list.len(),
        bounded(r.0@, r.1 * (NEIGHBOR_RADIUS - 1)),
{
    let ghost ps = points(list@);
    let mut acc = Vec3 { x: 0, y: 0, z: 0 };
    let mut count: usize = 0;
    let n = list.len();
    let mut i: usize = 0;
    while i < n
        invariant
            n == list.len() <= MAX_AGENTS,
            ps == points(list@),
            i <= n,
            count <= i,
            acc@ == sum_within(ps.take(i as int)),
            count == count_within(ps.take(i as int)),
            bounded(acc@, count * (NEIGHBOR_RADIUS - 1)),
        decreases n - i,
    {
        let v = list[i];
        assert(ps.take(i + 1).drop_last() == ps.take(i as int));
        assert(ps.take(i + 1).last() == v@);
        let d2 = norm_sq_wide(v.x as i128, v.y as i128, v.z as i128);
        if d2 < NEIGHBOR_RADIUS_SQ {
            proof {
                lemma_within_radius_bounded(v@);
                assert(count * (NEIGHBOR_RADIUS - 1) + (NEIGHBOR_RADIUS - 1) == (count + 1) * (NEIGHBOR_RADIUS - 1)) by (nonlinear_arith);
                assert((count + 1) * (NEIGHBOR_RADIUS - 1) <= SUM_LIMIT) by (nonlinear_arith)
                    requires count + 1 <= 0x10_0000;
            }
            acc = Vec3 { x: acc.x + v.x, y: acc.y + v.y, z: acc.z + v.z };
            count += 1;
        }
        i += 1;
    }
    assert(ps.take(n as int) == ps);
    (acc, count)
}

/// The separation force of a neighbor set: the negated sum of the offsets
/// that lie within the neighbor radius.
pub fn separation_calculator(list_of_boids_positions: &Vec<Vec3>) -> (r: Vec3)
    requires
        list_of_boids_positions.len() <= MAX_AGENTS,
    ensures
        r@ == separation(points(list_of_boids_positions@)),
        bounded(r@, SUM_LIMIT as int),
{
    let (s, _count) = sum_and_count_within(list_of_boids_positions);
    Vec3 { x: -s.x, y: -s.y, z: -s.z }
}

/// The cohesion force of a neighbor set: the mean of the offsets that lie
/// within the neighbor radius, or zero where there is none.
pub fn cohesion_calculator(list_of_boids_positions: &Vec<Vec3>) -> (r: Vec3)
    requires
        list_of_boids_positions.len() <= MAX_AGENTS,
    ensures
        r@ == cohesion(points(list_of_boids_positions@)),
        bounded(r@, SUM_LIMIT as int),
{
    let (s, count) = sum_and_count_within(list_of_boids_positions);
    if count == 0 {
        return Vec3 { x: 0, y: 0, z: 0 };
    }
    let c = count as u128;
    proof {
        lemma_trunc_div_shrinks(s.x as int, count as int);
        lemma_trunc_div_shrinks(s.y as int, count as int);
        lemma_trunc_div_shrinks(s.z as int, count as int);
    }
    let x = div_toward_zero(s.x as i128, c);
    let y = div_toward_zero(s.y as i128, c);
    let z = div_toward_zero(s.z as i128, c);
    Vec3 { x: x as i64, y: y as i64, z: z as i64 }
}

/// The alignment force: the sum of the unit directions of all nonzero
/// headings given (every agent's, not only the neighbors'). A zero heading
/// has no direction and adds nothing.
pub fn alignment_calculator(list_of_boids_headings: &Vec<Vec3>) -> (r: Vec3)
    requires
        list_of_boids_headings.len() <= MAX_AGENTS,
        all_bounded(list_of_boids_headings@, HEADING_LIMIT as int),
    ensures
        r@ == alignment(list_of_boids_headings@),
        bounded(r@, ALIGN_LIMIT as int),
{
    let ghost hs = list_of_boids_headings@;
    let mut acc = Vec3 { x: 0, y: 0, z: 0 };
    let n = list_of_boids_headings.len();
    let mut i: usize = 0;
    while i < n
        invariant
            n == hs.len() <= MAX_AGENTS,
            hs == list_of_boids_headings@,
            all_bounded(hs, HEADING_LIMIT as int),
            i <= n,
            acc@ == alignment(hs.take(i as int)),
            bounded(acc@, i * UNIT),
        decreases n - i,
    {
        let h = list_of_boids_headings[i];
        assert(hs.take(i + 1).drop_last() == hs.take(i as int));
        assert(hs.take(i + 1).last() == h);
        assert(bounded(hs[i as int]@, HEADING_LIMIT as int));
        let d2 = norm_sq_wide(h.x as i128, h.y as i128, h.z as i128);
        if d2 > 0 {
            let u = normalize(&h);
            assert(i * UNIT + UNIT == (i + 1) * UNIT) by (nonlinear_arith);
            assert((i + 1) * UNIT <= ALIGN_LIMIT) by (nonlinear_arith)
                requires i + 1 <= 0x10_0000;
            acc = Vec3 { x: acc.x + u.x, y: acc.y + u.y, z: acc.z + u.z };
        }
        i += 1;
    }
    assert(hs.take(n as int) == hs);
    acc
}

} // verus!
