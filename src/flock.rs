use vstd::prelude::*;
use crate::vector::{
    Vec3, Point, zero, vsub, UNIT, HEADING_LIMIT, COORD_LIMIT, vadd, vneg, norm_sq, bounded, trunc_div,
    unit_of, normalize, norm_sq_wide, div_toward_zero,
};
use crate::steering::{
    MAX_AGENTS, neighbors, neighbor_headings, sum_within, count_within, is_neighbor_offset,
    within_radius, separation, cohesion, alignment, all_bounded,
    find_nearby_boids, find_neighbor_headings, separation_calculator, alignment_calculator,
    cohesion_calculator, lemma_neighbors_are_offsets, lemma_neighbor_headings_from,
};

verus! {

/// Distance from the origin beyond which an agent turns back home.
pub const MAP_RADIUS: i64 = 1_000_000;

/// The square of `MAP_RADIUS`.
pub const MAP_RADIUS_SQ: u128 = 1_000_000_000_000;

/// Microseconds in one second.
pub const MICROS_PER_SECOND: u64 = 1_000_000;

/// One agent of the flock.
#[derive(Clone, Copy, Debug, PartialEq, Eq, Structural)]
pub struct Boid {
    /// Where the agent is, in fixed point.
    pub position: Vec3,
    /// Steering state; its direction is the direction of travel. Not normalized.
    pub heading: Vec3,
    /// World units travelled per second.
    pub speed: u32,
}

/// Whose headings the alignment force follows.
///
/// `Global` takes every agent's heading, as the separation and cohesion
/// forces do not: those look at neighbors only. `Neighbors` takes the
/// neighbors' headings alone, as in the classic model.
#[derive(Clone, Copy, Debug, PartialEq, Eq, Structural)]
pub enum AlignmentScope {
    Global,
    Neighbors,
}

/// An agent whose coordinates lie within the limits of the arithmetic.
pub open spec fn boid_ok(b: Boid) -> bool {
    bounded(b.position@, COORD_LIMIT as int) && bounded(b.heading@, HEADING_LIMIT as int)
}

/// A population the simulation can advance.
pub open spec fn flock_ok(s: Seq<Boid>) -> bool {
    s.len() <= MAX_AGENTS && forall|k: int| 0 <= k < s.len() ==> boid_ok(#[trigger] s[k])
}

pub open spec fn positions_of(s: Seq<Boid>) -> Seq<Vec3> {
    s.map_values(|b: Boid| b.position)
}

pub open spec fn headings_of(s: Seq<Boid>) -> Seq<Vec3> {
    s.map_values(|b: Boid| b.heading)
}

/// `p` lies farther than `MAP_RADIUS` from the origin.
pub open spec fn beyond_map(p: Point) -> bool {
    norm_sq(p) > MAP_RADIUS_SQ
}

/// The alignment force on an agent at `p`, over the headings `scope` names.
pub open spec fn alignment_in(ps: Seq<Vec3>, hs: Seq<Vec3>, p: Point, scope: AlignmentScope) -> Point {
    match scope {
        AlignmentScope::Global => alignment(hs),
        AlignmentScope::Neighbors => alignment(neighbor_headings(ps, hs, p)),
    }
}

/// The heading that an agent at `p` with heading `h` takes, seen against the
/// frozen positions `ps` and headings `hs` of the whole flock. Beyond the map
/// it points home; else, with neighbors, it is the sum of the three forces;
/// else it is kept.
pub open spec fn flock_heading(
    ps: Seq<Vec3>,
    hs: Seq<Vec3>,
    p: Point,
    h: Point,
    scope: AlignmentScope,
) -> Point {
    let ns = neighbors(ps, p);
    if beyond_map(p) {
        vneg(unit_of(p))
    } else if ns.len() > 0 {
        vadd(vadd(separation(ns), alignment_in(ps, hs, p, scope)), cohesion(ns))
    } else {
        h
    }
}

/// The new heading of agent `k` of the snapshot `s`.
pub open spec fn new_heading(s: Seq<Boid>, k: int, scope: AlignmentScope) -> Point {
    flock_heading(positions_of(s), headings_of(s), s[k].position@, s[k].heading@, scope)
}

pub open spec fn vec3_of(p: Point) -> Vec3 {
    Vec3 { x: p.0 as i64, y: p.1 as i64, z: p.2 as i64 }
}

/// Agent `k` of the snapshot `s` with its new heading.
pub open spec fn steer_one(s: Seq<Boid>, k: int, scope: AlignmentScope) -> Boid {
    Boid { heading: vec3_of(new_heading(s, k, scope)), ..s[k] }
}

/// The whole flock after the heading update.
pub open spec fn steer_all(s: Seq<Boid>, scope: AlignmentScope) -> Seq<Boid> {
    Seq::new(s.len(), |k: int| steer_one(s, k, scope))
}

pub open spec fn clamp_coord(v: int) -> int {
    if v > COORD_LIMIT {
        COORD_LIMIT as int
    } else if v < -COORD_LIMIT {
        -COORD_LIMIT
    } else {
        v
    }
}

/// Displacement along one coordinate of the unit direction `u`.
pub open spec fn step(u: int, speed: int, elapsed_us: int) -> int {
    trunc_div(u * speed * elapsed_us, MICROS_PER_SECOND as int)
}

/// The agent moved for `elapsed_us` microseconds at its speed along its
/// heading, in the plane; a zero heading leaves it in place. Positions stay
/// within `COORD_LIMIT`.
pub open spec fn move_one(b: Boid, elapsed_us: int) -> Boid {
    if norm_sq(b.heading@) == 0 {
        b
    } else {
        let u = unit_of(b.heading@);
        let p = b.position@;
        Boid {
            position: vec3_of(
                (
                    clamp_coord(p.0 + step(u.0, b.speed as int, elapsed_us)),
                    clamp_coord(p.1 + step(u.1, b.speed as int, elapsed_us)),
                    p.2,
                ),
            ),
            ..b
        }
    }
}

pub open spec fn move_all(s: Seq<Boid>, elapsed_us: int) -> Seq<Boid> {
    Seq::new(s.len(), |k: int| move_one(s[k], elapsed_us))
}

/// One tick: headings from the frozen state, then motion.
pub open spec fn tick_of(s: Seq<Boid>, elapsed_us: int, scope: AlignmentScope) -> Seq<Boid> {
    move_all(steer_all(s, scope), elapsed_us)
}

proof fn lemma_snapshot_views(s: Seq<Boid>)
    ensures
        positions_of(s).len() == s.len(),
        headings_of(s).len() == s.len(),
        forall|k: int| 0 <= k < s.len() ==> #[trigger] positions_of(s)[k] == s[k].position,
        forall|k: int| 0 <= k < s.len() ==> #[trigger] headings_of(s)[k] == s[k].heading,
{
}

/// The heading update of one tick. Every agent's new heading is computed
/// from the positions and headings that all agents had before the call, so
/// no agent sees another's update.
pub fn boid_heading_calculator(agents: &mut Vec<Boid>, scope: AlignmentScope)
    requires
        flock_ok(old(agents)@),
    ensures
        final(agents)@ == steer_all(old(agents)@, scope),
        flock_ok(final(agents)@),
        forall|k: int|
            0 <= k < old(agents).len() ==> #[trigger] final(agents)@[k].heading@ == new_heading(
                old(agents)@,
                k,
                scope,
            ),
        forall|k: int|
            0 <= k < old(agents).len() && beyond_map(#[trigger] old(agents)@[k].position@)
                ==> final(agents)@[k].heading@ == vneg(unit_of(old(agents)@[k].position@)),
{
    let ghost s = agents@;
    let n = agents.len();
    let mut positions: Vec<Vec3> = Vec::new();
    let mut headings: Vec<Vec3> = Vec::new();
    let mut i: usize = 0;
    while i < n
        invariant
            n == agents.len() == s.len(),
            agents@ == s,
            i <= n,
            positions@ == positions_of(s).take(i as int),
            headings@ == headings_of(s).take(i as int),
        decreases n - i,
    {
        positions.push(agents[i].position);
        headings.push(agents[i].heading);
        assert(positions@ =~= positions_of(s).take(i + 1));
        assert(headings@ =~= headings_of(s).take(i + 1));
        i += 1;
    }
    assert(positions@ =~= positions_of(s));
    assert(headings@ =~= headings_of(s));
    proof {
        lemma_snapshot_views(s);
    }
    let mut i: usize = 0;
    while i < n
        invariant
            n == agents.len() == s.len(),
            flock_ok(s),
            positions@ == positions_of(s),
            headings@ == headings_of(s),
            i <= n,
            forall|k: int| 0 <= k < i ==> #[trigger] agents@[k] == steer_one(s, k, scope),
            forall|k: int| 0 <= k < i ==> (#[trigger] agents@[k]).heading@ == new_heading(s, k, scope),
            forall|k: int| i <= k < n ==> #[trigger] agents@[k] == s[k],
            forall|k: int| 0 <= k < n ==> boid_ok(#[trigger] agents@[k]),
        decreases n - i,
    {
        let b = agents[i];
        assert(boid_ok(s[i as int]));
        assert(all_bounded(positions@, COORD_LIMIT as int));
        assert(all_bounded(headings@, HEADING_LIMIT as int));
        let p = b.position;
        let d2 = norm_sq_wide(p.x as i128, p.y as i128, p.z as i128);
        let mut h = b.heading;
        let ns = find_nearby_boids(positions.clone(), p);
        proof {
            lemma_neighbors_are_offsets(positions@, p@);
        }
        if ns.len() > 0 {
            let sep = separation_calculator(&ns);
            let ali = match scope {
                AlignmentScope::Global => alignment_calculator(&headings),
                AlignmentScope::Neighbors => {
                    let near = find_neighbor_headings(&positions, &headings, p);
                    proof {
                        lemma_neighbor_headings_from(positions@, headings@, p@, HEADING_LIMIT as int);
                    }
                    alignment_calculator(&near)
                },
            };
            let coh = cohesion_calculator(&ns);
            h = Vec3 {
                x: sep.x + ali.x + coh.x,
                y: sep.y + ali.y + coh.y,
                z: sep.z + ali.z + coh.z,
            };
        }
        if d2 > MAP_RADIUS_SQ {
            let u = normalize(&p);
            h = Vec3 { x: -u.x, y: -u.y, z: -u.z };
        }
        assert(h@ == new_heading(s, i as int, scope));
        let nb = Boid { heading: h, ..b };
        assert(nb == steer_one(s, i as int, scope));
        agents[i] = nb;
        i += 1;
    }
    assert(agents@ =~= steer_all(s, scope));
}

/// One coordinate moved by `delta` and held within `COORD_LIMIT`.
fn moved_coord(c: i64, delta: i128) -> (r: i64)
    requires
        -0x1_0000_0000_0000_0000_0000_0000_0000 < delta < 0x1_0000_0000_0000_0000_0000_0000_0000,
    ensures
        r as int == clamp_coord(c + delta),
{
    let v: i128 = c as i128 + delta;
    if v > 0x100_0000_0000 {
        0x100_0000_0000
    } else if v < -0x100_0000_0000 {
        -0x100_0000_0000
    } else {
        v as i64
    }
}

/// Displacement along one coordinate of a unit direction (see `step`).
fn step_exec(u: i64, speed: u32, elapsed_us: u64) -> (r: i128)
    requires
        -UNIT <= u <= UNIT,
    ensures
        r == step(u as int, speed as int, elapsed_us as int),
        -0x1_0000_0000_0000_0000_0000_0000_0000 < r < 0x1_0000_0000_0000_0000_0000_0000_0000,
        elapsed_us == 0 ==> r == 0,
{
    let a = u as i128;
    let b = speed as i128;
    let c = elapsed_us as i128;
    assert(-1000 * 0x1_0000_0000 * 0x1_0000_0000_0000_0000 <= a * b * c <= 1000 * 0x1_0000_0000 * 0x1_0000_0000_0000_0000) by (nonlinear_arith)
        requires
            -1000 <= a <= 1000,
            0 <= b <= 0x1_0000_0000,
            0 <= c <= 0x1_0000_0000_0000_0000,
    ;
    assert(-1000 * 0x1_0000_0000 <= a * b <= 1000 * 0x1_0000_0000) by (nonlinear_arith)
        requires
            -1000 <= a <= 1000,
            0 <= b <= 0x1_0000_0000,
    ;
    assert(c == 0 ==> a * b * c == 0) by (nonlinear_arith);
    let prod: i128 = a * b * c;
    proof {
        let m = if prod >= 0 { prod as int } else { -prod };
        vstd::arithmetic::div_mod::lemma_div_is_ordered_by_denominator(m, 1, 1_000_000);
        vstd::arithmetic::div_mod::lemma_div_pos_is_pos(m, 1_000_000);
    }
    div_toward_zero(prod, 1_000_000)
}

/// Motion of one tick: each agent advances along its heading, scaled to its
/// speed, for `elapsed_us` microseconds. Only `x` and `y` change; an agent
/// whose heading is zero stays where it is.
pub fn boid_movement(agents: &mut Vec<Boid>, elapsed_us: u64)
    requires
        flock_ok(old(agents)@),
    ensures
        final(agents)@ == move_all(old(agents)@, elapsed_us as int),
        flock_ok(final(agents)@),
        elapsed_us == 0 ==> final(agents)@ == old(agents)@,
{
    let ghost s = agents@;
    let n = agents.len();
    let mut i: usize = 0;
    while i < n
        invariant
            n == agents.len() == s.len(),
            flock_ok(s),
            i <= n,
            forall|k: int| 0 <= k < i ==> #[trigger] agents@[k] == move_one(s[k], elapsed_us as int),
            forall|k: int| i <= k < n ==> #[trigger] agents@[k] == s[k],
            forall|k: int| 0 <= k < n ==> boid_ok(#[trigger] agents@[k]),
            elapsed_us == 0 ==> agents@ == s,
        decreases n - i,
    {
        let b = agents[i];
        assert(boid_ok(s[i as int]));
        let h = b.heading;
        let d2 = norm_sq_wide(h.x as i128, h.y as i128, h.z as i128);
        if d2 > 0 {
            let u = normalize(&h);
            let dx = step_exec(u.x, b.speed, elapsed_us);
            let dy = step_exec(u.y, b.speed, elapsed_us);
            let x = moved_coord(b.position.x, dx);
            let y = moved_coord(b.position.y, dy);
            let nb = Boid { position: Vec3 { x, y, z: b.position.z }, ..b };
            assert(nb == move_one(s[i as int], elapsed_us as int));
            if elapsed_us == 0 {
                assert(nb == b);
            }
            agents[i] = nb;
        }
        i += 1;
    }
    assert(agents@ =~= move_all(s, elapsed_us as int));
}

/// One tick of the simulation: the heading update, then motion.
pub fn tick(agents: &mut Vec<Boid>, elapsed_us: u64, scope: AlignmentScope)
    requires
        flock_ok(old(agents)@),
    ensures
        final(agents)@ == tick_of(old(agents)@, elapsed_us as int, scope),
        flock_ok(final(agents)@),
{
    boid_heading_calculator(agents, scope);
    boid_movement(agents, elapsed_us);
}

/// Agents updated one at a time, in the order of the indices in `order`,
/// each from the frozen snapshot `s`.
pub open spec fn process_in_order(s: Seq<Boid>, order: Seq<int>, scope: AlignmentScope) -> Seq<Boid>
    decreases order.len(),
{
    if order.len() == 0 {
        s
    } else {
        let cur = process_in_order(s, order.drop_last(), scope);
        let k = order.last();
        if 0 <= k < s.len() {
            cur.update(k, steer_one(s, k, scope))
        } else {
            cur
        }
    }
}

proof fn lemma_process_prefix(s: Seq<Boid>, order: Seq<int>, scope: AlignmentScope)
    requires
        forall|j: int| 0 <= j < order.len() ==> 0 <= #[trigger] order[j] < s.len(),
    ensures
        process_in_order(s, order, scope) == Seq::new(
            s.len(),
            |k: int|
                if order.contains(k) {
                    steer_one(s, k, scope)
                } else {
                    s[k]
                },
        ),
    decreases order.len(),
{
    let target = Seq::new(
        s.len(),
        |k: int|
            if order.contains(k) {
                steer_one(s, k, scope)
            } else {
                s[k]
            },
    );
    if order.len() == 0 {
        assert(process_in_order(s, order, scope) =~= target);
    } else {
        let rest = order.drop_last();
        assert forall|j: int| 0 <= j < rest.len() implies 0 <= #[trigger] rest[j] < s.len() by {
            assert(rest[j] == order[j]);
        }
        lemma_process_prefix(s, rest, scope);
        let last = order.last();
        assert(order[order.len() - 1] == last);
        assert forall|k: int| 0 <= k < s.len() implies #[trigger] process_in_order(s, order, scope)[k]
            == target[k] by {
            if k == last {
                assert(order.contains(k));
            } else {
                if order.contains(k) {
                    let j = choose|j: int| 0 <= j < order.len() && order[j] == k;
                    assert(rest[j] == k);
                    assert(rest.contains(k));
                } else {
                    assert forall|j: int| 0 <= j < rest.len() implies rest[j] != k by {
                        assert(rest[j] == order[j]);
                    }
                }
            }
        }
        assert(process_in_order(s, order, scope) =~= target);
    }
}

/// Updating the agents one by one from the frozen snapshot, in any order
/// that visits every agent, gives the same flock as the heading update.
pub proof fn lemma_order_independent(s: Seq<Boid>, order: Seq<int>, scope: AlignmentScope)
    requires
        forall|j: int| 0 <= j < order.len() ==> 0 <= #[trigger] order[j] < s.len(),
        forall|k: int| 0 <= k < s.len() ==> order.contains(k),
    ensures
        process_in_order(s, order, scope) == steer_all(s, scope),
{
    lemma_process_prefix(s, order, scope);
    assert(process_in_order(s, order, scope) =~= steer_all(s, scope));
}

/// The flock after one tick per entry of `elapsed`, in turn.
pub open spec fn run_ticks(s: Seq<Boid>, elapsed: Seq<u64>, scope: AlignmentScope) -> Seq<Boid>
    decreases elapsed.len(),
{
    if elapsed.len() == 0 {
        s
    } else {
        tick_of(run_ticks(s, elapsed.drop_last(), scope), elapsed.last() as int, scope)
    }
}

/// No tick adds or removes an agent: after any number of ticks the
/// population is the one that started.
pub proof fn lemma_population_constant(s: Seq<Boid>, elapsed: Seq<u64>, scope: AlignmentScope)
    ensures
        run_ticks(s, elapsed, scope).len() == s.len(),
    decreases elapsed.len(),
{
    if elapsed.len() > 0 {
        lemma_population_constant(s, elapsed.drop_last(), scope);
    }
}

/// What agent `b` adds, seen from `q`, to one of the per-tick sums:
/// `kind` 0 its neighbor offset, 1 a neighbor count of one (in `.0`),
/// 2 its unit heading, 3 its unit heading where it is a neighbor.
pub open spec fn contribution(b: Boid, q: Point, kind: int) -> Point {
    let d = vsub(b.position@, q);
    let u = if norm_sq(b.heading@) > 0 { unit_of(b.heading@) } else { zero() };
    if kind == 2 {
        u
    } else if !is_neighbor_offset(d) {
        zero()
    } else if kind == 0 {
        d
    } else if kind == 1 {
        (1, 0, 0)
    } else {
        u
    }
}

/// Sum of the contributions of all agents of `s`.
pub open spec fn total(s: Seq<Boid>, q: Point, kind: int) -> Point
    decreases s.len(),
{
    if s.len() == 0 {
        zero()
    } else {
        vadd(total(s.drop_last(), q, kind), contribution(s.last(), q, kind))
    }
}

proof fn lemma_snapshot_drop_last(s: Seq<Boid>)
    requires
        s.len() > 0,
    ensures
        positions_of(s).drop_last() == positions_of(s.drop_last()),
        headings_of(s).drop_last() == headings_of(s.drop_last()),
        positions_of(s).last() == s.last().position,
        headings_of(s).last() == s.last().heading,
{
    assert(positions_of(s).drop_last() =~= positions_of(s.drop_last()));
    assert(headings_of(s).drop_last() =~= headings_of(s.drop_last()));
}

/// The per-tick sums of the heading update, as sums over agents.
proof fn lemma_sums_as_totals(s: Seq<Boid>, q: Point)
    ensures
        sum_within(neighbors(positions_of(s), q)) == total(s, q, 0),
        count_within(neighbors(positions_of(s), q)) == total(s, q, 1).0,
        neighbors(positions_of(s), q).len() == total(s, q, 1).0,
        alignment(headings_of(s)) == total(s, q, 2),
        alignment(neighbor_headings(positions_of(s), headings_of(s), q)) == total(s, q, 3),
    decreases s.len(),
{
    if s.len() > 0 {
        lemma_snapshot_drop_last(s);
        lemma_sums_as_totals(s.drop_last(), q);
        let ps = positions_of(s);
        let hs = headings_of(s);
        let rest = neighbors(ps.drop_last(), q);
        let d = vsub(ps.last()@, q);
        if is_neighbor_offset(d) {
            let ns = rest.push(d);
            assert(ns.drop_last() == rest);
            assert(within_radius(d));
            let nh = neighbor_headings(ps.drop_last(), hs.drop_last(), q).push(hs.last());
            assert(nh.drop_last() == neighbor_headings(ps.drop_last(), hs.drop_last(), q));
        }
    }
}

proof fn lemma_total_remove(t: Seq<Boid>, j: int, q: Point, kind: int)
    requires
        0 <= j < t.len(),
    ensures
        total(t, q, kind) == vadd(total(t.remove(j), q, kind), contribution(t[j], q, kind)),
    decreases t.len(),
{
    if j == t.len() - 1 {
        assert(t.remove(j) =~= t.drop_last());
    } else {
        lemma_total_remove(t.drop_last(), j, q, kind);
        assert(t.remove(j).drop_last() =~= t.drop_last().remove(j));
        assert(t.remove(j).last() == t.last());
    }
}

/// `perm` is a permutation of the indices `0..n`.
pub open spec fn is_permutation(perm: Seq<int>, n: int) -> bool {
    &&& perm.len() == n
    &&& forall|k: int| 0 <= k < n ==> 0 <= #[trigger] perm[k] < n
    &&& forall|i: int, j: int| 0 <= i < n && 0 <= j < n && i != j ==> perm[i] != perm[j]
    &&& forall|v: int| 0 <= v < n ==> #[trigger] perm.contains(v)
}

/// `t` is `s` with its agents reordered by `perm`: agent `k` of `t` is agent
/// `perm[k]` of `s`.
pub open spec fn is_reordering(s: Seq<Boid>, t: Seq<Boid>, perm: Seq<int>) -> bool {
    &&& is_permutation(perm, s.len() as int)
    &&& t.len() == s.len()
    &&& forall|k: int| 0 <= k < t.len() ==> #[trigger] t[k] == s[perm[k]]
}

proof fn lemma_total_reordered(s: Seq<Boid>, t: Seq<Boid>, perm: Seq<int>, q: Point, kind: int)
    requires
        is_reordering(s, t, perm),
    ensures
        total(t, q, kind) == total(s, q, kind),
    decreases s.len(),
{
    let n = s.len() as int;
    if n > 0 {
        assert(perm.contains(n - 1));
        let j = choose|k: int| 0 <= k < n && #[trigger] perm[k] == n - 1;
        let t2 = t.remove(j);
        let p2 = perm.remove(j);
        let s2 = s.drop_last();
        assert forall|k: int| 0 <= k < n - 1 implies 0 <= #[trigger] p2[k] < n - 1 by {
            let i = if k < j { k } else { k + 1 };
            assert(p2[k] == perm[i]);
            assert(perm[i] != perm[j]);
        }
        assert forall|a: int, b: int| 0 <= a < n - 1 && 0 <= b < n - 1 && a != b implies p2[a] != p2[b] by {
            let ia = if a < j { a } else { a + 1 };
            let ib = if b < j { b } else { b + 1 };
            assert(p2[a] == perm[ia] && p2[b] == perm[ib]);
        }
        assert forall|v: int| 0 <= v < n - 1 implies #[trigger] p2.contains(v) by {
            assert(perm.contains(v));
            let i = choose|i: int| 0 <= i < n && #[trigger] perm[i] == v;
            assert(i != j);
            let k = if i < j { i } else { i - 1 };
            assert(p2[k] == v);
        }
        assert forall|k: int| 0 <= k < t2.len() implies #[trigger] t2[k] == s2[p2[k]] by {
            let i = if k < j { k } else { k + 1 };
            assert(t2[k] == t[i] && p2[k] == perm[i]);
        }
        lemma_total_reordered(s2, t2, p2, q, kind);
        lemma_total_remove(t, j, q, kind);
        assert(t[j] == s[n - 1]);
    }
}

/// Reordering the agents reorders the heading update's result the same
/// way: each agent gets the same new heading wherever it stands in the list.
pub proof fn lemma_reordering_commutes(s: Seq<Boid>, t: Seq<Boid>, perm: Seq<int>, scope: AlignmentScope)
    requires
        is_reordering(s, t, perm),
    ensures
        steer_all(t, scope).len() == steer_all(s, scope).len(),
        forall|k: int| 0 <= k < t.len() ==> #[trigger] steer_all(t, scope)[k] == steer_all(s, scope)[perm[k]],
{
    assert forall|k: int| 0 <= k < t.len() implies #[trigger] steer_all(t, scope)[k] == steer_all(s, scope)[perm[k]] by {
        let i = perm[k];
        let q = s[i].position@;
        assert(t[k] == s[i]);
        lemma_sums_as_totals(s, q);
        lemma_sums_as_totals(t, q);
        lemma_total_reordered(s, t, perm, q, 0);
        lemma_total_reordered(s, t, perm, q, 1);
        lemma_total_reordered(s, t, perm, q, 2);
        lemma_total_reordered(s, t, perm, q, 3);
        assert(new_heading(t, k, scope) == new_heading(s, i, scope));
    }
}

} // verus!
