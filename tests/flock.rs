use boids::{
    AlignmentScope, boid_heading_calculator, boid_movement, flock_at, spawn_boid, spawn_candidate, spawn_flock, tick, Boid, Vec3,
    COORD_LIMIT, MAP_RADIUS, SPAWN_RADIUS, UNIT,
};

fn v(x: i64, y: i64, z: i64) -> Vec3 {
    Vec3 { x, y, z }
}

fn boid(p: Vec3, h: Vec3) -> Boid {
    Boid { position: p, heading: h, speed: 100 }
}

#[test]
fn heading_is_sum_of_the_three_forces() {
    let mut agents = vec![boid(v(0, 0, 0), v(UNIT, 0, 0)), boid(v(UNIT, 0, 0), v(UNIT, 0, 0))];
    boid_heading_calculator(&mut agents, AlignmentScope::Global);
    // separation (-1000, 0, 0) + alignment (2000, 0, 0) + cohesion (1000, 0, 0)
    assert_eq!(agents[0].heading, v(2000, 0, 0));
    // separation (1000, 0, 0) + alignment (2000, 0, 0) + cohesion (-1000, 0, 0)
    assert_eq!(agents[1].heading, v(2000, 0, 0));
    assert_eq!(agents[0].position, v(0, 0, 0));
    assert_eq!(agents[1].position, v(UNIT, 0, 0));
}

#[test]
fn alignment_counts_agents_out_of_reach() {
    let far = 10 * 100_000;
    let mut agents = vec![
        boid(v(0, 0, 0), v(0, 0, 0)),
        boid(v(0, 2000, 0), v(0, 0, 0)),
        boid(v(far - 1, 0, 0), v(0, 5, 0)),
    ];
    boid_heading_calculator(&mut agents, AlignmentScope::Global);
    // offsets (0, 2000, 0): separation (0, -2000, 0), cohesion (0, 2000, 0);
    // alignment takes the far agent's heading (0, 1000, 0) too.
    assert_eq!(agents[0].heading, v(0, 1000, 0));
    assert_eq!(agents[1].heading, v(0, 1000, 0));
    // the far agent has no neighbor and keeps its heading
    assert_eq!(agents[2].heading, v(0, 5, 0));
}

#[test]
fn boundary_overrides_flocking() {
    let out = MAP_RADIUS + 1;
    let mut agents = vec![
        boid(v(out, 0, 0), v(0, 9, 0)),
        boid(v(out + 10, 0, 0), v(0, 9, 0)),
        boid(v(0, -3 * MAP_RADIUS, 0), v(0, 0, 0)),
    ];
    boid_heading_calculator(&mut agents, AlignmentScope::Global);
    assert_eq!(agents[0].heading, v(-UNIT, 0, 0));
    assert_eq!(agents[1].heading, v(-UNIT, 0, 0));
    assert_eq!(agents[2].heading, v(0, UNIT, 0));
}

#[test]
fn boundary_is_exclusive_at_map_radius() {
    let mut agents = vec![boid(v(MAP_RADIUS, 0, 0), v(0, 9, 0))];
    boid_heading_calculator(&mut agents, AlignmentScope::Global);
    assert_eq!(agents[0].heading, v(0, 9, 0));
}

#[test]
fn update_does_not_depend_on_agent_order() {
    let a = boid(v(0, 0, 0), v(UNIT, 0, 0));
    let b = boid(v(3000, 4000, 0), v(0, UNIT, 0));
    let c = boid(v(-2000, 500, 0), v(7, 7, 0));
    let mut forward = vec![a, b, c];
    let mut backward = vec![c, b, a];
    boid_heading_calculator(&mut forward, AlignmentScope::Global);
    boid_heading_calculator(&mut backward, AlignmentScope::Global);
    assert_eq!(forward[0], backward[2]);
    assert_eq!(forward[1], backward[1]);
    assert_eq!(forward[2], backward[0]);
}

#[test]
fn movement_follows_heading_at_speed() {
    let mut agents = vec![boid(v(0, 0, 0), v(5, 0, 0)), boid(v(10, 20, 30), v(0, -3000, 4000))];
    boid_movement(&mut agents, 1_000_000);
    // one second at 100 world units per second along +x
    assert_eq!(agents[0].position, v(100 * UNIT, 0, 0));
    // direction (0, -600, 800): only x and y move
    assert_eq!(agents[1].position, v(10, 20 - 60_000, 30));
    assert_eq!(agents[0].heading, v(5, 0, 0));
}

#[test]
fn movement_rounds_partial_steps_toward_zero() {
    let mut agents = vec![boid(v(0, 0, 0), v(-1, 0, 0))];
    boid_movement(&mut agents, 16_667);
    // 1000 * 100 * 16667 / 1000000 = 1666.7
    assert_eq!(agents[0].position, v(-1666, 0, 0));
}

#[test]
fn zero_elapsed_time_moves_nothing() {
    let start = vec![boid(v(1, 2, 3), v(UNIT, UNIT, 0)), boid(v(-5, 0, 0), v(0, 0, 0))];
    let mut agents = start.clone();
    boid_movement(&mut agents, 0);
    assert_eq!(agents, start);
}

#[test]
fn zero_heading_stays_in_place() {
    let mut agents = vec![boid(v(7, 8, 9), v(0, 0, 0))];
    boid_movement(&mut agents, 5_000_000);
    assert_eq!(agents[0].position, v(7, 8, 9));
}

#[test]
fn positions_are_held_within_the_coordinate_limit() {
    let mut agents = vec![Boid { position: v(COORD_LIMIT - 10, 0, 0), heading: v(1, 0, 0), speed: 1000 }];
    boid_movement(&mut agents, 1_000_000);
    assert_eq!(agents[0].position, v(COORD_LIMIT, 0, 0));
}

#[test]
fn spawn_boid_is_at_rest() {
    let b = spawn_boid(v(1, 2, 0), 42);
    assert_eq!(b, Boid { position: v(1, 2, 0), heading: v(0, 0, 0), speed: 42 });
}

#[test]
fn spawned_flock_lies_in_the_disk() {
    let mut rng = rand::thread_rng();
    let agents = spawn_flock(&mut rng, 300, SPAWN_RADIUS, 100);
    assert_eq!(agents.len(), 300);
    let r = SPAWN_RADIUS as i128;
    for a in agents.iter() {
        let (x, y) = (a.position.x as i128, a.position.y as i128);
        assert!(x * x + y * y < r * r);
        assert_eq!(a.position.z, 0);
        assert_eq!(a.heading, v(0, 0, 0));
        assert_eq!(a.speed, 100);
    }
    // draws are random: not every agent sits at the centre
    assert!(agents.iter().any(|a| a.position != v(0, 0, 0)));
}

#[test]
fn population_is_constant_over_ticks() {
    let mut rng = rand::thread_rng();
    let mut agents = spawn_flock(&mut rng, 50, SPAWN_RADIUS, 100);
    for a in agents.iter_mut() {
        a.heading = v(1, 1, 0);
    }
    for _ in 0..20 {
        tick(&mut agents, 16_667, AlignmentScope::Global);
        assert_eq!(agents.len(), 50);
    }
}

#[test]
fn alignment_scope_selects_whose_headings_count() {
    let start = vec![
        boid(v(0, 0, 0), v(UNIT, 0, 0)),
        boid(v(0, 2000, 0), v(0, 3, 0)),
        boid(v(999_999, 0, 0), v(0, 5, 0)),
    ];
    let mut global = start.clone();
    boid_heading_calculator(&mut global, AlignmentScope::Global);
    assert_eq!(global[0].heading, v(1000, 2000, 0));
    assert_eq!(global[1].heading, v(1000, 2000, 0));
    assert_eq!(global[2].heading, v(0, 5, 0));

    let mut local = start.clone();
    boid_heading_calculator(&mut local, AlignmentScope::Neighbors);
    assert_eq!(local[0].heading, v(0, 1000, 0));
    assert_eq!(local[1].heading, v(1000, 0, 0));
    assert_eq!(local[2].heading, v(0, 5, 0));
}

#[test]
fn movement_distance_is_speed_times_time_for_diagonal_heading() {
    let mut agents = vec![boid(v(0, 0, 0), v(1, 1, 0))];
    boid_movement(&mut agents, 1_000_000);
    // direction (707, 707): about 100 world units travelled
    assert_eq!(agents[0].position, v(70_700, 70_700, 0));
}

#[test]
fn spawn_candidate_accepts_points_strictly_inside() {
    assert_eq!(spawn_candidate(3, 4, 6), Some(v(3, 4, 0)));
    assert_eq!(spawn_candidate(3, 4, 5), None);
    assert_eq!(spawn_candidate(-1, 0, 5), Some(v(-1, 0, 0)));
    assert_eq!(spawn_candidate(i64::MIN, i64::MIN, i64::MAX), None);
}

#[test]
fn flock_at_places_agents_in_order() {
    let r = flock_at(&vec![v(1, 2, 0), v(-3, 4, 0)], 7);
    assert_eq!(
        r,
        vec![
            Boid { position: v(1, 2, 0), heading: v(0, 0, 0), speed: 7 },
            Boid { position: v(-3, 4, 0), heading: v(0, 0, 0), speed: 7 },
        ]
    );
}
