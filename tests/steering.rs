use boids::{
    alignment_calculator, cohesion_calculator, find_nearby_boids, find_neighbor_headings, floor_sqrt_u128, normalize,
    separation_calculator, Vec3, NEIGHBOR_RADIUS, UNIT,
};

fn v(x: i64, y: i64, z: i64) -> Vec3 {
    Vec3 { x, y, z }
}

#[test]
fn it_works() {
    assert_eq!(4, 4);
}

#[test]
fn test_find_nearby_boids() {
    let boid_list = vec![v(0, 0, 0), v(UNIT, UNIT, 0)];
    let position = v(0, 0, 0);
    let result = find_nearby_boids(boid_list, position);
    assert_eq!(result, vec![v(UNIT, UNIT, 0)]);
}

#[test]
fn test_separation_calculator() {
    let list_of_boids_positions = vec![v(0, UNIT, 0), v(UNIT, 0, 0)];
    let result = separation_calculator(&list_of_boids_positions);
    assert_eq!(result, v(-UNIT, -UNIT, 0));
}

#[test]
fn test_cohesion_calculator() {
    // The mean of the two offsets: one half in x and in y.
    let list_of_boids_positions = vec![v(0, UNIT, 0), v(UNIT, 0, 0)];
    let result = cohesion_calculator(&list_of_boids_positions);
    assert_eq!(result, v(UNIT / 2, UNIT / 2, 0));
}

#[test]
fn nearby_excludes_duplicates_of_the_query_position() {
    let boid_list = vec![v(5, 5, 0), v(5, 5, 0), v(5, 6, 0)];
    let result = find_nearby_boids(boid_list, v(5, 5, 0));
    assert_eq!(result, vec![v(0, 1, 0)]);
}

#[test]
fn nearby_radius_is_strict() {
    let r = NEIGHBOR_RADIUS;
    let boid_list = vec![v(r, 0, 0), v(0, r - 1, 0), v(0, 0, -r), v(-r + 1, 0, 0)];
    let result = find_nearby_boids(boid_list, v(0, 0, 0));
    assert_eq!(result, vec![v(0, r - 1, 0), v(-r + 1, 0, 0)]);
}

#[test]
fn nearby_offsets_are_relative_to_the_query() {
    let boid_list = vec![v(1000, 2000, 0), v(900, 2500, 7)];
    let result = find_nearby_boids(boid_list, v(1000, 2000, 0));
    assert_eq!(result, vec![v(-100, 500, 7)]);
}

#[test]
fn nearby_of_empty_list_is_empty() {
    assert_eq!(find_nearby_boids(vec![], v(1, 2, 3)), vec![]);
}

#[test]
fn separation_and_cohesion_of_nothing_are_zero() {
    assert_eq!(separation_calculator(&vec![]), v(0, 0, 0));
    assert_eq!(cohesion_calculator(&vec![]), v(0, 0, 0));
}

#[test]
fn separation_and_cohesion_skip_offsets_beyond_the_radius() {
    let list = vec![v(2 * NEIGHBOR_RADIUS, 0, 0), v(0, 3000, 0), v(1000, 0, 0)];
    assert_eq!(separation_calculator(&list), v(-1000, -3000, 0));
    assert_eq!(cohesion_calculator(&list), v(500, 1500, 0));
}

#[test]
fn cohesion_rounds_toward_zero() {
    let list = vec![v(-1, 2, 0), v(-2, 3, 0)];
    assert_eq!(cohesion_calculator(&list), v(-1, 2, 0));
}

#[test]
fn floor_sqrt_exact_values() {
    assert_eq!(floor_sqrt_u128(0), 0);
    assert_eq!(floor_sqrt_u128(1), 1);
    assert_eq!(floor_sqrt_u128(2), 1);
    assert_eq!(floor_sqrt_u128(24), 4);
    assert_eq!(floor_sqrt_u128(25), 5);
    assert_eq!(floor_sqrt_u128(25_000_000), 5000);
}

#[test]
fn normalize_scales_to_unit_length() {
    assert_eq!(normalize(&v(3000, 4000, 0)), v(600, 800, 0));
    assert_eq!(normalize(&v(0, 0, -7)), v(0, 0, -1000));
    assert_eq!(normalize(&v(-3, 0, 4)), v(-600, 0, 800));
}

#[test]
fn normalize_does_not_depend_on_magnitude() {
    // sqrt(1000000 / 2) = 707.1 rounds to 707
    assert_eq!(normalize(&v(1, 1, 0)), v(707, 707, 0));
    assert_eq!(normalize(&v(10, 10, 0)), v(707, 707, 0));
    assert_eq!(normalize(&v(-123_456, 123_456, 0)), v(-707, 707, 0));
    assert_eq!(normalize(&v(1, 1, 1)), v(577, 577, 577));
}

#[test]
fn floor_sqrt_of_largest_input() {
    assert_eq!(floor_sqrt_u128(u128::MAX), u64::MAX);
}

#[test]
fn alignment_sums_unit_directions_and_skips_zero_headings() {
    let headings = vec![v(5, 0, 0), v(0, 0, 0), v(0, -7, 0), v(3000, 4000, 0)];
    assert_eq!(alignment_calculator(&headings), v(1600, -200, 0));
}

#[test]
fn alignment_of_one_short_heading_is_at_most_a_unit() {
    assert_eq!(alignment_calculator(&vec![v(1, 1, 0)]), v(707, 707, 0));
}

#[test]
fn alignment_of_no_headings_is_zero() {
    assert_eq!(alignment_calculator(&vec![]), v(0, 0, 0));
    assert_eq!(alignment_calculator(&vec![v(0, 0, 0)]), v(0, 0, 0));
}

#[test]
fn neighbor_headings_follow_the_neighbor_test() {
    let positions = vec![v(0, 0, 0), v(10, 0, 0), v(NEIGHBOR_RADIUS, 0, 0), v(0, 0, 0)];
    let headings = vec![v(1, 0, 0), v(2, 0, 0), v(3, 0, 0), v(4, 0, 0)];
    let result = find_neighbor_headings(&positions, &headings, v(0, 0, 0));
    assert_eq!(result, vec![v(2, 0, 0)]);
}
