use colony::space::{
    cell_reach, clamp, comes_before, coord_cell, distance2, dot_product, grid_cell, isqrt, radius2, shift,
    snap_to_grid, unit_toward, vector, UNIT,
};

#[test]
fn cell_coordinates_round_down() {
    assert_eq!(coord_cell(32, 0), 0);
    assert_eq!(coord_cell(32, 31), 0);
    assert_eq!(coord_cell(32, 32), 1);
    assert_eq!(coord_cell(32, -1), -1);
    assert_eq!(coord_cell(32, -32), -1);
    assert_eq!(coord_cell(32, -33), -2);
    assert_eq!(coord_cell(1, i32::MIN), i32::MIN);
    assert_eq!(coord_cell(1, i32::MAX), i32::MAX);
    assert_eq!(coord_cell(u32::MAX, i32::MIN), -1);
    assert_eq!(coord_cell(u32::MAX, i32::MAX), 0);
}

#[test]
fn cell_of_a_point() {
    assert_eq!(grid_cell(32, (100, 0)), (3, 0));
    assert_eq!(grid_cell(32, (-100, -1)), (-4, -1));
    assert_eq!(grid_cell(200, (199, 200)), (0, 1));
}

#[test]
fn squared_distance_is_exact() {
    assert_eq!(distance2((0, 0), (3, 4)), 25);
    assert_eq!(distance2((3, 4), (0, 0)), 25);
    assert_eq!(distance2((-1, -1), (-1, -1)), 0);
    assert_eq!(
        distance2((i32::MIN, i32::MIN), (i32::MAX, i32::MAX)),
        2 * (u32::MAX as u128) * (u32::MAX as u128)
    );
    assert_eq!(radius2(u32::MAX), (u32::MAX as u128) * (u32::MAX as u128));
}

#[test]
fn reach_rounds_up() {
    assert_eq!(cell_reach(32, 0), 0);
    assert_eq!(cell_reach(32, 1), 1);
    assert_eq!(cell_reach(32, 32), 1);
    assert_eq!(cell_reach(32, 33), 2);
    assert_eq!(cell_reach(1, u32::MAX), u32::MAX);
    assert_eq!(cell_reach(u32::MAX, u32::MAX), 1);
}

#[test]
fn order_of_points() {
    assert!(comes_before((0, 5), (1, 0)));
    assert!(comes_before((1, 0), (1, 1)));
    assert!(!comes_before((1, 1), (1, 1)));
    assert!(!comes_before((2, 0), (1, 9)));
}

#[test]
fn vectors_saturate() {
    assert_eq!(vector((1, 2), (4, -2)), (3, -4));
    assert_eq!(vector((i32::MIN, 0), (i32::MAX, 0)), (i32::MAX, 0));
    assert_eq!(shift((i32::MAX, 0), (1, -1)), (i32::MAX, -1));
    assert_eq!(clamp(-5_000_000_000), i32::MIN);
    assert_eq!(dot_product((2, 3), (4, -5)), -7);
}

#[test]
fn integer_root_rounds_down() {
    assert_eq!(isqrt(0), 0);
    assert_eq!(isqrt(1), 1);
    assert_eq!(isqrt(24), 4);
    assert_eq!(isqrt(25), 5);
    assert_eq!(isqrt(26), 5);
    assert_eq!(isqrt(u128::MAX), u64::MAX);
}

#[test]
fn direction_has_unit_length() {
    assert_eq!(unit_toward((0, 0), (0, 0)), (0, 0));
    assert_eq!(unit_toward((0, 0), (10, 0)), (UNIT, 0));
    assert_eq!(unit_toward((0, 0), (0, -7)), (0, -UNIT));
    assert_eq!(unit_toward((5, 5), (8, 9)), (3 * UNIT / 5, 4 * UNIT / 5));
    assert_eq!(unit_toward((8, 9), (5, 5)), (-(3 * UNIT / 5), -(4 * UNIT / 5)));
}

#[test]
fn snapping_goes_to_the_nearest_multiple() {
    assert_eq!(snap_to_grid((7, -7), (5, 5)), (5, -5));
    assert_eq!(snap_to_grid((8, -8), (5, 5)), (10, -10));
    assert_eq!(snap_to_grid((5, 15), (10, 10)), (10, 20));
    assert_eq!(snap_to_grid((-5, -15), (10, 10)), (-10, -20));
    assert_eq!(snap_to_grid((4, 0), (10, 3)), (0, 0));
    assert_eq!(snap_to_grid((i32::MAX, i32::MIN), (u32::MAX, 1)), (0, i32::MIN));
    assert_eq!(snap_to_grid((i32::MAX, 0), (2_000_000_000, 1)), (2_000_000_000, 0));
    assert_eq!(snap_to_grid((i32::MAX, i32::MIN), (1_431_655_764, 1_431_655_764)), (i32::MAX, i32::MIN));
}
