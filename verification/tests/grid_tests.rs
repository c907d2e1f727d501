use avy_terrain::grid::{compute_slope_angle_from_vector, is_interior_cell, neighborhood_of};

fn ramp(x_size: usize, y_size: usize) -> Vec<i64> {
    (0..(x_size * y_size) as i64).collect()
}

#[test]
fn neighborhood_of_interior_cell_is_full() {
    let grid = ramp(3, 3);
    assert_eq!(
        neighborhood_of(&grid, (3, 3), (1, 1)),
        [Some(0), Some(1), Some(2), Some(3), Some(4), Some(5), Some(6), Some(7), Some(8)]
    );
}

#[test]
fn neighborhood_of_top_left_corner() {
    let grid = ramp(3, 3);
    assert_eq!(
        neighborhood_of(&grid, (3, 3), (0, 0)),
        [None, None, None, None, Some(0), Some(1), None, Some(3), Some(4)]
    );
}

#[test]
fn neighborhood_of_bottom_right_corner() {
    let grid = ramp(4, 3);
    assert_eq!(
        neighborhood_of(&grid, (4, 3), (3, 2)),
        [Some(6), Some(7), None, Some(10), Some(11), None, None, None, None]
    );
}

#[test]
fn neighborhood_of_right_edge_in_wide_grid() {
    let grid = ramp(4, 3);
    assert_eq!(
        neighborhood_of(&grid, (4, 3), (3, 1)),
        [Some(2), Some(3), None, Some(6), Some(7), None, Some(10), Some(11), None]
    );
}

#[test]
fn neighborhood_of_single_cell_grid() {
    let grid = vec![42i64];
    assert_eq!(
        neighborhood_of(&grid, (1, 1), (0, 0)),
        [None, None, None, None, Some(42), None, None, None, None]
    );
}

#[test]
fn neighborhood_of_ignores_values_past_the_grid() {
    let grid = vec![1i64, 2, 3, 4, 99, 99];
    assert_eq!(
        neighborhood_of(&grid, (2, 2), (1, 1)),
        [Some(1), Some(2), None, Some(3), Some(4), None, None, None, None]
    );
}

#[test]
fn interior_cells_of_a_four_by_three_grid() {
    let mut interior = Vec::new();
    for y in 0..3 {
        for x in 0..4 {
            if is_interior_cell((4, 3), (x, y)) {
                interior.push((x, y));
            }
        }
    }
    assert_eq!(interior, vec![(1, 1), (2, 1)]);
}

#[test]
fn no_interior_cell_in_thin_grids() {
    for y in 0..5 {
        for x in 0..2 {
            assert!(!is_interior_cell((2, 5), (x, y)));
        }
    }
    assert!(!is_interior_cell((0, 0), (0, 0)));
}

#[test]
fn slope_pass_sets_border_to_edge_value() {
    let grid = ramp(4, 4);
    let out = compute_slope_angle_from_vector(
        &grid,
        (4, 4),
        |p: [Option<i64>; 9]| p.iter().map(|v| v.unwrap()).sum::<i64>(),
        0,
    );
    assert_eq!(out.len(), 16);
    let expected = vec![0, 0, 0, 0, 0, 45, 54, 0, 0, 81, 90, 0, 0, 0, 0, 0];
    assert_eq!(out, expected);
}

#[test]
fn slope_pass_hands_the_neighbourhood_in_row_order() {
    let grid = ramp(3, 3);
    let out = compute_slope_angle_from_vector(
        &grid,
        (3, 3),
        |p: [Option<i64>; 9]| {
            let mut code = 0i64;
            for v in p.iter() {
                code = code * 10 + v.unwrap();
            }
            code
        },
        -1,
    );
    assert_eq!(out, vec![-1, -1, -1, -1, 12345678, -1, -1, -1, -1]);
}

#[test]
fn slope_pass_on_empty_grid_is_empty() {
    let grid: Vec<i64> = vec![7];
    let out = compute_slope_angle_from_vector(&grid, (0, 5), |_p: [Option<i64>; 9]| 1i64, 0);
    assert!(out.is_empty());
    let out = compute_slope_angle_from_vector(&grid, (5, 0), |_p: [Option<i64>; 9]| 1i64, 0);
    assert!(out.is_empty());
}

#[test]
fn slope_pass_with_float_cells() {
    let grid: Vec<f32> = vec![0.0, 0.0, 0.0, 0.0, 10.0, 0.0, 0.0, 0.0, 0.0];
    let out = compute_slope_angle_from_vector(
        &grid,
        (3, 3),
        |p: [Option<f32>; 9]| p[4].unwrap() * 2.0,
        0.0f32,
    );
    assert_eq!(out, vec![0.0, 0.0, 0.0, 0.0, 20.0, 0.0, 0.0, 0.0, 0.0]);
}
