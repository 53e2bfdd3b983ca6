use lau_stochastic_geometry::minkowski::{
    count_boundary_edges, count_boundary_sides, count_components, count_euler_characteristic, count_holes,
    count_occupied,
};

fn grid_from(rows: &[&str]) -> Vec<Vec<bool>> {
    rows.iter().map(|r| r.chars().map(|c| c == '#').collect()).collect()
}

#[test]
fn test_minkowski_empty_set() {
    let grid = vec![vec![false; 100]; 100];
    assert_eq!(count_occupied(&grid), 0);
    assert_eq!(count_boundary_edges(&grid), 0);
    assert_eq!(count_euler_characteristic(&grid), 0);
}

#[test]
fn test_full_grid_functionals() {
    let grid = vec![vec![true; 10]; 10];
    assert_eq!(count_occupied(&grid), 100);
    assert_eq!(count_boundary_edges(&grid), 40);
    assert_eq!(count_euler_characteristic(&grid), 1);
}

#[test]
fn test_single_cell_functionals() {
    let grid = grid_from(&["...", ".#.", "..."]);
    assert_eq!(count_occupied(&grid), 1);
    assert_eq!(count_boundary_edges(&grid), 4);
    assert_eq!(count_euler_characteristic(&grid), 1);
}

#[test]
fn test_block_boundary() {
    let grid = grid_from(&["....", ".##.", ".##.", "...."]);
    assert_eq!(count_occupied(&grid), 4);
    assert_eq!(count_boundary_edges(&grid), 8);
}

#[test]
fn test_euler_two_components() {
    let grid = grid_from(&["##....", "##....", "......", "....##", "....##", "......"]);
    assert_eq!(count_components(&grid, true), 2);
    assert_eq!(count_holes(&grid), 0);
    assert_eq!(count_euler_characteristic(&grid), 2);
}

#[test]
fn test_euler_ring_with_hole() {
    let grid = grid_from(&[".....", ".###.", ".#.#.", ".###.", "....."]);
    assert_eq!(count_components(&grid, true), 1);
    assert_eq!(count_holes(&grid), 1);
    assert_eq!(count_euler_characteristic(&grid), 0);
}

#[test]
fn test_background_touching_border_is_no_hole() {
    let grid = grid_from(&[".###", ".#.#", ".###"]);
    // the background cell at (1, 2) is enclosed; the column 0 touches the border
    assert_eq!(count_components(&grid, false), 2);
    assert_eq!(count_holes(&grid), 1);
    assert_eq!(count_euler_characteristic(&grid), 0);
}

#[test]
fn test_small_grid_has_no_holes() {
    let grid = grid_from(&["#.#", "###"]);
    assert_eq!(count_holes(&grid), 0);
    assert_eq!(count_components(&grid, true), 1);
    assert_eq!(count_euler_characteristic(&grid), 1);
}

#[test]
fn test_euler_of_grid_without_columns() {
    let grid: Vec<Vec<bool>> = vec![vec![], vec![]];
    assert_eq!(count_euler_characteristic(&grid), 0);
    let none: Vec<Vec<bool>> = vec![];
    assert_eq!(count_euler_characteristic(&none), 0);
}

#[test]
fn test_rectangular_grid_components() {
    let grid = grid_from(&["#.#.#.#", "#.#.#.#"]);
    assert_eq!(count_components(&grid, true), 4);
    assert_eq!(count_components(&grid, false), 3);
}

#[test]
fn test_boundary_at_most_four_per_cell() {
    let grid = grid_from(&["#.#.", ".#.#", "#.#.", ".#.#"]);
    assert_eq!(count_occupied(&grid), 8);
    assert_eq!(count_boundary_edges(&grid), 32);
    assert!(count_boundary_edges(&grid) <= 4 * count_occupied(&grid));
}

#[test]
fn test_boundary_sides_by_orientation() {
    // a 1 x 3 bar along the column direction: two sides face rows at each cell,
    // two sides face columns at the ends
    let grid = grid_from(&["....", ".###", "....", "...."]);
    assert_eq!(count_boundary_sides(&grid), (6, 2));
    assert_eq!(count_boundary_edges(&grid), 8);
    let full = vec![vec![true; 5]; 5];
    assert_eq!(count_boundary_sides(&full), (10, 10));
}

#[test]
fn test_occupied_count_grows_with_cells() {
    let sparse = grid_from(&["#...", "....", "..#.", "...."]);
    let dense = grid_from(&["##..", "....", "..##", "#..."]);
    assert!(count_occupied(&sparse) <= count_occupied(&dense));
    assert_eq!(count_occupied(&sparse), 2);
    assert_eq!(count_occupied(&dense), 5);
}
