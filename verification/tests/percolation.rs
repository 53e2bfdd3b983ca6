use lau_stochastic_geometry::minkowski::count_components;
use lau_stochastic_geometry::percolation::{PercolationDetector, PercolationDirection};

fn grid_of(n: usize, value: bool) -> Vec<Vec<bool>> {
    vec![vec![value; n]; n]
}

fn grid_from(rows: &[&str]) -> Vec<Vec<bool>> {
    rows.iter().map(|r| r.chars().map(|c| c == '#').collect()).collect()
}

#[test]
fn test_percolation_empty() {
    let det = PercolationDetector::new(50);
    let grid = grid_of(50, false);
    let result = det.check_grid(&grid);
    assert!(!result.percolates);
    assert_eq!(result.num_components, 0);
}

#[test]
fn test_percolation_single_component() {
    let det = PercolationDetector::new(50);
    // one grain covering the whole window occupies every cell
    let grid = grid_of(50, true);
    let result = det.check_grid(&grid);
    assert!(result.percolates);
    assert_eq!(result.num_components, 1);
}

#[test]
fn test_percolation_horizontal_only() {
    let det = PercolationDetector::new(50).with_direction(PercolationDirection::Horizontal);
    let grid = grid_of(50, true);
    let result = det.check_grid(&grid);
    assert!(result.percolates);
}

#[test]
fn test_percolation_vertical_only() {
    let det = PercolationDetector::new(50).with_direction(PercolationDirection::Vertical);
    let grid = grid_of(50, true);
    let result = det.check_grid(&grid);
    assert!(result.percolates);
}

#[test]
fn test_new_detector_defaults() {
    let det = PercolationDetector::new(100);
    assert_eq!(det.grid_res, 100);
    assert_eq!(det.direction, PercolationDirection::Both);
    let det = det.with_direction(PercolationDirection::Vertical);
    assert_eq!(det.grid_res, 100);
    assert_eq!(det.direction, PercolationDirection::Vertical);
}

#[test]
fn test_find_components_labels() {
    let det = PercolationDetector::new(4);
    let grid = grid_from(&["##..", "#..#", "...#", "#..#"]);
    let (components, labels) = det.find_components(&grid);
    assert_eq!(components.len(), 3);
    assert_eq!(
        labels,
        vec![vec![1, 1, 0, 0], vec![1, 0, 0, 2], vec![0, 0, 0, 2], vec![3, 0, 0, 2]]
    );
    assert_eq!(components[0], vec![(0, 0), (0, 1), (1, 0)]);
    assert_eq!(components[1], vec![(1, 3), (2, 3), (3, 3)]);
    assert_eq!(components[2], vec![(3, 0)]);
}

#[test]
fn test_find_components_empty_grid() {
    let det = PercolationDetector::new(0);
    let grid: Vec<Vec<bool>> = vec![];
    let (components, labels) = det.find_components(&grid);
    assert!(components.is_empty());
    assert!(labels.is_empty());
}

#[test]
fn test_stripe_spans_one_direction() {
    // cells (i, 2) for every i: joins row 0 to row n - 1 only
    let grid = grid_from(&["..#..", "..#..", "..#..", "..#..", "..#.."]);
    let h = PercolationDetector::new(5).with_direction(PercolationDirection::Horizontal);
    let v = PercolationDetector::new(5).with_direction(PercolationDirection::Vertical);
    let b = PercolationDetector::new(5);
    assert!(h.check_grid(&grid).percolates);
    assert!(!v.check_grid(&grid).percolates);
    assert!(b.check_grid(&grid).percolates);

    // cells (2, j) for every j: joins column 0 to column n - 1 only
    let grid = grid_from(&[".....", ".....", "#####", ".....", "....."]);
    assert!(!h.check_grid(&grid).percolates);
    assert!(v.check_grid(&grid).percolates);
    assert!(b.check_grid(&grid).percolates);
}

#[test]
fn test_diagonal_does_not_connect() {
    let grid = grid_from(&["#..", ".#.", "..#"]);
    let det = PercolationDetector::new(3);
    let s = det.check_grid(&grid);
    assert!(!s.percolates);
    assert_eq!(s.num_components, 3);
    assert_eq!(s.largest_component, 1);
    assert_eq!(s.occupied, 3);
}

#[test]
fn test_largest_component_and_occupied() {
    let grid = grid_from(&["##...", "##..#", ".....", "#....", "##..."]);
    let det = PercolationDetector::new(5);
    let s = det.check_grid(&grid);
    assert_eq!(s.num_components, 3);
    assert_eq!(s.largest_component, 4);
    assert_eq!(s.occupied, 8);
    assert!(s.largest_component <= s.occupied);
    assert!(!s.percolates);
}

#[test]
fn test_check_percolation_on_labels() {
    let det = PercolationDetector::new(3);
    let labels = vec![vec![0, 2, 0], vec![0, 2, 0], vec![0, 2, 0]];
    assert!(det.check_percolation(&labels));
    let det_v = det.clone().with_direction(PercolationDirection::Vertical);
    assert!(!det_v.check_percolation(&labels));
    let empty: Vec<Vec<usize>> = vec![];
    assert!(!det.check_percolation(&empty));
}

#[test]
fn test_percolation_grows_with_occupation() {
    let sparse = grid_from(&["#....", ".....", "..#..", ".....", "....#"]);
    let dense = grid_from(&["#....", "#....", "###..", "..#..", "..###"]);
    let det = PercolationDetector::new(5);
    assert!(!det.check_grid(&sparse).percolates);
    assert!(det.check_grid(&dense).percolates);
}

#[test]
fn test_cluster_count_agrees_with_minkowski_count() {
    let grid = grid_from(&["##..#", "#...#", "..#..", "#...#", "##.##"]);
    let det = PercolationDetector::new(5);
    let s = det.check_grid(&grid);
    assert_eq!(s.num_components, count_components(&grid, true));
    assert_eq!(s.num_components, 5);
}

#[test]
fn test_summary_grows_with_occupation() {
    let sparse = grid_from(&["#....", ".....", "..#..", ".....", "....#"]);
    let dense = grid_from(&["#....", "#....", "###..", "..#..", "..###"]);
    let det = PercolationDetector::new(5);
    let a = det.check_grid(&sparse);
    let b = det.check_grid(&dense);
    assert!(a.occupied <= b.occupied);
    assert!(!a.percolates || b.percolates);
    assert_eq!((a.occupied, b.occupied), (3, 9));
}
