use lau_stochastic_geometry::delaunay::{
    cavity_edges, discard_super_triangles, insert_point, num_edges, super_triangle, unique_edges,
    Triangle,
};

fn tri(i: usize, j: usize, k: usize) -> Triangle {
    Triangle { i, j, k }
}

#[test]
fn test_first_insertion_splits_super_triangle() {
    let mut tris = vec![super_triangle(3)];
    assert_eq!(tris[0], tri(3, 4, 5));
    insert_point(&mut tris, &vec![true], 0);
    assert_eq!(tris, vec![tri(3, 4, 0), tri(4, 5, 0), tri(5, 3, 0)]);
}

#[test]
fn test_unflagged_triangles_are_kept() {
    let mut tris = vec![tri(0, 1, 2), tri(1, 2, 3)];
    insert_point(&mut tris, &vec![false, false], 4);
    assert_eq!(tris, vec![tri(0, 1, 2), tri(1, 2, 3)]);
}

#[test]
fn test_cavity_drops_shared_edges() {
    // two triangles sharing the edge 1-2 (as 1->2 and 2->1)
    let tris = vec![tri(0, 1, 2), tri(2, 1, 3), tri(5, 6, 7)];
    let flags = vec![true, true, false];
    let polygon = cavity_edges(&tris, &flags);
    assert_eq!(polygon, vec![(0, 1), (2, 0), (1, 3), (3, 2)]);
    let mut t = tris.clone();
    insert_point(&mut t, &flags, 4);
    assert_eq!(
        t,
        vec![tri(5, 6, 7), tri(0, 1, 4), tri(2, 0, 4), tri(1, 3, 4), tri(3, 2, 4)]
    );
}

#[test]
fn test_discard_super_triangles() {
    let mut tris = vec![tri(0, 1, 2), tri(0, 1, 3), tri(3, 4, 5), tri(2, 1, 0)];
    discard_super_triangles(&mut tris, 3);
    assert_eq!(tris, vec![tri(0, 1, 2), tri(2, 1, 0)]);
}

#[test]
fn test_no_triangles_no_edges() {
    let tris: Vec<Triangle> = vec![];
    assert_eq!(num_edges(&tris), 0);
    assert!(unique_edges(&tris).is_empty());
}

#[test]
fn test_unique_edges_of_two_triangles() {
    let tris = vec![tri(0, 1, 2), tri(2, 1, 3)];
    let edges = unique_edges(&tris);
    assert_eq!(edges, vec![(0, 1), (1, 2), (0, 2), (1, 3), (2, 3)]);
    assert_eq!(num_edges(&tris), 5);
}

#[test]
fn test_single_triangle_has_three_edges() {
    let tris = vec![tri(0, 1, 2)];
    assert_eq!(num_edges(&tris), 3);
}
