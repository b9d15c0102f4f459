use pathtracer::camera::{hex_corners, samples_per_pixel, sensor_cell};
use pathtracer::filter::{kernel_size, window};
use pathtracer::object::Axis;
use pathtracer::polygon::{face_triangles, MeshError};
use pathtracer::texture::checker_first;

#[test]
fn faces_become_triangles() {
    let faces = vec![vec![0, 1, 2], vec![2, 3, 0, 1]];
    assert_eq!(face_triangles(&faces, 4), Ok(vec![(0, 1, 2), (2, 3, 0)]));
    assert_eq!(face_triangles(&vec![], 0), Ok(vec![]));
}

#[test]
fn short_face_is_rejected() {
    let faces = vec![vec![0, 1, 2], vec![0, 1]];
    assert_eq!(face_triangles(&faces, 3), Err(MeshError::ShortFace(1)));
}

#[test]
fn out_of_range_vertex_is_rejected() {
    assert_eq!(face_triangles(&vec![vec![0, 1, 3]], 3), Err(MeshError::VertexOutOfRange(0)));
    assert_eq!(face_triangles(&vec![vec![0, -1, 2]], 3), Err(MeshError::VertexOutOfRange(0)));
}

#[test]
fn first_bad_face_is_reported() {
    let faces = vec![vec![0, 1, 2], vec![0, 9, 1], vec![0]];
    assert_eq!(face_triangles(&faces, 3), Err(MeshError::VertexOutOfRange(1)));
}

#[test]
fn checker_parity() {
    assert!(checker_first(0, 0));
    assert!(!checker_first(1, 0));
    assert!(checker_first(3, 5));
    assert!(!checker_first(u32::MAX, 0));
    assert!(checker_first(u32::MAX, u32::MAX));
}

#[test]
fn kernel_size_values() {
    assert_eq!(kernel_size(0), 1);
    assert_eq!(kernel_size(5), 21);
}

#[test]
fn hex_corner_pairs() {
    assert_eq!(hex_corners(0), (0, 1));
    assert_eq!(hex_corners(5), (5, 0));
    assert_eq!(hex_corners(13), (1, 2));
}

#[test]
fn sensor_cells() {
    assert_eq!(sensor_cell(3, 1, 10, 4, false), 13);
    assert_eq!(sensor_cell(3, 1, 10, 4, true), 25);
    assert_eq!(sensor_cell(0, 0, 1, 1, true), 0);
}

#[test]
fn axis_others() {
    assert_eq!(Axis::X.others(), (Axis::Y, Axis::Z));
    assert_eq!(Axis::Y.others(), (Axis::X, Axis::Z));
    assert_eq!(Axis::Z.others(), (Axis::X, Axis::Y));
}

#[test]
fn window_in_image_interior() {
    let r = window(2, 2, 5, 5, 1);
    assert_eq!(
        r,
        vec![(6, 2), (7, 1), (8, 2), (11, 1), (12, 0), (13, 1), (16, 2), (17, 1), (18, 2)]
    );
}

#[test]
fn window_clipped_at_corner() {
    assert_eq!(window(0, 0, 3, 2, 1), vec![(0, 0), (1, 1), (3, 1), (4, 2)]);
    assert_eq!(window(0, 0, 1, 1, 5), vec![(0, 0)]);
}

#[test]
fn window_radius_zero() {
    assert_eq!(window(3, 1, 4, 2, 0), vec![(7, 0)]);
}

#[test]
fn samples_per_pixel_counts() {
    assert_eq!(samples_per_pixel(4, 4), 64);
    assert_eq!(samples_per_pixel(12, 12), 1728);
    assert_eq!(samples_per_pixel(0, 9), 0);
    assert_eq!(samples_per_pixel(u32::MAX, u32::MAX), (u32::MAX as u128).pow(3));
}
