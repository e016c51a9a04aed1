//! The grid constructor and the boundary-extended accessors.

use sobel::grid::{clamp_coord, Grid};

#[test]
fn new_accepts_matching_parts() {
    let g = Grid::new(2, 3, vec![1, 2, 3, 4, 5, 6]);
    assert!(g.is_some());
    let g = g.unwrap();
    assert_eq!(g.width, 2);
    assert_eq!(g.height, 3);
    assert_eq!(g.data, vec![1, 2, 3, 4, 5, 6]);
}

#[test]
fn new_rejects_wrong_length() {
    assert!(Grid::new(2, 3, vec![0; 5]).is_none());
    assert!(Grid::new(2, 3, vec![0; 7]).is_none());
    assert!(Grid::new(0, 3, vec![0]).is_none());
}

#[test]
fn new_accepts_empty() {
    assert!(Grid::new(0, 0, vec![]).is_some());
    assert!(Grid::new(0, 9, vec![]).is_some());
    assert!(Grid::new(9, 0, vec![]).is_some());
}

#[test]
fn boundary_extension_corner() {
    // Distinct corner value so a wrong clamp would be visible.
    let g = Grid::new(3, 3, vec![42, 1, 2, 3, 255, 4, 5, 6, 7]).unwrap();
    let corner = g.get_pixel_luma_extended(0, 0);
    assert_eq!(corner, 42);
    // The three out-of-bounds window offsets of the (0,0) window must
    // read the grid's own corner sample: clamp-to-edge, not zero-fill.
    assert_eq!(g.get_pixel_luma_extended(-1, -1), corner);
    assert_eq!(g.get_pixel_luma_extended(-1, 0), corner);
    assert_eq!(g.get_pixel_luma_extended(0, -1), corner);
}

#[test]
fn boundary_extension_far_coordinates() {
    let g = Grid::new(2, 2, vec![10, 20, 30, 40]).unwrap();
    assert_eq!(g.get_pixel_luma_extended(-1000, -1000), 10);
    assert_eq!(g.get_pixel_luma_extended(1000, -1000), 20);
    assert_eq!(g.get_pixel_luma_extended(-1000, 1000), 30);
    assert_eq!(g.get_pixel_luma_extended(1000, 1000), 40);
    assert_eq!(g.get_pixel_luma_extended(i32::MIN, 0), 10);
    assert_eq!(g.get_pixel_luma_extended(i32::MAX, 1), 40);
}

#[test]
fn put_writes_clamped() {
    let mut g = Grid::new(2, 2, vec![0; 4]).unwrap();
    g.put_pixel_luma_extended(0, 0, 11);
    g.put_pixel_luma_extended(1, 1, 22);
    assert_eq!(g.data, vec![11, 0, 0, 22]);
    // An out-of-range write lands on the nearest edge pixel.
    g.put_pixel_luma_extended(-5, 0, 33);
    assert_eq!(g.data, vec![33, 0, 0, 22]);
}

#[test]
fn clamp_coord_behavior() {
    assert_eq!(clamp_coord(-7, 4), 0);
    assert_eq!(clamp_coord(0, 4), 0);
    assert_eq!(clamp_coord(3, 4), 3);
    assert_eq!(clamp_coord(4, 4), 4);
    assert_eq!(clamp_coord(9, 4), 4);
}
