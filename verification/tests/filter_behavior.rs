//! End-to-end behavior of the Sobel filter on concrete grids.

use sobel::filter::{convolve, isqrt, magnitude, sobel_filter, sobel_kernel_x, sobel_kernel_y};
use sobel::grid::Grid;

fn grid(width: usize, height: usize, data: Vec<u8>) -> Grid {
    Grid::new(width, height, data).expect("well-formed grid")
}

#[test]
fn dimension_preservation() {
    let g = grid(4, 3, vec![7; 12]);
    let out = sobel_filter(&g);
    assert_eq!(out.width, 4);
    assert_eq!(out.height, 3);
    assert_eq!(out.data.len(), 12);
}

#[test]
fn determinism_repeated_calls() {
    let data: Vec<u8> = (0..20).map(|i: u32| (i * 13 % 256) as u8).collect();
    let g = grid(5, 4, data);
    let a = sobel_filter(&g);
    let b = sobel_filter(&g);
    assert_eq!(a.width, b.width);
    assert_eq!(a.height, b.height);
    assert_eq!(a.data, b.data);
}

#[test]
fn input_grid_is_not_mutated() {
    let data: Vec<u8> = vec![1, 2, 3, 4, 5, 6, 7, 8, 9];
    let g = grid(3, 3, data.clone());
    let _ = sobel_filter(&g);
    assert_eq!(g.data, data);
}

#[test]
fn uniform_image_zero_response() {
    for v in [0u8, 1, 128, 255] {
        let g = grid(5, 4, vec![v; 20]);
        let out = sobel_filter(&g);
        assert!(out.data.iter().all(|&s| s == 0));
    }
}

#[test]
fn degenerate_zero_width() {
    let g = grid(0, 5, vec![]);
    let out = sobel_filter(&g);
    assert_eq!(out.width, 0);
    assert_eq!(out.height, 5);
    assert!(out.data.is_empty());
}

#[test]
fn degenerate_zero_height() {
    let g = grid(7, 0, vec![]);
    let out = sobel_filter(&g);
    assert_eq!(out.width, 7);
    assert_eq!(out.height, 0);
    assert!(out.data.is_empty());
}

#[test]
fn single_pixel_grid() {
    let g = grid(1, 1, vec![200]);
    let out = sobel_filter(&g);
    // Every window sample clamps to the lone pixel, so both gradients vanish.
    assert_eq!(out.data, vec![0]);
}

#[test]
fn concrete_three_by_three_scenario() {
    // Row-major: a lone bright pixel in the center.
    let g = grid(3, 3, vec![0, 0, 0, 0, 255, 0, 0, 0, 0]);
    let out = sobel_filter(&g);
    // Center: the bright pixel is symmetric under both kernels.
    assert_eq!(out.data[1 * 3 + 1], 0);
    // Corner (0,0): clamp-to-edge pulls the bright center into the window
    // once, at the (+1,+1) offset, giving gx = gy = 255:
    // floor(sqrt(255^2 + 255^2)) / 8 = 360 / 8 = 45.
    assert_eq!(out.data[0], 45);
    // Edge midpoints see the bright pixel with weight 2 in one kernel:
    // floor(sqrt(510^2)) / 8 = 510 / 8 = 63.
    assert_eq!(out.data, vec![45, 63, 45, 63, 0, 63, 45, 63, 45]);
}

#[test]
fn vertical_edge_response() {
    // Left half intensity 0, right half intensity 255.
    let row: Vec<u8> = vec![0, 0, 255, 255];
    let mut data: Vec<u8> = Vec::new();
    for _ in 0..3 {
        data.extend_from_slice(&row);
    }
    let g = grid(4, 3, data);
    let out = sobel_filter(&g);
    // Zero response away from the seam, a large uniform response along
    // both seam columns: |gx| = 4 * 255 = 1020, giving 1020 / 8 = 127.
    for y in 0..3 {
        assert_eq!(out.data[y * 4 + 0], 0);
        assert_eq!(out.data[y * 4 + 1], 127);
        assert_eq!(out.data[y * 4 + 2], 127);
        assert_eq!(out.data[y * 4 + 3], 0);
    }
}

#[test]
fn horizontal_edge_response() {
    // Top half 0, bottom half 255: the seam rows answer in gy.
    let g = grid(3, 4, vec![0, 0, 0, 0, 0, 0, 255, 255, 255, 255, 255, 255]);
    let out = sobel_filter(&g);
    for x in 0..3 {
        assert_eq!(out.data[0 * 3 + x], 0);
        assert_eq!(out.data[1 * 3 + x], 127);
        assert_eq!(out.data[2 * 3 + x], 127);
        assert_eq!(out.data[3 * 3 + x], 0);
    }
}

#[test]
fn convolve_weights_single_sample() {
    let kx = sobel_kernel_x();
    let ky = sobel_kernel_y();
    // A lone sample at the (+1,+1) offset meets weight +1 in both kernels.
    let win = [[0, 0, 0], [0, 0, 0], [0, 0, 255]];
    assert_eq!(convolve(&kx, &win), 255);
    assert_eq!(convolve(&ky, &win), 255);
    // At the (+1,0) offset the horizontal kernel weights it 2, the
    // vertical kernel 0.
    let win = [[0, 0, 0], [0, 0, 0], [0, 255, 0]];
    assert_eq!(convolve(&kx, &win), 510);
    assert_eq!(convolve(&ky, &win), 0);
    // A constant window cancels out under both kernels.
    let win = [[9, 9, 9], [9, 9, 9], [9, 9, 9]];
    assert_eq!(convolve(&kx, &win), 0);
    assert_eq!(convolve(&ky, &win), 0);
}

#[test]
fn magnitude_exact_values() {
    assert_eq!(magnitude(0, 0), 0);
    // floor(sqrt(2 * 255^2)) / 8 = 360 / 8 = 45
    assert_eq!(magnitude(255, 255), 45);
    assert_eq!(magnitude(-255, -255), 45);
    // 510 / 8 = 63
    assert_eq!(magnitude(510, 0), 63);
    assert_eq!(magnitude(0, -510), 63);
    // The extreme case: floor(sqrt(2 * 1020^2)) / 8 = 1442 / 8 = 180
    assert_eq!(magnitude(1020, 1020), 180);
    assert_eq!(magnitude(-1020, 1020), 180);
}

#[test]
fn isqrt_exact_values() {
    assert_eq!(isqrt(0), 0);
    assert_eq!(isqrt(1), 1);
    assert_eq!(isqrt(3), 1);
    assert_eq!(isqrt(4), 2);
    assert_eq!(isqrt(16), 4);
    assert_eq!(isqrt(17), 4);
    assert_eq!(isqrt(130050), 360);
    assert_eq!(isqrt(2080800), 1442);
    assert_eq!(isqrt(u32::MAX), 65535);
}
