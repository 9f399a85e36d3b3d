use ffrwd::pixel::PixFmt;
use ffrwd::shots::{abs_diff_total, downsample, row_luma_sum, GRID};

/// A `width`x`height` rgba frame filled with one grey level.
fn flat_rgba(width: usize, height: usize, level: u8) -> Vec<u8> {
    let mut frame = vec![255u8; width * height * 4];
    for pixel in frame.chunks_mut(4) {
        pixel[0] = level;
        pixel[1] = level;
        pixel[2] = level;
    }
    frame
}

/// The mean absolute difference of two grids, as the detector takes it.
fn mean_abs_diff(a: &[u8], b: &[u8]) -> f64 {
    if a.is_empty() {
        return 0.0;
    }
    f64::from(abs_diff_total(a, b)) / a.len() as f64
}

#[test]
fn a_flat_frame_reduces_to_one_level_in_every_cell() {
    let mut cells = Vec::new();
    downsample(&flat_rgba(64, 64, 90), PixFmt::Rgba, 64, 64, &mut cells);
    assert_eq!(cells.len(), GRID * GRID);
    assert!(
        cells.iter().all(|c| *c == 90),
        "every cell of a flat frame holds the frame's level"
    );
}

#[test]
fn a_frame_smaller_than_the_grid_still_fills_it() {
    let mut cells = Vec::new();
    downsample(&flat_rgba(8, 8, 40), PixFmt::Rgba, 8, 8, &mut cells);
    assert_eq!(cells.len(), GRID * GRID, "cells repeat rather than vanish");
}

#[test]
fn the_difference_is_the_luma_step_between_two_flat_frames() {
    let mut dark = Vec::new();
    let mut light = Vec::new();
    downsample(&flat_rgba(64, 64, 10), PixFmt::Rgba, 64, 64, &mut dark);
    downsample(&flat_rgba(64, 64, 210), PixFmt::Rgba, 64, 64, &mut light);
    assert!((mean_abs_diff(&dark, &light) - 200.0).abs() < 1e-9);
    assert_eq!(mean_abs_diff(&dark, &dark), 0.0);
}

#[test]
fn rgba_luma_uses_the_standard_weights_per_pixel() {
    // Pure red, green and blue: 299, 587 and 114 thousandths of 255, each
    // rounded down on its own.
    let frame = vec![255, 0, 0, 255, 0, 255, 0, 255, 0, 0, 255, 255];
    assert_eq!(row_luma_sum(&frame, PixFmt::Rgba, 3, 0, 0, 1), 76);
    assert_eq!(row_luma_sum(&frame, PixFmt::Rgba, 3, 0, 1, 2), 149);
    assert_eq!(row_luma_sum(&frame, PixFmt::Rgba, 3, 0, 2, 3), 29);
    assert_eq!(row_luma_sum(&frame, PixFmt::Rgba, 3, 0, 0, 3), 76 + 149 + 29);
    assert_eq!(row_luma_sum(&frame, PixFmt::Rgba, 3, 0, 1, 1), 0, "an empty run is nothing");
}

#[test]
fn yuv_luma_is_the_first_plane() {
    // A 4x2 yuv420p frame: eight luma bytes, then two chroma planes of two.
    let frame = vec![1, 2, 3, 4, 10, 20, 30, 40, 200, 200, 200, 200];
    assert_eq!(row_luma_sum(&frame, PixFmt::Yuv420p, 4, 1, 1, 3), 50);
    assert_eq!(row_luma_sum(&frame, PixFmt::Yuv420p, 4, 0, 0, 4), 10);
}

#[test]
fn each_cell_is_the_average_of_its_own_pixels() {
    // A 64x64 yuv420p frame whose luma is its column number: each cell is two
    // columns wide, so it averages two neighbouring columns, rounded down.
    let (width, height) = (64, 64);
    let mut frame = Vec::new();
    for _ in 0..height {
        for x in 0..width {
            frame.push(x as u8);
        }
    }
    frame.extend(vec![128u8; 2 * 32 * 32]);
    let mut cells = Vec::new();
    downsample(&frame, PixFmt::Yuv420p, width, height, &mut cells);
    assert_eq!(cells.len(), GRID * GRID);
    for cy in 0..GRID {
        for cx in 0..GRID {
            assert_eq!(cells[cy * GRID + cx] as usize, (2 * cx + 2 * cx + 1) / 2);
        }
    }
}

#[test]
fn a_one_pixel_frame_fills_every_cell_with_that_pixel() {
    let mut cells = vec![7u8; 3];
    downsample(&flat_rgba(1, 1, 123), PixFmt::Rgba, 1, 1, &mut cells);
    assert_eq!(cells.len(), GRID * GRID, "what was there before is replaced");
    assert!(cells.iter().all(|c| *c == 123));
}

#[test]
fn the_difference_total_is_symmetric_and_counts_only_shared_cells() {
    let a = [10u8, 200, 30];
    let b = [15u8, 100];
    assert_eq!(abs_diff_total(&a, &b), 5 + 100);
    assert_eq!(abs_diff_total(&b, &a), 5 + 100);
    assert_eq!(abs_diff_total(&a, &a), 0);
    assert_eq!(abs_diff_total(&[], &a), 0);
}
