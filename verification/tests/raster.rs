//! Tests for raster helpers: RGBA conversion and site markers.

use voronoi_core::raster::{draw_site_dots, rgba_to_rgb};

#[test]
fn test_rgba_to_rgb_drops_alpha() {
    let rgba = vec![1, 2, 3, 255, 4, 5, 6, 128];
    assert_eq!(rgba_to_rgb(&rgba), vec![1, 2, 3, 4, 5, 6]);
}

#[test]
fn test_rgba_to_rgb_ignores_trailing_bytes() {
    let rgba = vec![9, 8, 7, 0, 1, 2];
    assert_eq!(rgba_to_rgb(&rgba), vec![9, 8, 7]);
    assert!(rgba_to_rgb(&Vec::new()).is_empty());
}

#[test]
fn test_draw_site_dots_center() {
    // 4x4 white raster, one site at (1,1): a 3x3 block goes black.
    let mut pixels = vec![255u8; 4 * 4 * 3];
    draw_site_dots(&mut pixels, 4, 4, &vec![1], &vec![1]);
    for y in 0..4 {
        for x in 0..4 {
            let expect = x <= 2 && y <= 2;
            let off = (y * 4 + x) * 3;
            for k in 0..3 {
                assert_eq!(pixels[off + k] == 0, expect, "pixel ({}, {})", x, y);
            }
        }
    }
}

#[test]
fn test_draw_site_dots_clips_at_edges() {
    // Site just off the left edge: only the column x = 0 near it darkens.
    let mut pixels = vec![200u8; 3 * 2 * 3];
    draw_site_dots(&mut pixels, 3, 2, &vec![-1], &vec![0]);
    for y in 0..2 {
        for x in 0..3 {
            let expect = x == 0; // |x - (-1)| <= 1 only for x = 0
            let off = (y * 3 + x) * 3;
            assert_eq!(pixels[off] == 0, expect, "pixel ({}, {})", x, y);
        }
    }
}

#[test]
fn test_draw_site_dots_far_site_changes_nothing() {
    let mut pixels = vec![7u8; 2 * 2 * 3];
    draw_site_dots(&mut pixels, 2, 2, &vec![100], &vec![100]);
    assert_eq!(pixels, vec![7u8; 12]);
}
