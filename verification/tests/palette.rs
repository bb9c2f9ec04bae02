//! Tests for the GIF palette quantization and the strategy-name parser.

use voronoi_core::palette::quantize_rgb;
use voronoi_core::strategy::{parse_strategy, SplitStrategy};
use voronoi_core::VoronoiError;

#[test]
fn test_quantize_two_colors() {
    // Red, blue, red, red.
    let rgb = vec![255, 0, 0, 0, 0, 255, 255, 0, 0, 255, 0, 0];
    let (pixels, palette) = quantize_rgb(&rgb);
    assert_eq!(pixels, vec![0, 1, 0, 0]);
    assert_eq!(palette.len(), 768);
    assert_eq!(&palette[0..6], &[255, 0, 0, 0, 0, 255]);
    // Unused entries are zero-padded.
    assert!(palette[6..].iter().all(|&b| b == 0));
}

#[test]
fn test_quantize_full_palette_maps_to_nearest() {
    // 256 distinct grays fill the palette; the 257th color (a near-black
    // red) must map to the nearest existing entry.
    let mut rgb = Vec::new();
    for v in 0..=255u8 {
        rgb.extend_from_slice(&[v, v, v]);
    }
    rgb.extend_from_slice(&[10, 0, 0]);
    let (pixels, palette) = quantize_rgb(&rgb);
    assert_eq!(pixels.len(), 257);
    for p in 0..256 {
        assert_eq!(pixels[p], p as u8);
    }
    // Nearest gray to (10,0,0): distance to (v,v,v) is (10-v)^2 + 2v^2,
    // minimized at v = 3 (49 + 18 = 67 vs v=4: 36+32 = 68 vs v=2: 64+8=72).
    assert_eq!(pixels[256], 3);
    assert_eq!(palette.len(), 768);
    assert_eq!(&palette[765..768], &[255, 255, 255]);
}

#[test]
fn test_quantize_empty_frame() {
    let (pixels, palette) = quantize_rgb(&Vec::new());
    assert!(pixels.is_empty());
    assert_eq!(palette, vec![0u8; 768]);
}

#[test]
fn test_parse_strategy_names() {
    assert_eq!(parse_strategy("max"), Ok(SplitStrategy::Max));
    assert_eq!(parse_strategy("Weighted"), Ok(SplitStrategy::Weighted));
    assert_eq!(parse_strategy("ISOLATED"), Ok(SplitStrategy::Isolated));
    assert_eq!(parse_strategy("centroid"), Ok(SplitStrategy::Centroid));
    assert_eq!(parse_strategy("farthest"), Ok(SplitStrategy::Farthest));
    assert_eq!(parse_strategy("Poisson"), Ok(SplitStrategy::Poisson));
}

#[test]
fn test_parse_strategy_rejects_unknown() {
    assert_eq!(parse_strategy(""), Err(VoronoiError::InvalidStrategy));
    assert_eq!(parse_strategy("maximal"), Err(VoronoiError::InvalidStrategy));
    assert_eq!(parse_strategy("poisson(1,3)"), Err(VoronoiError::InvalidStrategy));
}
