//! Tests for growth-strategy selection, dimension resolution, and the cone
//! mesh indices.

use rand::SeedableRng;
use rand_chacha::ChaCha8Rng;
use voronoi_core::config::{default_fps, resolve_dimensions};
use voronoi_core::mesh::generate_cone_indices;
use voronoi_core::strategy::{
    pick_min_position, pick_most_isolated, pick_spawn_cell, pick_split_site, pick_weighted_site,
    weighted_index, SplitStrategy,
};

#[test]
fn test_pick_split_site_takes_first_max() {
    let mut rng = ChaCha8Rng::seed_from_u64(0);
    let areas = vec![3u64, 7, 7, 2];
    let idx = pick_split_site(&areas, 4, &mut rng);
    assert_eq!(idx, 1);
}

#[test]
fn test_pick_split_site_ignores_areas_beyond_population() {
    let mut rng = ChaCha8Rng::seed_from_u64(0);
    // Only the first two areas belong to live sites.
    let areas = vec![3u64, 7, 100, 100];
    let idx = pick_split_site(&areas, 2, &mut rng);
    assert_eq!(idx, 1);
}

#[test]
fn test_pick_split_site_random_fallback_stays_in_range() {
    let mut rng = ChaCha8Rng::seed_from_u64(1);
    let areas = vec![0u64; 5];
    let mut seen = std::collections::HashSet::new();
    for _ in 0..50 {
        let idx = pick_split_site(&areas, 5, &mut rng);
        assert!(idx < 5);
        seen.insert(idx);
    }
    // A uniform draw over five sites must not be a constant.
    assert!(seen.len() > 1);
}

#[test]
fn test_weighted_index_exact() {
    let areas = vec![2u64, 0, 3];
    assert_eq!(weighted_index(&areas, 3, 0), 0);
    assert_eq!(weighted_index(&areas, 3, 1), 0);
    assert_eq!(weighted_index(&areas, 3, 2), 2);
    assert_eq!(weighted_index(&areas, 3, 3), 2);
    assert_eq!(weighted_index(&areas, 3, 4), 2);
}

#[test]
fn test_pick_weighted_site_never_picks_empty_cell() {
    let mut rng = ChaCha8Rng::seed_from_u64(42);
    let areas = vec![0u64, 10, 0, 1, 0];
    for _ in 0..100 {
        let idx = pick_weighted_site(&areas, 5, &mut rng);
        assert!(idx == 1 || idx == 3);
    }
}

#[test]
fn test_pick_weighted_site_zero_total_falls_back() {
    let mut rng = ChaCha8Rng::seed_from_u64(3);
    let areas = vec![0u64, 0];
    for _ in 0..20 {
        let idx = pick_weighted_site(&areas, 2, &mut rng);
        assert!(idx < 2);
    }
}

#[test]
fn test_same_seed_same_picks() {
    let areas = vec![1u64; 8];
    let mut rng1 = ChaCha8Rng::seed_from_u64(123);
    let mut rng2 = ChaCha8Rng::seed_from_u64(123);
    for _ in 0..20 {
        let a = pick_weighted_site(&areas, 8, &mut rng1);
        let b = pick_weighted_site(&areas, 8, &mut rng2);
        assert_eq!(a, b);
    }
}

#[test]
fn test_pick_spawn_cell_masks_and_selects_largest() {
    let areas = vec![5u32, 9, 9, 1];
    let mut mask = vec![false; 4];
    let first = pick_spawn_cell(&areas, &mut mask, 4);
    assert_eq!(first, 1);
    assert_eq!(mask, vec![false, true, false, false]);
    let second = pick_spawn_cell(&areas, &mut mask, 4);
    assert_eq!(second, 2);
    let third = pick_spawn_cell(&areas, &mut mask, 4);
    assert_eq!(third, 0);
    // Everything positive is masked now; the pick defaults to cell 0.
    let fourth = pick_spawn_cell(&areas, &mut mask, 4);
    assert_eq!(fourth, 3);
    let fifth = pick_spawn_cell(&areas, &mut mask, 4);
    assert_eq!(fifth, 0);
}

#[test]
fn test_split_strategy_is_plain_data() {
    let s = SplitStrategy::Max;
    assert_eq!(s, SplitStrategy::Max);
    assert_ne!(SplitStrategy::Weighted, SplitStrategy::Poisson);
}

#[test]
fn test_default_fps() {
    assert_eq!(default_fps(), 30);
}

#[test]
fn test_resolve_dimensions_explicit() {
    assert_eq!(
        resolve_dimensions(1920, 1080, None, None, Some(1280), Some(720)),
        (1280, 720)
    );
    // Odd dimensions round down to even.
    assert_eq!(
        resolve_dimensions(1920, 1080, None, None, Some(1281), Some(721)),
        (1280, 720)
    );
}

#[test]
fn test_resolve_dimensions_aspect_ratio() {
    assert_eq!(
        resolve_dimensions(1920, 1080, None, None, Some(960), None),
        (960, 540)
    );
    assert_eq!(
        resolve_dimensions(1920, 1080, None, None, None, Some(540)),
        (960, 540)
    );
    // 1080 * 961 / 1920 = 540.5625, rounds to 541, then down to even.
    assert_eq!(
        resolve_dimensions(1920, 1080, None, None, Some(961), None),
        (960, 540)
    );
}

#[test]
fn test_resolve_dimensions_cli_overrides_spec() {
    assert_eq!(
        resolve_dimensions(800, 600, Some(400), Some(300), Some(200), None),
        (200, 300)
    );
    assert_eq!(
        resolve_dimensions(800, 600, Some(400), Some(300), None, None),
        (400, 300)
    );
    assert_eq!(
        resolve_dimensions(801, 601, None, None, None, None),
        (800, 600)
    );
}

#[test]
fn test_generate_cone_indices() {
    let indices = generate_cone_indices();
    assert_eq!(indices.len(), 192);
    assert_eq!(&indices[0..3], &[0, 1, 2]);
    assert_eq!(&indices[3..6], &[0, 2, 3]);
    assert_eq!(&indices[189..192], &[0, 64, 65]);
}

#[test]
fn test_pick_most_isolated_skips_masked() {
    // Keys are nonnegative f64 distances as bits: bit order = numeric order.
    let keys: Vec<u64> = [2.0f64, 9.0, 9.0, 1.0].iter().map(|d| d.to_bits()).collect();
    let idx = pick_most_isolated(&keys, &vec![false; 4]);
    assert_eq!(idx, 1);
    let idx = pick_most_isolated(&keys, &vec![false, true, false, false]);
    assert_eq!(idx, 2);
    let idx = pick_most_isolated(&keys, &vec![true; 4]);
    assert_eq!(idx, 0);
    // Sites beyond the mask's length count as unmasked.
    let idx = pick_most_isolated(&keys, &vec![true, true]);
    assert_eq!(idx, 2);
}

#[test]
fn test_pick_min_position_first_min_wins() {
    let keys: Vec<u64> = [5.0f64, 1.0, 7.0, 1.0].iter().map(|d| d.to_bits()).collect();
    assert_eq!(pick_min_position(&keys), 1);
    assert_eq!(pick_min_position(&vec![3u64]), 0);
    assert_eq!(pick_min_position(&Vec::new()), 0);
}
