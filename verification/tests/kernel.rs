//! Tests for the tally kernel: assignment, areas, colors, rendering.

use rand::Rng;
use rand::SeedableRng;
use voronoi_core::kernel::{build_result, finalize_colors, tally_cells, CellTotals};
use voronoi_core::voronoi::VoronoiResult;
use voronoi_core::VoronoiError;

/// Nearest-site assignment exactly as the animation front end computes it:
/// f32 squared distances from pixel centers, strict `<`, lower index wins.
fn assign(width: u32, height: u32, sites: &[(f64, f64)]) -> Vec<u32> {
    let mut cells = Vec::with_capacity((width * height) as usize);
    for y in 0..height {
        for x in 0..width {
            let px = x as f32 + 0.5;
            let py = y as f32 + 0.5;
            let mut best = 0u32;
            let mut best_d = f32::INFINITY;
            for (i, &(sx, sy)) in sites.iter().enumerate() {
                let dx = px - sx as f32;
                let dy = py - sy as f32;
                let d = dx * dx + dy * dy;
                if d < best_d {
                    best_d = d;
                    best = i as u32;
                }
            }
            cells.push(best);
        }
    }
    cells
}

fn solid_image(width: u32, height: u32, rgb: [u8; 3]) -> Vec<u8> {
    let mut bytes = Vec::with_capacity((width * height * 3) as usize);
    for _ in 0..width * height {
        bytes.extend_from_slice(&rgb);
    }
    bytes
}

#[test]
fn test_basic_voronoi() {
    let width = 100u32;
    let height = 100u32;
    let bytes = solid_image(width, height, [255, 0, 0]);
    let sites = [(25.0, 25.0), (75.0, 75.0)];
    let cells = assign(width, height, &sites);

    let result = build_result(width, height, sites.len(), &cells, &bytes).unwrap();

    assert_eq!(result.width, 100);
    assert_eq!(result.height, 100);
    assert_eq!(result.cell_colors.len(), 2);
    assert_eq!(result.cell_areas.len(), 2);

    let total_area: u32 = result.cell_areas.iter().sum();
    assert_eq!(total_area, 10000);
    // The bisector pixels tie and go to the lower-indexed site.
    assert_eq!(result.cell_areas[0], 5050);
    assert_eq!(result.cell_areas[1], 4950);
    assert_eq!(result.cell_colors, vec![[255, 0, 0], [255, 0, 0]]);
}

#[test]
fn test_no_sites_error() {
    let width = 4u32;
    let height = 4u32;
    let bytes = solid_image(width, height, [10, 20, 30]);
    let cells = vec![0u32; 16];
    let err = build_result(width, height, 0, &cells, &bytes).unwrap_err();
    assert_eq!(err, VoronoiError::NoSites);
}

#[test]
fn test_empty_image_is_not_an_error() {
    let result = build_result(0, 7, 3, &Vec::new(), &Vec::new()).unwrap();
    assert_eq!(result.cell_areas, vec![0, 0, 0]);
    assert_eq!(result.cell_colors, vec![[128, 128, 128]; 3]);
    assert_eq!(result.cell_of.len(), 0);
}

#[test]
fn test_empty_cell_gets_gray() {
    let width = 10u32;
    let height = 10u32;
    let bytes = solid_image(width, height, [40, 80, 120]);
    // Site 1 is far outside the raster, so every pixel goes to site 0.
    let sites = [(5.0, 5.0), (1000.0, 1000.0)];
    let cells = assign(width, height, &sites);
    let result = build_result(width, height, sites.len(), &cells, &bytes).unwrap();
    assert_eq!(result.cell_areas, vec![100, 0]);
    assert_eq!(result.cell_colors[0], [40, 80, 120]);
    assert_eq!(result.cell_colors[1], [128, 128, 128]);
}

#[test]
fn test_color_average_truncates() {
    // 1x2 image: one cell holding both pixels, colors 10 and 15 -> avg 12.
    let bytes = vec![10, 0, 0, 15, 0, 255];
    let cells = vec![0u32, 0u32];
    let result = build_result(2, 1, 1, &cells, &bytes).unwrap();
    assert_eq!(result.cell_areas, vec![2]);
    assert_eq!(result.cell_colors, vec![[12, 0, 127]]);
}

/// The merged single-pass tally must equal the tally of per-row pieces
/// merged in row order, on every field.
#[test]
fn test_merged_vs_multi_pass() {
    let width = 640u32;
    let height = 480u32;
    let mut bytes = Vec::with_capacity((width * height * 3) as usize);
    for y in 0..height {
        for x in 0..width {
            bytes.push((x * 255 / width) as u8);
            bytes.push((y * 255 / height) as u8);
            bytes.push(128);
        }
    }

    let mut rng = rand_chacha::ChaCha8Rng::seed_from_u64(7);
    let sites: Vec<(f64, f64)> = (0..50)
        .map(|_| {
            (
                rng.gen::<f64>() * width as f64,
                rng.gen::<f64>() * height as f64,
            )
        })
        .collect();
    let cells = assign(width, height, &sites);
    let num_sites = sites.len();

    // Single pass over the whole raster.
    let whole = tally_cells(width, height, num_sites, 0, &cells, &bytes);

    // Row-by-row tallies, merged left to right.
    let mut merged = CellTotals::new(num_sites);
    for y in 0..height as usize {
        let w = width as usize;
        let row_cells: Vec<u32> = cells[y * w..(y + 1) * w].to_vec();
        let row_bytes: Vec<u8> = bytes[y * w * 3..(y + 1) * w * 3].to_vec();
        let row = tally_cells(width, height, num_sites, y * w, &row_cells, &row_bytes);
        merged.merge(&row, num_sites);
    }

    assert_eq!(whole.areas, merged.areas, "cell_areas mismatch");
    assert_eq!(whole.r_sums, merged.r_sums, "red sums mismatch");
    assert_eq!(whole.g_sums, merged.g_sums, "green sums mismatch");
    assert_eq!(whole.b_sums, merged.b_sums, "blue sums mismatch");
    assert_eq!(whole.x_sums, merged.x_sums, "x sums mismatch");
    assert_eq!(whole.y_sums, merged.y_sums, "y sums mismatch");

    let colors_whole = finalize_colors(&whole, num_sites);
    let colors_merged = finalize_colors(&merged, num_sites);
    assert_eq!(colors_whole, colors_merged, "cell_colors mismatch");

    let total: u32 = whole.areas.iter().sum();
    assert_eq!(total, width * height);
}

/// Two identical computations give byte-identical results.
#[test]
fn test_compute_is_pure() {
    let width = 64u32;
    let height = 48u32;
    let bytes = solid_image(width, height, [9, 9, 9]);
    let sites = [(3.0, 4.0), (60.0, 40.0), (30.0, 20.0)];
    let cells = assign(width, height, &sites);
    let r1 = build_result(width, height, sites.len(), &cells, &bytes).unwrap();
    let r2 = build_result(width, height, sites.len(), &cells, &bytes).unwrap();
    assert_eq!(r1.cell_of, r2.cell_of);
    assert_eq!(r1.cell_colors, r2.cell_colors);
    assert_eq!(r1.cell_areas, r2.cell_areas);
    assert_eq!(r1.render(), r2.render());
}

#[test]
fn test_render_maps_cells_to_colors() {
    let result = VoronoiResult {
        cell_of: vec![1, 0, 0, 1],
        cell_colors: vec![[10, 20, 30], [40, 50, 60]],
        cell_areas: vec![2, 2],
        width: 2,
        height: 2,
    };
    let pixels = result.render();
    assert_eq!(
        pixels,
        vec![40, 50, 60, 10, 20, 30, 10, 20, 30, 40, 50, 60]
    );
}

#[test]
fn test_render_out_of_range_cell_is_black() {
    let result = VoronoiResult {
        cell_of: vec![0, 5, -1],
        cell_colors: vec![[200, 100, 50]],
        cell_areas: vec![1, 1, 1],
        width: 3,
        height: 1,
    };
    let pixels = result.render();
    assert_eq!(pixels, vec![200, 100, 50, 0, 0, 0, 0, 0, 0]);
}
