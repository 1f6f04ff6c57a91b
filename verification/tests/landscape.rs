//! Terrain behaviour: construction, generation, queries and excavation.

use noise::{Fbm, MultiFractal, NoiseFn, Seedable};
use tank_war_core::landscape::{Landscape, LandscapeError};

fn noise_heights(seed: u32, dx: f64, width: u16, height: u16) -> Vec<u16> {
    let generator = Fbm::new()
        .set_seed(seed)
        .set_octaves(4)
        .set_frequency(2.0 / f64::from(width));
    let amplitude = f64::from(height) / 2.0;
    let y_center = f64::from(height) / 2.0;
    (0..width)
        .map(|x| {
            let sx = f64::from(x) + dx;
            let value = generator.get([sx, 0.0]) * amplitude;
            let y = (y_center + value).round().max(0.0).min(f64::from(height));
            y as u16
        })
        .collect()
}

fn solid_cells(landscape: &Landscape) -> Vec<(i32, i32)> {
    let (w, h) = landscape.size();
    let mut cells = Vec::new();
    for y in 0..h as i32 {
        for x in 0..w as i32 {
            if landscape.is_not_empty(x, y) {
                cells.push((x, y));
            }
        }
    }
    cells
}

#[test]
fn test_new_rejects_zero_dimensions() {
    assert_eq!(Landscape::new(0, 10, 1).unwrap_err(), LandscapeError::ZeroDimension);
    assert_eq!(Landscape::new(10, 0, 1).unwrap_err(), LandscapeError::ZeroDimension);
    assert_eq!(Landscape::new(0, 0, 1).unwrap_err(), LandscapeError::ZeroDimension);
    let landscape = Landscape::new(10, 8, 7).unwrap();
    assert_eq!(landscape.size(), (10, 8));
    assert_eq!(landscape.seed(), 7);
    assert!(landscape.changed());
    assert!(!landscape.is_subsidence());
}

#[test]
fn test_generate_fills_columns_from_heights() {
    // heights[x] empty cells at the top of column x, the rest solid; the
    // profile is clamped to the bitmap height.
    let mut landscape = Landscape::new(4, 3, 0).unwrap();
    landscape.generate(&[1, 0, 3, 9]);
    for y in 0..3 {
        assert_eq!(landscape.is_not_empty(0, y), y < 2, "column 0, row {}", y);
        assert_eq!(landscape.is_not_empty(1, y), true, "column 1, row {}", y);
        assert_eq!(landscape.is_not_empty(2, y), false, "column 2, row {}", y);
        assert_eq!(landscape.is_not_empty(3, y), false, "column 3, row {}", y);
    }
    // Out-of-bounds queries soft-fail as empty.
    assert!(!landscape.is_not_empty(-1, 0));
    assert!(!landscape.is_not_empty(0, -1));
    assert!(!landscape.is_not_empty(4, 0));
    assert!(!landscape.is_not_empty(0, 3));
}

#[test]
fn test_generation_is_deterministic_for_seed_and_offset() {
    let seed: u32 = 0x5eed;
    let dx: f64 = 12.25;
    let mut first = Landscape::new(24, 18, seed).unwrap();
    let mut second = Landscape::new(24, 18, seed).unwrap();
    first.generate(&noise_heights(first.seed(), dx, 24, 18));
    second.generate(&noise_heights(second.seed(), dx, 24, 18));
    assert_eq!(solid_cells(&first), solid_cells(&second));
    // The landscape is not trivial: some solid and some empty cells.
    let count = solid_cells(&first).len();
    assert!(count > 0 && count < 24 * 18);
}

#[test]
fn test_pixels_line_queries() {
    let mut landscape = Landscape::new(6, 4, 0).unwrap();
    landscape.generate(&[0, 0, 0, 0, 0, 0]);
    // A span is clipped at the row end and never wraps.
    let line = landscape.get_pixels_line((4, 2), 10).unwrap();
    assert_eq!(line, vec![1, 1]);
    // Soft failures: out-of-bounds start or zero length.
    assert!(landscape.get_pixels_line((-1, 2), 3).is_none());
    assert!(landscape.get_pixels_line((0, 4), 3).is_none());
    assert!(landscape.get_pixels_line((6, 1), 3).is_none());
    assert!(landscape.get_pixels_line((0, 0), 0).is_none());
    // Counting and clearing agree.
    assert_eq!(landscape.count_empty_pixels_line((1, 1), 4), Some(0));
    assert_eq!(landscape.clear_pixels_line((1, 1), 4), 4);
    assert_eq!(landscape.count_empty_pixels_line((1, 1), 4), Some(4));
    assert_eq!(landscape.clear_pixels_line((1, 1), 4), 0);
    assert_eq!(landscape.get_pixels_line((0, 1), 6).unwrap(), vec![1, 0, 0, 0, 0, 1]);
}

#[test]
fn test_destroy_circle_round_trip() {
    let mut landscape = Landscape::new(20, 20, 0).unwrap();
    landscape.generate(&[0; 20]);
    landscape.clear_changed();
    assert!(!landscape.changed());

    landscape.destroy_circle((10, 10), 5);
    // Cells inside the excavated disk are empty, cells clearly outside are
    // untouched, and the change raised the dirty flag.
    assert!(landscape.changed());
    assert!(!landscape.is_not_empty(10, 10));
    assert!(!landscape.is_not_empty(8, 9));
    assert!(!landscape.is_not_empty(12, 11));
    assert!(landscape.is_not_empty(0, 0));
    assert!(landscape.is_not_empty(19, 19));
    assert!(landscape.is_not_empty(10, 16));
    assert!(landscape.is_not_empty(16, 10));

    // Destroying the same circle again changes nothing: the dirty flag
    // stays down once cleared.
    let after_first = solid_cells(&landscape);
    landscape.clear_changed();
    landscape.destroy_circle((10, 10), 5);
    assert!(!landscape.changed());
    assert_eq!(solid_cells(&landscape), after_first);
}

#[test]
fn test_destroy_circle_off_edge_is_clipped() {
    let mut landscape = Landscape::new(8, 8, 0).unwrap();
    landscape.generate(&[0; 8]);
    let before = solid_cells(&landscape).len();
    landscape.destroy_circle((0, 0), 3);
    let after = solid_cells(&landscape).len();
    assert!(after < before);
    assert!(landscape.is_not_empty(7, 7));
    // A circle entirely outside the bitmap removes nothing.
    landscape.clear_changed();
    landscape.destroy_circle((-50, -50), 3);
    assert!(!landscape.changed());
    assert_eq!(solid_cells(&landscape).len(), after);
}

#[test]
fn test_seed_and_dirty_flag_bookkeeping() {
    let mut landscape = Landscape::new(5, 5, 3).unwrap();
    landscape.set_seed(99);
    assert_eq!(landscape.seed(), 99);
    landscape.clear_changed();
    assert!(!landscape.changed());
    landscape.set_changed();
    assert!(landscape.changed());
}
