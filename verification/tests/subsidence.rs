//! Gravity subsidence: restart, no-op completion, collapse and mass
//! conservation.

use tank_war_core::landscape::Landscape;

fn count_solid(landscape: &Landscape) -> usize {
    let (w, h) = landscape.size();
    let mut count = 0;
    for y in 0..h as i32 {
        for x in 0..w as i32 {
            if landscape.is_not_empty(x, y) {
                count += 1;
            }
        }
    }
    count
}

#[test]
fn test_settled_terrain_completes_immediately() {
    // Generated terrain is solid from the bottom up: nothing can fall, so
    // the very first update step reports completion.
    let mut landscape = Landscape::new(8, 8, 0).unwrap();
    landscape.generate(&[3, 4, 2, 5, 3, 3, 4, 2]);
    landscape.subsidence();
    assert!(landscape.is_subsidence());
    assert!(landscape.update(1));
    assert!(!landscape.is_subsidence());
}

#[test]
fn test_update_without_subsidence_is_a_no_op() {
    let mut landscape = Landscape::new(8, 8, 0).unwrap();
    landscape.generate(&[2; 8]);
    assert!(!landscape.is_subsidence());
    assert!(!landscape.update(5));
    assert!(!landscape.is_subsidence());
}

#[test]
fn test_zero_drop_distance_processes_no_step() {
    let mut landscape = Landscape::new(8, 8, 0).unwrap();
    landscape.generate(&[2; 8]);
    landscape.subsidence();
    // No drop distance gained yet: no step runs, the collapse stays open.
    assert!(!landscape.update(0));
    assert!(landscape.is_subsidence());
    assert!(landscape.update(1));
    assert!(!landscape.is_subsidence());
}

#[test]
fn test_floating_row_falls_and_mass_is_conserved() {
    // Columns solid at rows 0..3; carving out the whole row y = 1 leaves
    // the two rows above it floating.
    let mut landscape = Landscape::new(4, 4, 0).unwrap();
    landscape.generate(&[1; 4]);
    assert_eq!(count_solid(&landscape), 12);
    assert_eq!(landscape.clear_pixels_line((0, 1), 4), 4);
    assert_eq!(count_solid(&landscape), 8);

    landscape.subsidence();
    // One step drops the floating slab one row; the next finds nothing to
    // move and completes.
    let mut updates = 0;
    loop {
        updates += 1;
        if landscape.update(updates) {
            break;
        }
        assert!(updates < 100, "subsidence did not terminate");
    }
    assert!(!landscape.is_subsidence());
    assert_eq!(count_solid(&landscape), 8);
    for x in 0..4 {
        assert!(landscape.is_not_empty(x, 0));
        assert!(landscape.is_not_empty(x, 1));
        assert!(!landscape.is_not_empty(x, 2));
        assert!(!landscape.is_not_empty(x, 3));
    }
}

#[test]
fn test_restart_resets_the_column_window() {
    let mut landscape = Landscape::new(6, 6, 0).unwrap();
    landscape.generate(&[2; 6]);
    // First run completes at once and narrows the window.
    landscape.subsidence();
    assert!(landscape.update(3));
    // Carve a hole, restart: the window covers the whole width again, so
    // the new hole collapses wherever it is.
    assert_eq!(landscape.clear_pixels_line((5, 1), 1), 1);
    landscape.subsidence();
    let mut drop = 0;
    loop {
        drop += 1;
        if landscape.update(drop) {
            break;
        }
        assert!(drop < 100);
    }
    assert!(landscape.is_not_empty(5, 0));
    assert!(landscape.is_not_empty(5, 1));
    assert!(landscape.is_not_empty(5, 2));
    assert!(!landscape.is_not_empty(5, 3));
    assert!(!landscape.is_not_empty(5, 4));
}

#[test]
fn test_subsidence_raises_dirty_flag_only_on_movement() {
    let mut landscape = Landscape::new(4, 4, 0).unwrap();
    landscape.generate(&[1; 4]);
    landscape.clear_changed();
    landscape.subsidence();
    assert!(landscape.update(1));
    assert!(!landscape.changed());

    landscape.clear_pixels_line((0, 1), 4);
    landscape.clear_changed();
    landscape.subsidence();
    let mut drop = 0;
    loop {
        drop += 1;
        if landscape.update(drop) {
            break;
        }
        assert!(drop < 100);
    }
    assert!(landscape.changed());
}
