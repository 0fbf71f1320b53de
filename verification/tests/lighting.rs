use simple_hydrology::render::lighting::coastline_mask;

#[test]
fn coast_around_single_ocean_cell() {
    let mut ocean = vec![false; 9];
    ocean[4] = true;
    let coast = coastline_mask(&ocean, 3, 3);
    assert_eq!(coast, vec![false, true, false, true, false, true, false, true, false]);
}

#[test]
fn coast_wraps_around_edges() {
    let ocean = vec![true, false, false, false];
    let coast = coastline_mask(&ocean, 4, 1);
    assert_eq!(coast, vec![false, true, false, true]);
}

#[test]
fn coast_wraps_vertically() {
    // column of 4 rows, ocean at the top row only
    let ocean = vec![true, false, false, false];
    let coast = coastline_mask(&ocean, 1, 4);
    assert_eq!(coast, vec![false, true, false, true]);
}

#[test]
fn no_coast_on_uniform_maps() {
    assert_eq!(coastline_mask(&vec![true; 6], 3, 2), vec![false; 6]);
    assert_eq!(coastline_mask(&vec![false; 6], 3, 2), vec![false; 6]);
}

#[test]
fn ocean_cells_are_never_coast() {
    let ocean = vec![true, false, true, false, true, true, false, false, true, false, true, false];
    let coast = coastline_mask(&ocean, 4, 3);
    for i in 0..12 {
        if ocean[i] {
            assert!(!coast[i]);
        }
    }
    // (x=1, y=0): neighbours (0,0) ocean -> coast
    assert!(coast[1]);
    // (x=2, y=1): index 6, neighbours 5 (ocean) -> coast
    assert!(coast[6]);
}

#[test]
fn longer_mask_reads_only_the_grid() {
    let ocean = vec![false, false, false, false, true];
    assert_eq!(coastline_mask(&ocean, 2, 2), vec![false; 4]);
}

#[test]
fn empty_grid_gives_empty_mask() {
    assert_eq!(coastline_mask(&[], 0, 5), Vec::<bool>::new());
    assert_eq!(coastline_mask(&[], 5, 0), Vec::<bool>::new());
}
