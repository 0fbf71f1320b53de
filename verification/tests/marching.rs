use simple_hydrology::contour::marching::{cell_case, edge_corners, extract_crossings, ms_entry, Crossing};

#[test]
fn case_bits_follow_corner_order() {
    assert_eq!(cell_case([false, false, false, false]), 0);
    assert_eq!(cell_case([true, false, false, false]), 1);
    assert_eq!(cell_case([false, true, false, false]), 2);
    assert_eq!(cell_case([false, false, true, false]), 4);
    assert_eq!(cell_case([false, false, false, true]), 8);
    assert_eq!(cell_case([true, false, true, false]), 5);
    assert_eq!(cell_case([true, true, true, true]), 15);
}

#[test]
fn table_entries() {
    assert_eq!(ms_entry(0), [4, 4, 4, 4, 4]);
    assert_eq!(ms_entry(1), [0, 3, 4, 4, 4]);
    assert_eq!(ms_entry(5), [0, 3, 1, 2, 4]);
    assert_eq!(ms_entry(10), [0, 1, 2, 3, 4]);
    assert_eq!(ms_entry(14), [0, 3, 4, 4, 4]);
    assert_eq!(ms_entry(15), [4, 4, 4, 4, 4]);
}

#[test]
fn table_segments_join_crossed_edges() {
    // edge e joins corners (a, b)
    let ends = [(0, 1), (1, 2), (3, 2), (0, 3)];
    for case in 0u8..16 {
        let e = ms_entry(case);
        let bit = |i: usize| (case >> i) & 1 == 1;
        let mut used = [false; 4];
        for pair in e.chunks(2) {
            if pair[0] == 4 {
                break;
            }
            assert_ne!(pair[0], pair[1]);
            for &edge in pair {
                let (a, b) = ends[edge as usize];
                assert_ne!(bit(a), bit(b), "case {} edge {}", case, edge);
                used[edge as usize] = true;
            }
        }
        for edge in 0..4 {
            let (a, b) = ends[edge];
            assert_eq!(used[edge], bit(a) != bit(b), "case {} edge {}", case, edge);
        }
    }
}

#[test]
fn single_cell_grid() {
    // row-major 2 x 2 samples; only the top-left corner is above
    let above = [true, false, false, false];
    assert_eq!(
        extract_crossings(&above, 2, 2),
        vec![Crossing { row: 0, col: 0, e0: 0, e1: 3 }]
    );
}

#[test]
fn saddle_cell_gives_two_segments() {
    // corners 0 (0,0) and 2 (1,1) above
    let above = [true, false, false, true];
    assert_eq!(
        extract_crossings(&above, 2, 2),
        vec![
            Crossing { row: 0, col: 0, e0: 0, e1: 3 },
            Crossing { row: 0, col: 0, e0: 1, e1: 2 },
        ]
    );
}

#[test]
fn cells_are_scanned_row_by_row() {
    // 3 x 3 samples, centre above: every cell has one corner above
    let mut above = [false; 9];
    above[4] = true;
    let out = extract_crossings(&above, 3, 3);
    assert_eq!(
        out,
        vec![
            Crossing { row: 0, col: 0, e0: 1, e1: 2 },
            Crossing { row: 0, col: 1, e0: 2, e1: 3 },
            Crossing { row: 1, col: 0, e0: 0, e1: 1 },
            Crossing { row: 1, col: 1, e0: 0, e1: 3 },
        ]
    );
}

#[test]
fn flat_grids_have_no_crossings() {
    assert!(extract_crossings(&[true; 12], 4, 3).is_empty());
    assert!(extract_crossings(&[false; 12], 4, 3).is_empty());
    assert!(extract_crossings(&[true; 4], 4, 1).is_empty());
}

#[test]
fn edge_corner_positions() {
    assert_eq!(edge_corners(2, 3, 0), ((2, 3), (2, 4)));
    assert_eq!(edge_corners(2, 3, 1), ((2, 4), (3, 4)));
    assert_eq!(edge_corners(2, 3, 2), ((3, 3), (3, 4)));
    assert_eq!(edge_corners(2, 3, 3), ((2, 3), (3, 3)));
}
