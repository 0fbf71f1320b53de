use simple_hydrology::river::{facet, neighbor8, step};

#[test]
fn eight_distinct_neighbours() {
    let offs: Vec<(i64, i64)> = (0..8).map(neighbor8).collect();
    assert_eq!(offs, vec![(-1, -1), (-1, 0), (-1, 1), (0, -1), (0, 1), (1, -1), (1, 0), (1, 1)]);
    for (i, a) in offs.iter().enumerate() {
        assert_ne!(*a, (0, 0));
        for b in &offs[i + 1..] {
            assert_ne!(a, b);
        }
    }
}

#[test]
fn facets_pair_cardinal_with_adjacent_diagonal() {
    for f in 0..8 {
        let ((ar, ac), (br, bc)) = facet(f);
        assert_eq!(ar.abs() + ac.abs(), 1);
        assert_eq!((br.abs(), bc.abs()), (1, 1));
        assert!(ar == br || ac == bc);
        let (c2, d2) = facet((f + 1) % 8);
        assert!((ar, ac) == c2 || (br, bc) == d2);
    }
    assert_eq!(facet(0), ((0, 1), (-1, 1)));
    assert_eq!(facet(5), ((1, 0), (1, -1)));
}

#[test]
fn step_stays_on_grid() {
    // 4 columns, 3 rows.
    assert_eq!(step(1, 2, 1, 1, 4, 3), Some(2 * 4 + 3));
    assert_eq!(step(1, 2, -1, -1, 4, 3), Some(1));
    assert_eq!(step(0, 0, -1, 0, 4, 3), None);
    assert_eq!(step(0, 0, 0, -1, 4, 3), None);
    assert_eq!(step(2, 3, 1, 0, 4, 3), None);
    assert_eq!(step(2, 3, 0, 1, 4, 3), None);
    assert_eq!(step(2, 3, -1, -1, 4, 3), Some(1 * 4 + 2));
}
