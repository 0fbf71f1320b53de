use simple_hydrology::contour::chaining::{chain_segments, Key};

fn k(x: i64, y: i64) -> Key {
    Key { x, y }
}

fn keys_of(segs: &[([f64; 2], [f64; 2])]) -> Vec<(Key, Key)> {
    segs.iter()
        .map(|(a, b)| {
            (
                k((a[0] * 100.0).round() as i64, (a[1] * 100.0).round() as i64),
                k((b[0] * 100.0).round() as i64, (b[1] * 100.0).round() as i64),
            )
        })
        .collect()
}

#[test]
fn empty_input_gives_no_polylines() {
    let segs: Vec<([f64; 2], [f64; 2])> = Vec::new();
    assert!(chain_segments(&segs, &[]).is_empty());
}

#[test]
fn straight_line_from_scrambled_segments() {
    let segs = vec![
        ([1.0, 0.0], [2.0, 0.0]),
        ([0.0, 0.0], [1.0, 0.0]),
        ([2.0, 0.0], [3.0, 0.0]),
    ];
    let polys = chain_segments(&segs, &keys_of(&segs));
    assert_eq!(polys, vec![vec![[0.0, 0.0], [1.0, 0.0], [2.0, 0.0], [3.0, 0.0]]]);
}

#[test]
fn reversed_segments_are_turned_round() {
    let segs = vec![
        ([1.0, 0.0], [2.0, 0.0]),
        ([1.0, 0.0], [0.0, 0.0]),
        ([3.0, 0.0], [2.0, 0.0]),
    ];
    let polys = chain_segments(&segs, &keys_of(&segs));
    assert_eq!(polys, vec![vec![[0.0, 0.0], [1.0, 0.0], [2.0, 0.0], [3.0, 0.0]]]);
}

#[test]
fn joints_keep_the_point_of_the_earlier_segment() {
    // keys join the ends; the points differ slightly
    let segs = vec![
        ([1.0, 0.0], [2.0, 0.0]),
        ([0.0, 0.0], [0.999, 0.0]),
        ([2.001, 0.0], [3.0, 0.0]),
    ];
    let keys = vec![(k(1, 0), k(2, 0)), (k(0, 0), k(1, 0)), (k(2, 0), k(3, 0))];
    let polys = chain_segments(&segs, &keys);
    assert_eq!(polys, vec![vec![[0.0, 0.0], [1.0, 0.0], [2.0, 0.0], [3.0, 0.0]]]);
}

#[test]
fn separate_lines_become_separate_polylines() {
    let segs = vec![
        ([0.0, 0.0], [1.0, 0.0]),
        ([5.0, 5.0], [6.0, 5.0]),
        ([1.0, 0.0], [2.0, 0.0]),
    ];
    let polys = chain_segments(&segs, &keys_of(&segs));
    assert_eq!(
        polys,
        vec![
            vec![[0.0, 0.0], [1.0, 0.0], [2.0, 0.0]],
            vec![[5.0, 5.0], [6.0, 5.0]],
        ]
    );
}

#[test]
fn closed_loop_returns_to_its_start() {
    let segs = vec![
        ([0.0, 0.0], [1.0, 0.0]),
        ([1.0, 0.0], [1.0, 1.0]),
        ([1.0, 1.0], [0.0, 0.0]),
    ];
    let polys = chain_segments(&segs, &keys_of(&segs));
    assert_eq!(polys, vec![vec![[0.0, 0.0], [1.0, 0.0], [1.0, 1.0], [0.0, 0.0]]]);
}

#[test]
fn branch_takes_the_lowest_segment_first() {
    let segs = vec![
        ([-1.0, 0.0], [0.0, 0.0]),
        ([0.0, 0.0], [0.0, 1.0]),
        ([0.0, 0.0], [1.0, 0.0]),
    ];
    let polys = chain_segments(&segs, &keys_of(&segs));
    assert_eq!(
        polys,
        vec![
            vec![[-1.0, 0.0], [0.0, 0.0], [0.0, 1.0]],
            vec![[0.0, 0.0], [1.0, 0.0]],
        ]
    );
}

#[test]
fn every_segment_is_used_exactly_once() {
    let segs: Vec<([f64; 2], [f64; 2])> = vec![
        ([0.0, 0.0], [1.0, 0.0]),
        ([3.0, 0.0], [4.0, 0.0]),
        ([1.0, 0.0], [2.0, 0.0]),
        ([7.0, 7.0], [8.0, 8.0]),
        ([2.0, 0.0], [3.0, 0.0]),
        ([8.0, 8.0], [9.0, 9.0]),
    ];
    let polys = chain_segments(&segs, &keys_of(&segs));
    let links: usize = polys.iter().map(|p| p.len() - 1).sum();
    assert_eq!(links, segs.len());
    assert_eq!(polys.len(), 2);
    assert_eq!(polys[0], vec![[0.0, 0.0], [1.0, 0.0], [2.0, 0.0], [3.0, 0.0], [4.0, 0.0]]);
    assert_eq!(polys[1], vec![[7.0, 7.0], [8.0, 8.0], [9.0, 9.0]]);
}
