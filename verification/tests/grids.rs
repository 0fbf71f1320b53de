use simple_hydrology::erosion::heightmap::{Gradient, Heightmap};
use simple_hydrology::particle::cell::WorldMap;
use simple_hydrology::sim::cell::{WorldMap as FixedMap, WORLD_AREA, WORLD_SIZE};

#[test]
fn heightmap_new_and_get() {
    let mut hm = Heightmap::new(3, 2, 0.5f64);
    assert_eq!(hm.data.len(), 6);
    assert!(hm.data.iter().all(|&v| v == 0.5));
    hm.data[1 * 3 + 2] = 7.0;
    assert_eq!(hm.get(2, 1), 7.0);
    assert_eq!(hm.get(0, 0), 0.5);
}

#[test]
fn heightmap_wraps_indices() {
    let hm = Heightmap::new(5, 3, 0u8);
    assert_eq!(hm.wrap_x(-1), 4);
    assert_eq!(hm.wrap_x(7), 2);
    assert_eq!(hm.wrap_x(-5), 0);
    assert_eq!(hm.wrap_x(-11), 4);
    assert_eq!(hm.wrap_x(4), 4);
    assert_eq!(hm.wrap_y(-1), 2);
    assert_eq!(hm.wrap_y(3), 0);
    assert_eq!(hm.wrap_y(-7), 2);
}

#[test]
fn heightmap_crop_takes_the_inner_window() {
    let mut hm = Heightmap::new(5, 4, 0u32);
    for (i, v) in hm.data.iter_mut().enumerate() {
        *v = i as u32;
    }
    let c = hm.crop(1, 3, 2);
    assert_eq!((c.width, c.height), (3, 2));
    assert_eq!(c.data, vec![6, 7, 8, 11, 12, 13]);
    let whole = hm.crop(0, 5, 4);
    assert_eq!(whole.data, hm.data);
    let empty = hm.crop(2, 0, 2);
    assert!(empty.data.is_empty());
}

#[test]
fn gradient_starts_at_zero() {
    let g: Gradient<f64> = Gradient::new(4, 3);
    assert_eq!(g.real, vec![0.0; 12]);
    assert_eq!(g.imag, vec![0.0; 12]);
    assert_eq!((g.width, g.height), (4, 3));
}

#[test]
fn particle_map_indexing() {
    let mut m: WorldMap<u32> = WorldMap::new(4, 3);
    assert_eq!(m.area(), 12);
    assert_eq!(m.cells, vec![0; 12]);
    // x is the row, y the column
    assert_eq!(m.index(2, 1), 9);
    assert!(!m.oob_i(2, 3));
    assert!(m.oob_i(3, 0));
    assert!(m.oob_i(0, 4));
    assert!(m.oob_i(-1, 0));
    assert!(m.oob_i(0, -1));
    if let Some(c) = m.get_mut(2, 1) {
        *c = 42;
    }
    assert_eq!(m.cells[9], 42);
    assert_eq!(m.get(2, 1), Some(&42));
    assert_eq!(m.get(3, 1), None);
    assert!(m.get_mut(-1, 1).is_none());
}

#[test]
fn fixed_map_indexing() {
    let mut m: FixedMap<u8> = FixedMap::new();
    assert_eq!(m.cells.len(), WORLD_AREA);
    assert_eq!(WORLD_SIZE, 512);
    assert_eq!(m.index(1, 2), 514);
    assert!(m.oob_i(512, 0));
    assert!(!m.oob_i(511, 511));
    if let Some(c) = m.get_mut(511, 511) {
        *c = 9;
    }
    assert_eq!(m.cells[WORLD_AREA - 1], 9);
    assert_eq!(m.get(511, 511), Some(&9));
    assert_eq!(m.get(0, -1), None);
}
