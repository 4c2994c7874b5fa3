use atomic_universe::{Fabric, Neighbors, Splat, INFLUENCE_RADIUS};

#[test]
fn new_fabric_has_one_cell_per_position() {
    let f = Fabric::new(4, 3, 7u8);
    assert_eq!(f.width(), 4);
    assert_eq!(f.height(), 3);
    assert_eq!(f.len(), 12);
    for i in 0..12 {
        assert_eq!(f.get(i), 7);
    }
}

#[test]
fn set_then_get_reads_back_and_leaves_others() {
    let mut f = Fabric::new(3, 2, 0i32);
    f.set(4, -5);
    assert_eq!(f.get(4), -5);
    for i in 0..6 {
        if i != 4 {
            assert_eq!(f.get(i), 0);
        }
    }
}

#[test]
fn fill_resets_every_cell() {
    let mut f = Fabric::new(5, 5, 1u16);
    f.set(0, 9);
    f.set(24, 9);
    f.fill(3);
    assert_eq!(f.len(), 25);
    for i in 0..25 {
        assert_eq!(f.get(i), 3);
    }
}

#[test]
fn cell_index_is_row_major_inside_the_grid() {
    let f = Fabric::new(6, 4, 0u8);
    assert_eq!(f.cell_index(0, 0), Some(0));
    assert_eq!(f.cell_index(5, 0), Some(5));
    assert_eq!(f.cell_index(0, 1), Some(6));
    assert_eq!(f.cell_index(2, 3), Some(20));
    assert_eq!(f.cell_index(5, 3), Some(23));
}

#[test]
fn cell_index_rejects_cells_off_the_grid() {
    let f = Fabric::new(6, 4, 0u8);
    assert_eq!(f.cell_index(-1, 0), None);
    assert_eq!(f.cell_index(0, -1), None);
    assert_eq!(f.cell_index(6, 0), None);
    assert_eq!(f.cell_index(0, 4), None);
    assert_eq!(f.cell_index(i32::MIN, i32::MAX), None);
}

#[test]
fn cell_index_never_repeats() {
    let f = Fabric::new(7, 5, 0u8);
    let mut seen = vec![false; 35];
    for y in 0..5 {
        for x in 0..7 {
            let i = f.cell_index(x, y).unwrap();
            assert!(!seen[i]);
            seen[i] = true;
        }
    }
    assert!(seen.iter().all(|s| *s));
}

#[test]
fn neighbors_of_an_inner_cell() {
    let f = Fabric::new(10, 8, 0u8);
    let n = f.neighbors(3, 2);
    assert_eq!(n, Neighbors { left: 22, right: 24, top: 13, bottom: 33 });
}

#[test]
fn neighbors_at_the_inner_corners() {
    let f = Fabric::new(6000, 6000, 0u8);
    let n = f.neighbors(1, 1);
    assert_eq!(n, Neighbors { left: 6000, right: 6002, top: 1, bottom: 12001 });
    let n = f.neighbors(5998, 5998);
    assert_eq!(n.right, 5998 * 6000 + 5999);
    assert_eq!(n.bottom, 5999 * 6000 + 5998);
}

#[test]
fn influence_of_radius_one_in_scan_order() {
    let f = Fabric::new(3, 3, 0u8);
    let s = f.influence(1, 1, 1);
    assert_eq!(
        s,
        vec![
            Splat { index: 3, dist_sq: 1 },
            Splat { index: 1, dist_sq: 1 },
            Splat { index: 4, dist_sq: 0 },
            Splat { index: 7, dist_sq: 1 },
            Splat { index: 5, dist_sq: 1 },
        ]
    );
}

#[test]
fn influence_of_radius_zero_is_the_own_cell() {
    let f = Fabric::new(4, 4, 0u8);
    assert_eq!(f.influence(2, 3, 0), vec![Splat { index: 14, dist_sq: 0 }]);
    assert_eq!(f.influence(4, 3, 0), vec![]);
}

#[test]
fn influence_is_clipped_at_the_edges() {
    let f = Fabric::new(3, 3, 0u8);
    let s = f.influence(0, 0, 1);
    assert_eq!(
        s,
        vec![
            Splat { index: 0, dist_sq: 0 },
            Splat { index: 3, dist_sq: 1 },
            Splat { index: 1, dist_sq: 1 },
        ]
    );
}

#[test]
fn influence_far_off_the_grid_is_empty() {
    let f = Fabric::new(50, 50, 0u8);
    assert!(f.influence(-200, 10, INFLUENCE_RADIUS).is_empty());
    assert!(f.influence(10, 400, INFLUENCE_RADIUS).is_empty());
}

fn disc(px: i32, py: i32, r: i32, w: i32, h: i32) -> Vec<Splat> {
    let mut out = Vec::new();
    for ox in -r..=r {
        for oy in -r..=r {
            let (x, y) = (px + ox, py + oy);
            if x >= 0 && y >= 0 && x < w && y < h && ox * ox + oy * oy <= r * r {
                out.push(Splat { index: (y * w + x) as usize, dist_sq: (ox * ox + oy * oy) as u32 });
            }
        }
    }
    out
}

#[test]
fn influence_of_full_radius_is_the_whole_disc() {
    let f = Fabric::new(6000, 6000, 0f32);
    let s = f.influence(3000, 3000, INFLUENCE_RADIUS);
    assert_eq!(s.len(), 31417);
    assert_eq!(s, disc(3000, 3000, 100, 6000, 6000));
    assert!(s.contains(&Splat { index: 3000 * 6000 + 3000, dist_sq: 0 }));
    let mut idx: Vec<usize> = s.iter().map(|c| c.index).collect();
    idx.sort();
    idx.dedup();
    assert_eq!(idx.len(), 31417);
    assert!(s.iter().all(|c| c.dist_sq <= 10000));
}

#[test]
fn influence_near_a_corner_matches_the_clipped_disc() {
    let f = Fabric::new(120, 90, 0u8);
    assert_eq!(f.influence(5, 80, 30), disc(5, 80, 30, 120, 90));
    assert_eq!(f.influence(-10, -10, 30), disc(-10, -10, 30, 120, 90));
}
