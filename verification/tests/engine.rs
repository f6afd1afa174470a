use wave_collapse::bits::popcount;
use wave_collapse::tile::TileType;
use wave_collapse::world::GridError;
use wave_collapse::world::World;

fn one_type() -> Vec<TileType> {
    vec![TileType::new([7, 8, 9], 0b1)]
}

/// The fifteen-type terrain palette: each type may neighbor itself and the
/// types adjacent to it in the list.
fn terrain_types() -> Vec<TileType> {
    vec![
        TileType::new([0, 0, 200], 0b000000000000011),
        TileType::new([0, 0, 215], 0b000000000000111),
        TileType::new([0, 0, 230], 0b000000000001110),
        TileType::new([0, 0, 255], 0b000000000011100),
        TileType::new([230, 230, 0], 0b000000000111000),
        TileType::new([255, 255, 0], 0b000000001110000),
        TileType::new([0, 255, 0], 0b000000011100000),
        TileType::new([0, 220, 0], 0b000000111000000),
        TileType::new([0, 200, 0], 0b000001110000000),
        TileType::new([0, 120, 0], 0b000011100000000),
        TileType::new([0, 100, 0], 0b000111000000000),
        TileType::new([100, 100, 100], 0b001110000000000),
        TileType::new([120, 120, 120], 0b011100000000000),
        TileType::new([230, 230, 230], 0b111000000000000),
        TileType::new([255, 255, 255], 0b110000000000000),
    ]
}

#[test]
fn construction_accepts_1_to_128_types() {
    assert!(World::new((3, 3), one_type(), 1, 0).is_ok());
    let mut many: Vec<TileType> = Vec::new();
    for _ in 0..128 {
        many.push(TileType::new([0, 0, 0], u128::MAX));
    }
    assert!(World::new((3, 3), many, 1, 0).is_ok());
}

#[test]
fn construction_rejects_0_and_129_types() {
    match World::new((3, 3), Vec::new(), 1, 0) {
        Err(GridError::Config) => {}
        _ => panic!("zero tile types must be a configuration error"),
    }
    let mut many: Vec<TileType> = Vec::new();
    for _ in 0..129 {
        many.push(TileType::new([0, 0, 0], u128::MAX));
    }
    match World::new((3, 3), many, 1, 0) {
        Err(GridError::Config) => {}
        _ => panic!("129 tile types must be a configuration error"),
    }
}

#[test]
fn fresh_grid_is_uncollapsed_with_full_waves() {
    let w = World::new((4, 3), terrain_types(), 2, 5).unwrap();
    assert_eq!(w.width(), 4);
    assert_eq!(w.height(), 3);
    assert_eq!(w.tile_count(), 15);
    for x in 0..4 {
        for y in 0..3 {
            assert!(!w.is_collapsed(x, y));
            assert_eq!(w.wave_at(x, y), 0b111_1111_1111_1111);
        }
    }
}

#[test]
fn seed_lattice_counts() {
    // multiples of 2 below 5 are 0, 2, 4: a 3 x 3 lattice
    let w = World::new((5, 5), one_type(), 2, 0).unwrap();
    assert_eq!(w.open_count(), 9);
    // stride beyond the grid leaves only the origin
    let w = World::new((5, 5), one_type(), 16, 0).unwrap();
    assert_eq!(w.open_count(), 1);
    // stride 1 opens every cell
    let w = World::new((5, 5), one_type(), 1, 0).unwrap();
    assert_eq!(w.open_count(), 25);
}

#[test]
fn adjacency_two_types_keeps_both() {
    // A and B, each allowing {A, B}: collapsing the left cell to A leaves
    // the right cell's wave at {A, B}
    let types = vec![
        TileType::new([255, 0, 0], 0b011),
        TileType::new([0, 255, 0], 0b011),
    ];
    let mut w = World::new((2, 1), types, 1, 0).unwrap();
    // open set order is (0,0), (1,0); choice 0 picks the lowest set bit: A
    w.step_at(0, 0).unwrap();
    assert!(w.is_collapsed(0, 0));
    assert_eq!(w.collapsed_index(0, 0), 0);
    assert_eq!(w.wave_at(0, 0), 0b001);
    assert!(!w.is_collapsed(1, 0));
    assert_eq!(w.wave_at(1, 0), 0b011);
}

#[test]
fn adjacency_third_type_is_pruned() {
    // A third type C that only neighbors itself: after the left cell
    // collapses to A, the right cell's {A, B, C} shrinks to {A, B}
    let types = vec![
        TileType::new([255, 0, 0], 0b011),
        TileType::new([0, 255, 0], 0b011),
        TileType::new([0, 0, 255], 0b100),
    ];
    let mut w = World::new((2, 1), types, 1, 0).unwrap();
    assert_eq!(w.wave_at(1, 0), 0b111);
    w.step_at(0, 0).unwrap();
    assert_eq!(w.wave_at(0, 0), 0b001);
    assert_eq!(w.wave_at(1, 0), 0b011);
}

#[test]
fn contradiction_is_reported() {
    // one tile type that may neighbor nothing: propagation empties the
    // second cell's wave
    let types = vec![TileType::new([9, 9, 9], 0)];
    let mut w = World::new((2, 1), types, 1, 0).unwrap();
    match w.step_at(0, 0) {
        Err(GridError::Contradiction) => {}
        _ => panic!("an empty neighbor mask must produce a contradiction"),
    }
}

#[test]
fn single_type_grid_collapses_in_16_steps() {
    let mut w = World::new((4, 4), one_type(), 16, 99).unwrap();
    assert_eq!(w.open_count(), 1);
    let mut steps: usize = 0;
    loop {
        let more = w.step().unwrap();
        steps += 1;
        if !more {
            break;
        }
        assert!(steps <= 16, "more steps than cells");
    }
    assert_eq!(steps, 16);
    for x in 0..4 {
        for y in 0..4 {
            assert!(w.is_collapsed(x, y));
            assert_eq!(w.collapsed_index(x, y), 0);
        }
    }
    let pix = w.render();
    assert_eq!(pix.len(), 16);
    for p in &pix {
        assert_eq!(*p, (7, 8, 9));
    }
}

#[test]
fn waves_stay_nonempty_and_only_shrink() {
    let mut w = World::new((8, 8), terrain_types(), 4, 31).unwrap();
    let mut steps: usize = 0;
    loop {
        let mut before: Vec<u128> = Vec::new();
        for x in 0..8 {
            for y in 0..8 {
                before.push(w.wave_at(x, y));
            }
        }
        let more = w.step().unwrap();
        steps += 1;
        let mut k: usize = 0;
        for x in 0..8 {
            for y in 0..8 {
                let after = w.wave_at(x, y);
                // monotone: a wave never gains a bit
                assert_eq!(after & before[k], after);
                // no contradiction: every wave keeps at least one bit,
                // and a collapsed cell keeps exactly one
                if w.is_collapsed(x, y) {
                    assert_eq!(popcount(after), 1);
                } else {
                    assert!(popcount(after) >= 1);
                }
                k += 1;
            }
        }
        if !more {
            break;
        }
    }
    assert!(steps <= 64);
}

#[test]
fn identical_seeds_give_identical_grids() {
    let mut a = World::new((16, 16), terrain_types(), 4, 42).unwrap();
    let mut b = World::new((16, 16), terrain_types(), 4, 42).unwrap();
    loop {
        let ma = a.step().unwrap();
        let mb = b.step().unwrap();
        assert_eq!(ma, mb);
        if !ma {
            break;
        }
    }
    for x in 0..16 {
        for y in 0..16 {
            assert_eq!(a.is_collapsed(x, y), b.is_collapsed(x, y));
            assert_eq!(a.wave_at(x, y), b.wave_at(x, y));
        }
    }
    assert_eq!(a.render(), b.render());
}

#[test]
fn render_shows_sentinel_while_uncollapsed() {
    let w = World::new((3, 2), terrain_types(), 1, 0).unwrap();
    let pix = w.render();
    assert_eq!(pix.len(), 6);
    for p in &pix {
        assert_eq!(*p, (0, 0, 0));
    }
}

#[test]
fn render_orders_pixels_column_major() {
    // collapse only the cell at (1, 0) on a 2 x 2 grid of one type:
    // its pixel sits at index 1 * height + 0 = 2
    let mut w = World::new((2, 2), one_type(), 1, 3).unwrap();
    // open order: (0,0), (0,1), (1,0), (1,1)
    w.step_at(2, 0).unwrap();
    let pix = w.render();
    assert_eq!(pix.len(), 4);
    assert_eq!(pix[2], (7, 8, 9));
    assert_eq!(pix[0], (0, 0, 0));
    assert_eq!(pix[1], (0, 0, 0));
    assert_eq!(pix[3], (0, 0, 0));
}

#[test]
fn registry_getters_reflect_the_tile_list() {
    let w = World::new((2, 2), terrain_types(), 1, 0).unwrap();
    assert_eq!(w.tile_count(), 15);
    assert_eq!(w.type_color(0), (0, 0, 200));
    assert_eq!(w.type_mask(0), 0b000000000000011);
    assert_eq!(w.type_color(14), (255, 255, 255));
    assert_eq!(w.type_mask(14), 0b110000000000000);
}

#[test]
fn finished_grid_is_neighbor_consistent() {
    let mut w = World::new((8, 8), terrain_types(), 4, 7).unwrap();
    loop {
        if !w.step().unwrap() {
            break;
        }
    }
    // every adjacent pair satisfies the compatibility relation: each cell's
    // wave lies inside the union of masks its neighbor still allows
    for x in 0..8usize {
        for y in 0..8usize {
            let mut allowed: u128 = 0;
            for i in 0..w.tile_count() {
                if (w.wave_at(x, y) >> i) & 1 == 1 {
                    allowed |= w.type_mask(i);
                }
            }
            let mut check = |nx: usize, ny: usize| {
                let nw = w.wave_at(nx, ny);
                assert_eq!(nw & allowed, nw);
            };
            if x > 0 {
                check(x - 1, y);
            }
            if x + 1 < 8 {
                check(x + 1, y);
            }
            if y > 0 {
                check(x, y - 1);
            }
            if y + 1 < 8 {
                check(x, y + 1);
            }
        }
    }
}
