use rand::SeedableRng;
use rand_pcg::Pcg32;
use wang_dungeon::catalog::{
    all_variants, TileType, bit_on, has_bottom_connection, has_left_connection, has_right_connection,
    has_top_connection, init_tiles, init_wtiles, variant_for, BOTTOM, LEFT, RIGHT, TOP,
};
use wang_dungeon::grid::{Coord, FillError, Tile, TileMap};
use wang_dungeon::sampler::{weights_of, TileGenerator};

fn masks(map: &TileMap) -> Vec<u8> {
    let n = map.size();
    let mut v = Vec::new();
    for y in 0..n {
        for x in 0..n {
            v.push(map.mask_of(x, y));
        }
    }
    v
}

fn glyphs(map: &TileMap) -> String {
    let n = map.size();
    let mut s = String::new();
    for y in 0..n {
        for x in 0..n {
            s.push(map.tile(x, y).ch);
        }
    }
    s
}

#[test]
fn catalog_entries() {
    let all = all_variants();
    assert_eq!(all.len(), 16);
    for (i, t) in all.iter().enumerate() {
        assert_eq!(t.ci, i);
        assert!(t.w > 0);
    }
    assert_eq!(variant_for(0).ch, ' ');
    assert_eq!(variant_for(5).ch, '║');
    assert_eq!(variant_for(10).ch, '═');
    assert_eq!(variant_for(15).ch, '╬');
    assert_eq!(variant_for(15).w, 2);
    assert_eq!(variant_for(1).w, 8);
    let weights: Vec<u32> = all.iter().map(|t| t.w).collect();
    assert_eq!(weights, vec![1, 8, 8, 6, 8, 4, 6, 8, 8, 6, 6, 4, 6, 4, 4, 2]);
}

#[test]
fn connection_bits() {
    assert!(bit_on(0b1011, 1));
    assert!(bit_on(0b1011, 2));
    assert!(!bit_on(0b1011, 4));
    assert!(bit_on(0b1011, 8));
    assert!(has_top_connection(1) && !has_right_connection(1));
    assert!(has_right_connection(2) && !has_bottom_connection(2));
    assert!(has_bottom_connection(4) && !has_left_connection(4));
    assert!(has_left_connection(8) && !has_top_connection(8));
}

#[test]
fn directional_subsets() {
    for bit in [TOP, RIGHT, BOTTOM, LEFT] {
        let w = init_wtiles(bit);
        let t = init_tiles(bit);
        assert_eq!(w.len(), 8);
        assert_eq!(t.len(), 8);
        for (a, b) in w.iter().zip(t.iter()) {
            assert_eq!(a.ci, *b);
            assert!(bit_on(a.ci as u8, bit));
        }
    }
    let tops: Vec<usize> = init_tiles(TOP);
    assert_eq!(tops, vec![1, 3, 5, 7, 9, 11, 13, 15]);
}

#[test]
fn coordinates_and_indices() {
    assert_eq!(Coord::to_index(2, 3, 5), 17);
    assert_eq!(Coord::new(17, 5), Coord { x: 2, y: 3 });
    assert_eq!(Coord::to_index(10, 10, 20), 210);
    assert_eq!(Coord::new(210, 20), Coord { x: 10, y: 10 });
}

#[test]
fn tile_construction() {
    let t = Tile::new(7, 6, 5);
    assert_eq!(t.indx, 7);
    assert_eq!(t.pos, Coord { x: 2, y: 1 });
    assert_eq!(t.ch, '╔');
    assert_eq!(t.ch_i, 6);
    let mut e = Tile::empty(3, 5);
    assert_eq!(e.ch, ' ');
    assert_eq!(e.ch_i, 0);
    e.set_char(12);
    assert_eq!(e.ch, '╗');
    assert_eq!(e.ch_i, 12);
    assert_eq!(e.indx, 3);
}

#[test]
fn fill_is_write_once() {
    let mut map = TileMap::empty(4, TileGenerator::new(1));
    assert_eq!(map.fill(1, 2, 5), Ok(()));
    assert_eq!(map.mask_of(1, 2), 5);
    assert_eq!(map.tile(1, 2).ch, '║');
    assert_eq!(map.fill(1, 2, 9), Err(FillError::AlreadyFilled));
    assert_eq!(map.mask_of(1, 2), 5);
    assert_eq!(map.tile(1, 2).ch, '║');
    assert_eq!(map.fill(4, 0, 3), Err(FillError::OutOfRange));
    assert_eq!(map.fill(0, 4, 3), Err(FillError::OutOfRange));
}

#[test]
fn filter_respects_edges_and_neighbours() {
    let mut map = TileMap::empty(3, TileGenerator::new(2));
    // top-left corner: no top or left connection
    assert!(map.fits(0, 0, 6));
    assert!(!map.fits(0, 0, 1));
    assert!(!map.fits(0, 0, 8));
    // (1,1) below a tile with a bottom connection must connect up
    map.fill(1, 0, 4).unwrap();
    assert!(map.fits(1, 1, 1));
    assert!(!map.fits(1, 1, 2));
    // and to the right of a tile without a right connection must not connect left
    map.fill(0, 1, 1).unwrap();
    assert!(!map.fits(1, 1, 9));
    assert!(map.fits(1, 1, 5));
    let cands = map.admissible(1, 1, &init_wtiles(TOP));
    let got: Vec<usize> = cands.iter().map(|t| t.ci).collect();
    assert_eq!(got, vec![1, 3, 5, 7]);
}

#[test]
fn get_tile_draws_a_fitting_mask() {
    let mut map = TileMap::empty(3, TileGenerator::new(3));
    map.fill(1, 1, 15).unwrap();
    for _ in 0..50 {
        // fill (1,0) from (1,1) through its top edge
        let m = map.get_tile(1, 0, TOP);
        assert!(m < 16);
        assert!(bit_on(m as u8, BOTTOM));
        assert!(!bit_on(m as u8, TOP));
        assert!(map.fits(1, 0, m as u8));
    }
}

fn check_properties(map: &TileMap) {
    let n = map.size();
    for y in 0..n {
        for x in 0..n {
            let m = map.mask_of(x, y);
            if m == 0 {
                continue;
            }
            if x + 1 < n && map.mask_of(x + 1, y) != 0 {
                assert_eq!(bit_on(m, RIGHT), bit_on(map.mask_of(x + 1, y), LEFT));
            }
            if y + 1 < n && map.mask_of(x, y + 1) != 0 {
                assert_eq!(bit_on(m, BOTTOM), bit_on(map.mask_of(x, y + 1), TOP));
            }
            if n < 3 && x == n / 2 && y == n / 2 {
                continue;
            }
            if y == 0 {
                assert!(!bit_on(m, TOP));
            }
            if y == n - 1 {
                assert!(!bit_on(m, BOTTOM));
            }
            if x == 0 {
                assert!(!bit_on(m, LEFT));
            }
            if x == n - 1 {
                assert!(!bit_on(m, RIGHT));
            }
        }
    }
    // reachability from the centre, following connections
    let c = n / 2;
    let mut seen = vec![false; n * n];
    let mut pending = vec![(c, c)];
    seen[c + c * n] = true;
    while let Some((x, y)) = pending.pop() {
        let m = map.mask_of(x, y);
        let mut next = Vec::new();
        if bit_on(m, TOP) && y > 0 {
            next.push((x, y - 1));
        }
        if bit_on(m, RIGHT) && x + 1 < n {
            next.push((x + 1, y));
        }
        if bit_on(m, BOTTOM) && y + 1 < n {
            next.push((x, y + 1));
        }
        if bit_on(m, LEFT) && x > 0 {
            next.push((x - 1, y));
        }
        for (a, b) in next {
            assert!(map.mask_of(a, b) != 0);
            if !seen[a + b * n] {
                seen[a + b * n] = true;
                pending.push((a, b));
            }
        }
    }
    for y in 0..n {
        for x in 0..n {
            assert_eq!(seen[x + y * n], map.mask_of(x, y) != 0);
        }
    }
}

#[test]
fn generated_dungeon_is_consistent_and_connected() {
    for seed in 0..20u64 {
        let map = TileMap::create_dungeon(20, TileGenerator::new(seed));
        assert_eq!(map.mask_of(10, 10), 15);
        check_properties(&map);
    }
}

#[test]
fn seeded_generation_is_deterministic() {
    let a = TileMap::create_dungeon(20, TileGenerator::new(10));
    let b = TileMap::create_dungeon(20, TileGenerator::new(10));
    assert_eq!(masks(&a), masks(&b));
    assert_eq!(glyphs(&a), glyphs(&b));
}

#[test]
fn alias_table_sampling_fidelity() {
    let weights: Vec<u32> = vec![1, 8, 8, 6, 8, 4, 6, 8, 8, 6, 6, 4, 6, 4, 4, 2];
    let mut g = TileGenerator::with_rng(Pcg32::seed_from_u64(42));
    let draws = 200_000usize;
    let mut counts = vec![0usize; weights.len()];
    for _ in 0..draws {
        let i = g.random_tile_index();
        assert!(i < weights.len());
        counts[i] += 1;
    }
    let total: u32 = weights.iter().sum();
    for (i, w) in weights.iter().enumerate() {
        let expected = *w as f64 / total as f64;
        let got = counts[i] as f64 / draws as f64;
        assert!((got - expected).abs() < 0.01, "index {}: {} vs {}", i, got, expected);
    }
}

#[test]
fn filtered_draws_follow_weights() {
    // masks with a bottom connection: weights 8, 4, 6, 8, 6, 4, 4, 2
    let tiles = init_wtiles(BOTTOM);
    let mut g = TileGenerator::new(4);
    let draws = 100_000usize;
    let mut counts = vec![0usize; tiles.len()];
    for _ in 0..draws {
        counts[g.tile_index_from(&tiles)] += 1;
    }
    let total: u32 = tiles.iter().map(|t| t.w).sum();
    assert_eq!(total, 42);
    for (i, t) in tiles.iter().enumerate() {
        let expected = t.w as f64 / total as f64;
        let got = counts[i] as f64 / draws as f64;
        assert!((got - expected).abs() < 0.01, "position {}: {} vs {}", i, got, expected);
    }
}

#[test]
fn weights_follow_the_variants() {
    let w = weights_of(&init_wtiles(LEFT));
    assert_eq!(w, vec![8, 6, 6, 4, 6, 4, 4, 2]);
}

#[test]
fn random_tile_index_stays_in_catalog() {
    let mut g = TileGenerator::new(5);
    let mut seen = [false; 16];
    for _ in 0..2000 {
        let i = g.random_tile_index();
        assert!(i < 16);
        seen[i] = true;
    }
    assert!(seen.iter().all(|s| *s));
}

#[test]
fn three_by_three_scenario() {
    for seed in 0..50u64 {
        let map = TileMap::create_dungeon(3, TileGenerator::new(seed));
        assert_eq!(map.mask_of(1, 1), 15);
        assert!(bit_on(map.mask_of(1, 0), BOTTOM));
        assert!(bit_on(map.mask_of(2, 1), LEFT));
        assert!(bit_on(map.mask_of(1, 2), TOP));
        assert!(bit_on(map.mask_of(0, 1), RIGHT));
        for (x, y) in [(0usize, 0usize), (2, 0), (0, 2), (2, 2)] {
            let m = map.mask_of(x, y);
            let horiz = if x == 0 { bit_on(map.mask_of(1, y), LEFT) } else { bit_on(map.mask_of(1, y), RIGHT) };
            let vert = if y == 0 { bit_on(map.mask_of(x, 1), TOP) } else { bit_on(map.mask_of(x, 1), BOTTOM) };
            assert_eq!(m != 0, horiz || vert);
        }
        check_properties(&map);
    }
}

#[test]
fn random_dungeon_fills_every_cell_with_catalog_tiles() {
    let map = TileMap::create_random_dungeon(6, TileGenerator::new(9));
    for y in 0..6 {
        for x in 0..6 {
            let t = map.tile(x, y);
            assert!(t.ch_i < 16);
            assert_eq!(t.ch, variant_for(t.ch_i as usize).ch);
            assert_eq!(t.pos, Coord { x, y });
        }
    }
}

#[test]
fn seeded_generators_repeat_their_draws() {
    let mut a = TileGenerator::new(77);
    let mut b = TileGenerator::new(77);
    let tiles = init_wtiles(BOTTOM);
    for _ in 0..100 {
        assert_eq!(a.tile_index_from(&tiles), b.tile_index_from(&tiles));
    }
}

#[test]
fn tiny_grids_keep_neighbours_in_agreement() {
    for size in 1..3usize {
        for seed in 0..20u64 {
            let map = TileMap::create_dungeon(size, TileGenerator::new(seed));
            assert_eq!(map.mask_of(size / 2, size / 2), 15);
            check_properties(&map);
        }
    }
}

#[test]
fn bit_on_takes_any_bit_pattern() {
    assert!(bit_on(0b0101, 0));
    assert!(bit_on(0b0111, 3));
    assert!(!bit_on(0b0101, 3));
    assert!(bit_on(0b1111, 15));
    assert!(!bit_on(0b0111, 15));
}

#[test]
fn tile_index_from_takes_any_positive_weights() {
    let tiles = vec![
        TileType { ci: 100, ch: 'a', w: 1 },
        TileType { ci: 200, ch: 'b', w: 3 },
        TileType { ci: 300, ch: 'c', w: 1000 },
    ];
    let mut g = TileGenerator::new(11);
    let mut counts = [0usize; 3];
    for _ in 0..10_000 {
        counts[g.tile_index_from(&tiles)] += 1;
    }
    assert!(counts[2] > counts[1] && counts[1] > counts[0]);
    assert!(counts[2] > 9_800);
}

#[test]
fn cached_table_survives_filtered_draws() {
    // filtered draws build their own tables; whole-catalog draws still
    // follow the catalog weights afterwards
    let mut g = TileGenerator::new(12);
    let tiles = init_wtiles(LEFT);
    for _ in 0..1000 {
        g.tile_index_from(&tiles);
    }
    let mut counts = [0usize; 16];
    for _ in 0..89_000 {
        counts[g.random_tile_index()] += 1;
    }
    let weights = [1, 8, 8, 6, 8, 4, 6, 8, 8, 6, 6, 4, 6, 4, 4, 2];
    for i in 0..16 {
        let expected = weights[i] as f64 * 1000.0;
        assert!((counts[i] as f64 - expected).abs() < expected * 0.1 + 300.0);
    }
}

#[test]
fn generation_keeps_cells_filled_beforehand() {
    for seed in 0..20u64 {
        let mut map = TileMap::empty(7, TileGenerator::new(seed));
        map.fill(0, 0, 6).unwrap();
        map.fill(3, 3, 15).unwrap();
        map.generate_tiles(Coord { x: 3, y: 3 });
        assert_eq!(map.mask_of(0, 0), 6);
        assert_eq!(map.mask_of(3, 3), 15);
        for y in 0..7 {
            for x in 0..6 {
                let (a, b) = (map.mask_of(x, y), map.mask_of(x + 1, y));
                if a != 0 && b != 0 {
                    assert_eq!(bit_on(a, RIGHT), bit_on(b, LEFT));
                }
            }
        }
    }
}
