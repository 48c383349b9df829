use blind_n_scared::common::{MAP_HEIGHT, MAP_WIDTH};
use blind_n_scared::wfc::{
    allowed_neighbors, nth_tile, popcount, Cell, Coord, World, ALL_TILES, TILE_ALTAR, TILE_FLOOR,
    TILE_VOID, TILE_WALL,
};

const TILES: [u8; 4] = [TILE_VOID, TILE_FLOOR, TILE_WALL, TILE_ALTAR];

fn is_tile(t: u8) -> bool {
    TILES.contains(&t)
}

#[test]
fn allowed_neighbors_table() {
    assert_eq!(allowed_neighbors(TILE_ALTAR), TILE_FLOOR);
    assert_eq!(allowed_neighbors(TILE_FLOOR), TILE_WALL | TILE_FLOOR | TILE_ALTAR);
    assert_eq!(allowed_neighbors(TILE_WALL), TILE_VOID | TILE_FLOOR | TILE_WALL);
    assert_eq!(allowed_neighbors(TILE_VOID), TILE_VOID | TILE_WALL);
    assert_eq!(allowed_neighbors(0), 0);
    assert_eq!(allowed_neighbors(3), 0);
    assert_eq!(allowed_neighbors(ALL_TILES), 0);
}

#[test]
fn allowed_neighbors_is_symmetric() {
    for &a in TILES.iter() {
        for &b in TILES.iter() {
            assert_eq!(allowed_neighbors(a) & b != 0, allowed_neighbors(b) & a != 0);
        }
    }
}

#[test]
fn popcount_counts_one_bits() {
    assert_eq!(popcount(0), 0);
    assert_eq!(popcount(ALL_TILES), 4);
    assert_eq!(popcount(0b1010), 2);
    assert_eq!(popcount(255), 8);
    for b in 0..=255u8 {
        assert_eq!(popcount(b), b.count_ones());
    }
}

#[test]
fn nth_tile_scans_upward() {
    assert_eq!(nth_tile(0b1010, 0), TILE_FLOOR);
    assert_eq!(nth_tile(0b1010, 1), TILE_ALTAR);
    assert_eq!(nth_tile(0b1010, 2), 0);
    assert_eq!(nth_tile(ALL_TILES, 3), TILE_ALTAR);
    assert_eq!(nth_tile(ALL_TILES, 0), TILE_VOID);
    assert_eq!(nth_tile(0, 0), 0);
    // bits above the four tiles are never picked
    assert_eq!(nth_tile(0b1_0000, 0), 0);
}

#[test]
fn new_cell_is_open() {
    let c = Cell::new();
    assert_eq!(c.possible, ALL_TILES);
    assert!(!c.collapsed);
    assert_eq!(c.final_type, 0);
}

#[test]
fn new_world_lists_every_cell_in_reading_order() {
    let w = World::new();
    assert_eq!(w.uncollapsed.len(), MAP_HEIGHT * MAP_WIDTH);
    for (i, c) in w.uncollapsed.iter().enumerate() {
        assert_eq!(c.y * MAP_WIDTH + c.x, i);
    }
    assert_eq!((w.uncollapsed[21].y, w.uncollapsed[21].x), (1, 1));
    for row in w.map.iter() {
        for c in row.iter() {
            assert_eq!(c.possible, ALL_TILES);
            assert!(!c.collapsed);
        }
    }
}

#[test]
fn collapse_cell_fixes_a_candidate_and_swap_removes() {
    let mut w = World::new();
    let last = w.uncollapsed[w.uncollapsed.len() - 1];
    w.collapse_cell(3, 4);
    let c = w.map[3][4];
    assert!(c.collapsed);
    assert_eq!(c.possible, c.final_type);
    assert!(is_tile(c.final_type));
    assert_eq!(w.uncollapsed.len(), MAP_HEIGHT * MAP_WIDTH - 1);
    assert!(!w.uncollapsed.iter().any(|k| k.y == 3 && k.x == 4));
    // (3, 4) sat at place 64; the last entry took its place
    assert_eq!((w.uncollapsed[64].y, w.uncollapsed[64].x), (last.y, last.x));
}

#[test]
fn collapse_cell_picks_only_from_candidates() {
    for _ in 0..50 {
        let mut w = World::new();
        w.map[0][0].possible = TILE_WALL | TILE_ALTAR;
        w.collapse_cell(0, 0);
        let t = w.map[0][0].final_type;
        assert!(t == TILE_WALL || t == TILE_ALTAR);
    }
}

#[test]
fn collapse_cell_without_candidates_gives_zero() {
    let mut w = World::new();
    w.map[2][2].possible = 0;
    w.collapse_cell(2, 2);
    assert!(w.map[2][2].collapsed);
    assert_eq!(w.map[2][2].final_type, 0);
}

#[test]
fn collapse_cell_of_unlisted_cell_keeps_list() {
    let mut w = World::new();
    w.uncollapsed.clear();
    w.uncollapsed.push(Coord { y: 1, x: 1 });
    w.collapse_cell(5, 5);
    assert_eq!(w.uncollapsed.len(), 1);
    assert!(w.map[5][5].collapsed);
}

#[test]
fn propagate_forces_floor_around_an_altar() {
    let mut w = World::new();
    w.map[5][5] = Cell { possible: TILE_ALTAR, collapsed: true, final_type: TILE_ALTAR };
    w.uncollapsed.retain(|c| !(c.y == 5 && c.x == 5));
    w.propagate(5, 5);
    for (y, x) in [(4, 5), (6, 5), (5, 4), (5, 6)] {
        let c = w.map[y][x];
        assert!(c.collapsed, "({}, {}) should be fixed", y, x);
        assert_eq!(c.final_type, TILE_FLOOR);
    }
    // cells two steps away were narrowed to what may stand next to floor
    let far = w.map[3][5];
    assert_eq!(far.possible & !allowed_neighbors(TILE_FLOOR), 0);
    // the altar itself is untouched
    assert_eq!(w.map[5][5].final_type, TILE_ALTAR);
}

#[test]
fn propagate_skips_fixed_neighbours_and_the_edge() {
    let mut w = World::new();
    w.map[0][0] = Cell { possible: TILE_VOID, collapsed: true, final_type: TILE_VOID };
    w.map[0][1] = Cell { possible: TILE_ALTAR, collapsed: true, final_type: TILE_ALTAR };
    w.propagate(0, 0);
    assert_eq!(w.map[0][1].final_type, TILE_ALTAR);
    assert_eq!(w.map[1][0].possible, TILE_VOID | TILE_WALL);
    assert!(!w.map[1][0].collapsed);
}

#[test]
fn step_fixes_the_first_cell_of_least_entropy() {
    let mut w = World::new();
    w.map[7][3].possible = TILE_WALL | TILE_FLOOR;
    w.map[9][9].possible = TILE_VOID | TILE_FLOOR;
    let before = w.uncollapsed.len();
    assert!(w.step());
    assert!(w.map[7][3].collapsed);
    let t = w.map[7][3].final_type;
    assert!(t == TILE_WALL || t == TILE_FLOOR);
    assert!(!w.map[9][9].collapsed);
    assert_eq!(w.map[9][9].possible, TILE_VOID | TILE_FLOOR);
    assert!(w.uncollapsed.len() < before);
}

#[test]
fn step_on_fresh_world_fixes_the_first_cell() {
    let mut w = World::new();
    assert!(w.step());
    assert!(w.map[0][0].collapsed);
}

#[test]
fn step_without_candidates_changes_nothing() {
    let mut w = World::new();
    for row in w.map.iter_mut() {
        for c in row.iter_mut() {
            c.possible = 0;
        }
    }
    assert!(!w.step());
    assert_eq!(w.uncollapsed.len(), MAP_HEIGHT * MAP_WIDTH);
    assert!(w.map.iter().all(|row| row.iter().all(|c| !c.collapsed)));
}

#[test]
fn step_on_empty_list_is_false() {
    let mut w = World::new();
    w.uncollapsed.clear();
    assert!(!w.step());
}

#[test]
fn generate_fixes_every_cell_or_empties_it() {
    for _ in 0..20 {
        let mut w = World::new();
        w.generate();
        for row in w.map.iter() {
            for c in row.iter() {
                assert!(c.collapsed || c.possible == 0);
                assert_eq!(c.possible & !ALL_TILES, 0);
                if c.collapsed {
                    assert_eq!(c.possible, c.final_type);
                }
            }
        }
        for k in w.uncollapsed.iter() {
            assert_eq!(w.map[k.y][k.x].possible, 0);
            assert!(!w.map[k.y][k.x].collapsed);
        }
        // the list is exactly the unfixed cells
        let open = w.map.iter().flatten().filter(|c| !c.collapsed).count();
        assert_eq!(open, w.uncollapsed.len());
    }
}

#[test]
fn generate_keeps_fixed_cells() {
    let mut w = World::new();
    w.map[10][10] = Cell { possible: TILE_WALL, collapsed: true, final_type: TILE_WALL };
    w.uncollapsed.retain(|c| !(c.y == 10 && c.x == 10));
    w.generate();
    assert_eq!(w.map[10][10].final_type, TILE_WALL);
    assert_eq!(w.map[10][10].possible, TILE_WALL);
}

#[test]
fn collapse_cell_reaches_every_candidate() {
    let mut seen_wall = false;
    let mut seen_altar = false;
    for _ in 0..200 {
        let mut w = World::new();
        w.map[4][4].possible = TILE_WALL | TILE_ALTAR;
        w.collapse_cell(4, 4);
        match w.map[4][4].final_type {
            TILE_WALL => seen_wall = true,
            TILE_ALTAR => seen_altar = true,
            other => panic!("picked {}", other),
        }
    }
    assert!(seen_wall && seen_altar);
}

#[test]
fn propagate_from_an_altar_in_the_corner_gives_the_exact_grid() {
    let mut w = World::new();
    w.map[0][0].possible = TILE_ALTAR;
    w.collapse_cell(0, 0);
    assert_eq!(
        (w.map[0][0].possible, w.map[0][0].collapsed, w.map[0][0].final_type),
        (TILE_ALTAR, true, TILE_ALTAR)
    );
    w.propagate(0, 0);
    let c = |y: usize, x: usize| (w.map[y][x].possible, w.map[y][x].collapsed, w.map[y][x].final_type);
    assert_eq!(c(0, 0), (TILE_ALTAR, true, TILE_ALTAR));
    assert_eq!(c(1, 0), (TILE_FLOOR, true, TILE_FLOOR));
    assert_eq!(c(0, 1), (TILE_FLOOR, true, TILE_FLOOR));
    let open = TILE_WALL | TILE_FLOOR | TILE_ALTAR;
    assert_eq!(c(2, 0), (open, false, 0));
    assert_eq!(c(1, 1), (open, false, 0));
    assert_eq!(c(0, 2), (open, false, 0));
    let touched = [(0, 0), (1, 0), (0, 1), (2, 0), (1, 1), (0, 2)];
    for y in 0..MAP_HEIGHT {
        for x in 0..MAP_WIDTH {
            if !touched.contains(&(y, x)) {
                assert_eq!(c(y, x), (ALL_TILES, false, 0));
            }
        }
    }
    assert_eq!(w.uncollapsed.len(), 397);
}

#[test]
fn propagate_narrows_without_fixing_when_several_tiles_remain() {
    let mut w = World::new();
    w.map[4][4] = Cell { possible: TILE_WALL, collapsed: true, final_type: TILE_WALL };
    w.uncollapsed.retain(|c| !(c.y == 4 && c.x == 4));
    w.map[3][4].possible = TILE_VOID | TILE_ALTAR;
    w.map[5][4].possible = TILE_FLOOR | TILE_ALTAR;
    w.propagate(4, 4);
    // void is kept next to wall, the altar is dropped: one tile left, fixed
    assert_eq!((w.map[3][4].possible, w.map[3][4].collapsed, w.map[3][4].final_type), (TILE_VOID, true, TILE_VOID));
    // floor is kept next to wall: fixed to floor
    assert_eq!((w.map[5][4].possible, w.map[5][4].collapsed, w.map[5][4].final_type), (TILE_FLOOR, true, TILE_FLOOR));
    // the side neighbours keep void, floor and wall, not fixed
    let mid = TILE_VOID | TILE_FLOOR | TILE_WALL;
    assert_eq!((w.map[4][3].possible, w.map[4][3].collapsed), (mid, false));
    assert_eq!((w.map[4][5].possible, w.map[4][5].collapsed), (mid, false));
}

#[test]
fn propagate_from_an_unfixed_cell_uses_its_tile_field() {
    let mut w = World::new();
    // an unfixed cell whose tile field is still 0 allows no neighbour
    w.propagate(10, 10);
    for (y, x) in [(9, 10), (11, 10), (10, 9), (10, 11)] {
        assert_eq!(w.map[y][x].possible, 0);
        assert!(!w.map[y][x].collapsed);
    }
    assert_eq!(w.map[10][10].possible, ALL_TILES);
    assert_eq!(w.uncollapsed.len(), 400);
}

#[test]
fn step_from_a_lone_altar_gives_the_exact_grid() {
    let mut w = World::new();
    w.map[0][1].possible = TILE_ALTAR;
    assert!(w.step());
    let c = |y: usize, x: usize| (w.map[y][x].possible, w.map[y][x].collapsed, w.map[y][x].final_type);
    assert_eq!(c(0, 1), (TILE_ALTAR, true, TILE_ALTAR));
    for (y, x) in [(0, 0), (1, 1), (0, 2)] {
        assert_eq!(c(y, x), (TILE_FLOOR, true, TILE_FLOOR));
    }
    let open = TILE_WALL | TILE_FLOOR | TILE_ALTAR;
    let narrowed = [(1, 0), (2, 1), (1, 2), (0, 3)];
    for &(y, x) in &narrowed {
        assert_eq!(c(y, x), (open, false, 0));
    }
    for y in 0..MAP_HEIGHT {
        for x in 0..MAP_WIDTH {
            if ![(0, 1), (0, 0), (1, 1), (0, 2)].contains(&(y, x)) && !narrowed.contains(&(y, x)) {
                assert_eq!(c(y, x), (ALL_TILES, false, 0));
            }
        }
    }
    assert_eq!(w.uncollapsed.len(), 396);
}

#[test]
fn collapse_cell_twice_changes_nothing_the_second_time() {
    let mut w = World::new();
    w.map[3][4].possible = TILE_WALL | TILE_VOID;
    w.collapse_cell(3, 4);
    let cell = w.map[3][4];
    let list: Vec<(usize, usize)> = w.uncollapsed.iter().map(|c| (c.y, c.x)).collect();
    w.collapse_cell(3, 4);
    assert_eq!(
        (w.map[3][4].possible, w.map[3][4].collapsed, w.map[3][4].final_type),
        (cell.possible, cell.collapsed, cell.final_type)
    );
    let again: Vec<(usize, usize)> = w.uncollapsed.iter().map(|c| (c.y, c.x)).collect();
    assert_eq!(list, again);
}

#[test]
fn generate_keeps_a_fixed_cell_of_no_tile_kind_and_fixes_only_to_tiles() {
    for _ in 0..10 {
        let mut w = World::new();
        // a fixed cell holding a single bit that is no tile kind
        w.map[4][7] = Cell { possible: 16, collapsed: true, final_type: 16 };
        w.uncollapsed.retain(|c| !(c.y == 4 && c.x == 7));
        w.generate();
        let kept = w.map[4][7];
        assert_eq!((kept.possible, kept.collapsed, kept.final_type), (16, true, 16));
        for (y, row) in w.map.iter().enumerate() {
            for (x, c) in row.iter().enumerate() {
                if c.collapsed {
                    assert_eq!(c.possible, c.final_type);
                    assert!(c.final_type.count_ones() <= 1);
                    if (y, x) != (4, 7) {
                        assert!(is_tile(c.final_type), "({}, {}) fixed to {}", y, x, c.final_type);
                    }
                } else {
                    assert_eq!(c.final_type, 0);
                    assert_eq!(c.possible, 0);
                }
            }
        }
    }
}
