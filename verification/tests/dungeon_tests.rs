use blind_n_scared::common::{Rect, MAP_HEIGHT, MAP_WIDTH, TILE_DOOR, TILE_EXIT, TILE_FLOOR, TILE_WALL};
use blind_n_scared::dungeon::{
    core_offset, far_enough, pick_index, pick_two, split_point, too_close, wing_rect, Room, World, MIN_DIM,
    TILE_HUB,
};

fn floor_world(width: usize, height: usize) -> World {
    let mut w = World::new(width, height);
    w.fill_rect(0, 0, width, height, TILE_FLOOR);
    w
}

fn count(w: &World, t: char) -> usize {
    w.map.iter().flatten().filter(|&&c| c == t).count()
}

#[test]
fn new_is_all_wall() {
    let w = World::new(5, 3);
    assert_eq!(w.width, 5);
    assert_eq!(w.height, 3);
    assert_eq!(w.map.len(), 3);
    assert!(w.map.iter().all(|row| row.len() == 5 && row.iter().all(|&c| c == TILE_WALL)));
}

#[test]
fn safe_set_tile_ignores_off_grid() {
    let mut w = World::new(4, 4);
    w.safe_set_tile(1, 2, 'x');
    assert_eq!(w.map[2][1], 'x');
    w.safe_set_tile(4, 0, 'y');
    w.safe_set_tile(0, 4, 'y');
    assert_eq!(count(&w, 'y'), 0);
    assert_eq!(count(&w, 'x'), 1);
}

#[test]
fn fill_rect_clips_to_the_grid() {
    let mut w = World::new(6, 5);
    w.fill_rect(4, 3, 10, 10, '.');
    assert_eq!(count(&w, '.'), 2 * 2);
    assert_eq!(w.map[3][4], '.');
    assert_eq!(w.map[4][5], '.');
    assert_eq!(w.map[2][5], TILE_WALL);
    w.fill_rect(0, 0, 0, 3, ',');
    assert_eq!(count(&w, ','), 0);
}

#[test]
fn draw_rect_border_outlines_the_rectangle() {
    let mut w = floor_world(10, 10);
    w.draw_rect_border(1, 2, 5, 4);
    for y in 0..10 {
        for x in 0..10 {
            let border = (1..6).contains(&x) && (y == 2 || y == 5)
                || (2..6).contains(&y) && (x == 1 || x == 5);
            assert_eq!(w.map[y][x] == TILE_WALL, border, "at ({}, {})", x, y);
        }
    }
}

#[test]
fn draw_rect_border_of_zero_width_draws_two_columns() {
    let mut w = floor_world(6, 6);
    w.draw_rect_border(2, 1, 0, 3);
    for y in 0..6 {
        for x in 0..6 {
            let wall = (1..4).contains(&y) && (x == 1 || x == 2);
            assert_eq!(w.map[y][x] == TILE_WALL, wall, "at ({}, {})", x, y);
        }
    }
}

#[test]
fn overlaps_interior_ignores_shared_outlines() {
    let a = Rect { x: 0, y: 0, w: 5, h: 5 };
    let side = Rect { x: 4, y: 0, w: 5, h: 5 };
    let inside = Rect { x: 2, y: 2, w: 5, h: 5 };
    let apart = Rect { x: 10, y: 10, w: 3, h: 3 };
    assert!(!World::overlaps_interior(&a, &side));
    assert!(World::overlaps_interior(&a, &inside));
    assert!(World::overlaps_interior(&inside, &a));
    assert!(!World::overlaps_interior(&a, &apart));
}

#[test]
fn far_enough_and_too_close() {
    let placed = vec![(true, 4, 10), (false, 4, 11)];
    assert!(!far_enough(&placed, true, 4, 12, 3));
    assert!(far_enough(&placed, true, 4, 13, 3));
    assert!(far_enough(&placed, true, 5, 10, 3));
    assert!(far_enough(&placed, false, 4, 14, 3));
    assert!(too_close(&placed, true, 4, 8));
    assert!(!too_close(&placed, true, 4, 7));
    assert!(!too_close(&Vec::new(), true, 4, 10));
}

/// Two 5-by-5 rooms side by side, sharing column 4, inside a walled grid.
fn two_rooms() -> (World, Rect, Rect) {
    let mut w = floor_world(12, 8);
    let a = Rect { x: 0, y: 1, w: 5, h: 5 };
    let b = Rect { x: 4, y: 1, w: 5, h: 5 };
    w.draw_rect_border(a.x, a.y, a.w, a.h);
    w.draw_rect_border(b.x, b.y, b.w, b.h);
    (w, a, b)
}

#[test]
fn find_door_pos_picks_the_middle_of_the_shared_wall() {
    let (w, a, b) = two_rooms();
    // candidates are rows 2, 3, 4 of column 4; the middle one is row 3
    assert_eq!(w.find_door_pos(&a, &b), Some((4, 3, true)));
    assert_eq!(w.find_door_pos(&b, &a), Some((4, 3, true)));
    let c = Rect { x: 0, y: 5, w: 5, h: 3 };
    let far = Rect { x: 9, y: 0, w: 3, h: 3 };
    assert_eq!(w.find_door_pos(&a, &far), None);
    // a and c share row 5 but there is no floor below it inside c
    let _ = w.find_door_pos(&a, &c);
}

#[test]
fn find_door_pos_avoiding_keeps_spacing() {
    let (w, a, b) = two_rooms();
    let placed = vec![(true, 4, 3)];
    assert_eq!(w.find_door_pos_avoiding(&a, &b, &placed, 3), None);
    let placed = vec![(true, 4, 4)];
    assert_eq!(w.find_door_pos_avoiding(&a, &b, &placed, 2), Some((4, 2, true)));
    assert_eq!(w.find_door_pos_avoiding(&a, &b, &Vec::new(), 3), w.find_door_pos(&a, &b));
}

#[test]
fn connect_rooms_opens_a_door_in_the_shared_wall() {
    let (mut w, a, b) = two_rooms();
    let before = w.map.clone();
    let rooms = vec![Room { rect: a, id: 0 }, Room { rect: b, id: 1 }];
    w.connect_rooms(&rooms);
    assert_eq!(w.map[3][4], TILE_DOOR);
    let changed: Vec<(usize, usize)> = (0..8)
        .flat_map(|y| (0..12).map(move |x| (x, y)))
        .filter(|&(x, y)| w.map[y][x] != before[y][x])
        .collect();
    assert_eq!(changed, vec![(4, 3)]);
}

#[test]
fn connect_rooms_changes_only_walls_into_doors() {
    let mut w = floor_world(20, 20);
    let mut rooms = Vec::new();
    w.recursive_slice(1, 1, 17, 17, &mut rooms);
    for r in rooms.iter() {
        w.draw_rect_border(r.rect.x, r.rect.y, r.rect.w, r.rect.h);
    }
    let before = w.map.clone();
    w.connect_rooms(&rooms);
    for y in 0..20 {
        for x in 0..20 {
            if w.map[y][x] != before[y][x] {
                assert_eq!(before[y][x], TILE_WALL);
                assert_eq!(w.map[y][x], TILE_DOOR);
                let across_col = before[y][x - 1] == TILE_FLOOR && before[y][x + 1] == TILE_FLOOR;
                let across_row = before[y - 1][x] == TILE_FLOOR && before[y + 1][x] == TILE_FLOOR;
                assert!(across_col || across_row);
            }
        }
    }
    if rooms.len() > 1 {
        assert!(count(&w, TILE_DOOR) >= 1);
    }
}

#[test]
fn recursive_slice_cuts_small_rooms_inside_the_rectangle() {
    let w = World::new(30, 30);
    let mut rooms = vec![Room { rect: Rect { x: 0, y: 0, w: 1, h: 1 }, id: 0 }];
    w.recursive_slice(2, 3, 20, 17, &mut rooms);
    assert!(rooms.len() > 1);
    for (i, r) in rooms.iter().enumerate().skip(1) {
        assert_eq!(r.id, i);
        assert!(r.rect.x >= 2 && r.rect.x + r.rect.w <= 22);
        assert!(r.rect.y >= 3 && r.rect.y + r.rect.h <= 20);
        assert!(r.rect.w < 2 * MIN_DIM - 1 && r.rect.h < 2 * MIN_DIM - 1);
        assert!(r.rect.w >= MIN_DIM && r.rect.h >= MIN_DIM);
    }
}

#[test]
fn recursive_slice_keeps_a_small_rectangle_whole() {
    let w = World::new(10, 10);
    let mut rooms = Vec::new();
    w.recursive_slice(1, 1, 8, 3, &mut rooms);
    assert_eq!(rooms.len(), 1);
    assert_eq!((rooms[0].rect.x, rooms[0].rect.y, rooms[0].rect.w, rooms[0].rect.h), (1, 1, 8, 3));
    assert_eq!(rooms[0].id, 0);
}

#[test]
fn gen_footprint_on_the_standard_grid_is_the_core() {
    let w = World::new(MAP_WIDTH, MAP_HEIGHT);
    for _ in 0..20 {
        let fp = w.gen_footprint();
        assert_eq!(fp.len(), 1);
        assert_eq!((fp[0].x, fp[0].y, fp[0].w, fp[0].h), (5, 5, 10, 10));
    }
}

#[test]
fn gen_footprint_wings_stay_inside_and_apart() {
    let w = World::new(60, 50);
    for _ in 0..50 {
        let fp = w.gen_footprint();
        assert!(!fp.is_empty() && fp.len() <= 4);
        assert_eq!((fp[0].w, fp[0].h), (10, 10));
        assert!(fp[0].x >= 5 && fp[0].y >= 5 && fp[0].x + 10 <= 60 && fp[0].y + 10 <= 50);
        for r in fp.iter().skip(1) {
            assert!(r.x > 0 && r.y > 0 && r.x + r.w < 60 && r.y + r.h < 50);
            assert!((7..=10).contains(&r.w) && (7..=10).contains(&r.h));
        }
        for i in 0..fp.len() {
            for j in i + 1..fp.len() {
                assert!(!World::overlaps_interior(&fp[i], &fp[j]));
            }
        }
    }
}

#[test]
fn place_outer_entrance_opens_one_door_in_the_outline() {
    let mut w = floor_world(12, 12);
    let fp = vec![Rect { x: 2, y: 2, w: 6, h: 6 }];
    w.draw_rect_border(2, 2, 6, 6);
    let before = w.map.clone();
    w.place_outer_entrance(&fp);
    let changed: Vec<(usize, usize)> = (0..12)
        .flat_map(|y| (0..12).map(move |x| (x, y)))
        .filter(|&(x, y)| w.map[y][x] != before[y][x])
        .collect();
    assert_eq!(changed.len(), 1);
    let (x, y) = changed[0];
    assert_eq!(w.map[y][x], TILE_DOOR);
    let on_side = ((3..7).contains(&x) && (y == 2 || y == 7)) || ((3..7).contains(&y) && (x == 2 || x == 7));
    assert!(on_side);
}

#[test]
fn place_outer_entrance_without_spot_changes_nothing() {
    let mut w = World::new(10, 10);
    let fp = vec![Rect { x: 2, y: 2, w: 5, h: 5 }];
    let before = w.map.clone();
    w.place_outer_entrance(&fp);
    assert_eq!(w.map, before);
}

#[test]
fn place_hub_marks_the_last_largest_room() {
    let mut w = floor_world(20, 20);
    let rooms = vec![
        Room { rect: Rect { x: 0, y: 0, w: 4, h: 4 }, id: 0 },
        Room { rect: Rect { x: 5, y: 0, w: 2, h: 8 }, id: 1 },
        Room { rect: Rect { x: 10, y: 10, w: 3, h: 3 }, id: 2 },
    ];
    w.place_hub(&rooms);
    assert_eq!(count(&w, TILE_HUB), 1);
    assert_eq!(w.map[4][6], TILE_HUB);
}

#[test]
fn place_hub_without_rooms_changes_nothing() {
    let mut w = floor_world(5, 5);
    let before = w.map.clone();
    w.place_hub(&[]);
    assert_eq!(w.map, before);
}

#[test]
fn generate_builds_a_plan_with_one_hub_and_two_exits() {
    for (width, height) in [(MAP_WIDTH, MAP_HEIGHT), (15, 15), (45, 40)] {
        for _ in 0..10 {
            let mut w = World::new(width, height);
            w.generate();
            assert_eq!((w.width, w.height), (width, height));
            assert_eq!(w.map.len(), height);
            assert!(w.map.iter().all(|row| row.len() == width));
            assert_eq!(count(&w, TILE_HUB), 1);
            assert_eq!(count(&w, TILE_EXIT), 2);
            assert!(w.map.iter().flatten().all(|&c| c == TILE_FLOOR
                || c == TILE_WALL
                || c == TILE_DOOR
                || c == TILE_HUB
                || c == TILE_EXIT));
        }
    }
}

#[test]
fn generate_on_the_standard_grid_walls_the_core() {
    for _ in 0..10 {
        let mut w = World::new(MAP_WIDTH, MAP_HEIGHT);
        w.generate();
        for y in 0..MAP_HEIGHT {
            for x in 0..MAP_WIDTH {
                let inside = (5..15).contains(&x) && (5..15).contains(&y);
                let outline = inside && (x == 5 || x == 14 || y == 5 || y == 14);
                if !inside {
                    let t = w.map[y][x];
                    assert!(t == TILE_FLOOR || t == TILE_EXIT, "outside at ({}, {})", x, y);
                }
                if outline {
                    assert!(w.map[y][x] == TILE_WALL || w.map[y][x] == TILE_DOOR);
                }
            }
        }
    }
}

#[test]
fn connect_rooms_gives_every_linked_room_a_door() {
    for _ in 0..20 {
        let mut w = floor_world(30, 30);
        let mut rooms = Vec::new();
        w.recursive_slice(2, 2, 25, 24, &mut rooms);
        for r in rooms.iter() {
            w.draw_rect_border(r.rect.x, r.rect.y, r.rect.w, r.rect.h);
        }
        let linked: Vec<bool> = (0..rooms.len())
            .map(|v| {
                (0..rooms.len()).any(|u| {
                    u != v && w.find_door_pos(&rooms[u.min(v)].rect, &rooms[u.max(v)].rect).is_some()
                })
            })
            .collect();
        w.connect_rooms(&rooms);
        for (v, r) in rooms.iter().enumerate() {
            if !linked[v] {
                continue;
            }
            let (x0, y0, x1, y1) = (r.rect.x, r.rect.y, r.rect.x + r.rect.w - 1, r.rect.y + r.rect.h - 1);
            let mut has_door = false;
            for y in y0..=y1 {
                for x in x0..=x1 {
                    let on_outline = x == x0 || x == x1 || y == y0 || y == y1;
                    if on_outline && w.map[y][x] == TILE_DOOR {
                        has_door = true;
                    }
                }
            }
            assert!(has_door, "room {} has no door", v);
        }
    }
}

#[test]
fn pick_two_skips_the_first_pick() {
    assert_eq!(pick_two(2, 0, 0), (0, 1));
    assert_eq!(pick_two(2, 1, 0), (1, 0));
    assert_eq!(pick_two(5, 7, 3), (2, 4));
    assert_eq!(pick_two(5, 7, 1), (2, 1));
    assert_eq!(pick_two(5, 4, 3), (4, 3));
    assert_eq!(pick_two(10, 13, 12), (3, 4));
}

#[test]
fn place_exits_marks_two_floor_tiles_outside_the_footprint() {
    for _ in 0..20 {
        let mut w = floor_world(8, 6);
        let fp = vec![Rect { x: 1, y: 1, w: 5, h: 4 }];
        w.draw_rect_border(1, 1, 5, 4);
        w.map[0][0] = TILE_WALL;
        let before = w.map.clone();
        w.place_exits(&fp);
        let changed: Vec<(usize, usize)> = (0..6)
            .flat_map(|y| (0..8).map(move |x| (x, y)))
            .filter(|&(x, y)| w.map[y][x] != before[y][x])
            .collect();
        assert_eq!(changed.len(), 2);
        for &(x, y) in &changed {
            assert_eq!(w.map[y][x], TILE_EXIT);
            assert_eq!(before[y][x], TILE_FLOOR);
            let inside = (1..6).contains(&x) && (1..5).contains(&y);
            assert!(!inside);
        }
    }
}

#[test]
fn place_exits_with_one_spot_changes_nothing() {
    let mut w = World::new(6, 6);
    w.map[0][3] = TILE_FLOOR;
    w.map[2][2] = TILE_FLOOR;
    let fp = vec![Rect { x: 1, y: 1, w: 4, h: 4 }];
    let before = w.map.clone();
    w.place_exits(&fp);
    assert_eq!(w.map, before);
}

#[test]
fn gen_footprint_up_to_21_tiles_is_the_core_at_five_five() {
    for side in [15, 18, 21] {
        let w = World::new(side, side);
        for _ in 0..20 {
            let fp = w.gen_footprint();
            assert_eq!(fp.len(), 1);
            assert_eq!((fp[0].x, fp[0].y, fp[0].w, fp[0].h), (5, 5, 10, 10));
        }
    }
}

#[test]
fn gen_footprint_on_small_grids_is_the_core_alone() {
    for (width, height) in [(10, 10), (3, 40), (40, 12), (0, 0)] {
        let w = World::new(width, height);
        for _ in 0..20 {
            let fp = w.gen_footprint();
            assert_eq!(fp.len(), 1);
            assert_eq!((fp[0].w, fp[0].h), (10, 10));
            assert!(fp[0].x >= 5 && fp[0].y >= 5);
            if width < 22 {
                assert_eq!(fp[0].x, 5);
            }
            if height < 22 {
                assert_eq!(fp[0].y, 5);
            }
        }
    }
    // every try is drawn and refused: no wing fits beside a core that overhangs
    let w = World::new(10, 10);
    let tries: Vec<(usize, usize, usize, usize)> = (0..40).map(|i| (i, i, i, i)).collect();
    let fp = w.footprint_from_draws(7, 9, 2, &tries);
    let got: Vec<_> = fp.iter().map(rect_tuple).collect();
    assert_eq!(got, vec![(5, 5, 10, 10)]);
}

#[test]
fn core_offset_is_five_plus_the_draw_modulo_the_span() {
    assert_eq!(core_offset(15, 123), 5);
    assert_eq!(core_offset(21, 7), 5);
    assert_eq!(core_offset(22, 7), 6);
    assert_eq!(core_offset(22, 8), 5);
    assert_eq!(core_offset(30, 17), 5 + 17 % 10);
    assert_eq!(core_offset(0, 9), 5);
}

#[test]
fn wing_rect_centres_the_wing_on_the_side() {
    let p = Rect { x: 5, y: 5, w: 10, h: 10 };
    let r = wing_rect(p, 0, 8, 7).unwrap();
    assert_eq!((r.x, r.y, r.w, r.h), (14, 7, 8, 7));
    let r = wing_rect(p, 2, 10, 7).unwrap();
    assert_eq!((r.x, r.y, r.w, r.h), (5, 14, 10, 7));
    let q = Rect { x: 10, y: 10, w: 10, h: 10 };
    let r = wing_rect(q, 1, 7, 9).unwrap();
    assert_eq!((r.x, r.y, r.w, r.h), (4, 11, 7, 9));
    let r = wing_rect(q, 3, 7, 7).unwrap();
    assert_eq!((r.x, r.y, r.w, r.h), (12, 4, 7, 7));
    // no room left of or above a core five tiles in
    assert!(wing_rect(p, 1, 7, 7).is_none());
    assert!(wing_rect(p, 3, 7, 7).is_none());
    assert!(wing_rect(Rect { x: 1, y: 1, w: 7, h: 7 }, 0, 7, 10).is_none());
}

#[test]
fn try_wing_adds_the_wing_the_draws_ask_for() {
    let w = World::new(40, 40);
    let mut rects = vec![Rect { x: 5, y: 5, w: 10, h: 10 }];
    // parent 0, right side, 7 + 1 wide, 7 + 2 high
    assert!(w.try_wing(&mut rects, 3, 4, 1, 6));
    assert_eq!(rects.len(), 2);
    assert_eq!((rects[1].x, rects[1].y, rects[1].w, rects[1].h), (14, 6, 8, 9));
    // the same wing again overlaps the first one
    assert!(!w.try_wing(&mut rects, 2, 0, 1, 2));
    assert_eq!(rects.len(), 2);
    // left of the core: no room before the first column
    assert!(!w.try_wing(&mut rects, 0, 1, 0, 0));
    // above the core: no room before the first row
    assert!(!w.try_wing(&mut rects, 0, 3, 0, 0));
    // below the core, off the bottom of a 20 by 20 grid
    let small = World::new(20, 20);
    let mut core = vec![Rect { x: 5, y: 5, w: 10, h: 10 }];
    assert!(!small.try_wing(&mut core, 0, 2, 0, 0));
    assert_eq!(core.len(), 1);
    // below the core on the larger grid
    assert!(w.try_wing(&mut rects, 0, 2, 3, 3));
    assert_eq!((rects[2].x, rects[2].y, rects[2].w, rects[2].h), (5, 14, 10, 10));
}

#[test]
fn split_point_and_pick_index() {
    assert_eq!(split_point(9, 0), 5);
    assert_eq!(split_point(9, 7), 5);
    assert_eq!(split_point(10, 1), 6);
    assert_eq!(split_point(10, 2), 5);
    assert_eq!(split_point(14, 3), 8);
    assert_eq!(split_point(14, 6), 5);
    assert_eq!(MIN_DIM, 5);
    assert_eq!(pick_index(1, 99), 0);
    assert_eq!(pick_index(7, 15), 1);
}

fn grid_of_four() -> (World, Vec<Room>) {
    let mut w = World::new(9, 9);
    for r in 0..9 {
        for c in 0..9 {
            w.map[r][c] = if r % 4 == 0 || c % 4 == 0 { TILE_WALL } else { TILE_FLOOR };
        }
    }
    let room = |x: usize, y: usize, id: usize| Room { rect: Rect { x, y, w: 5, h: 5 }, id };
    let rooms = vec![room(0, 0, 0), room(4, 0, 1), room(0, 4, 2), room(4, 4, 3)];
    (w, rooms)
}

#[test]
fn connect_rooms_opens_one_door_per_breadth_first_edge() {
    let (mut w, rooms) = grid_of_four();
    let before = w.map.clone();
    w.connect_rooms(&rooms);
    assert_eq!(w.map[2][4], TILE_DOOR);
    assert_eq!(w.map[4][2], TILE_DOOR);
    assert_eq!(w.map[4][6], TILE_DOOR);
    assert_eq!(w.map[6][4], TILE_WALL);
    let changed = (0..9)
        .flat_map(|r| (0..9).map(move |c| (r, c)))
        .filter(|&(r, c)| w.map[r][c] != before[r][c])
        .count();
    assert_eq!(changed, 3);
    assert_eq!((w.width, w.height), (9, 9));
}

#[test]
fn connect_rooms_is_the_same_on_the_same_input() {
    let (mut w1, rooms) = grid_of_four();
    let (mut w2, _) = grid_of_four();
    w1.connect_rooms(&rooms);
    w2.connect_rooms(&rooms);
    assert_eq!(w1.map, w2.map);
}

fn long_wall() -> (World, Rect, Rect) {
    let mut w = floor_world(9, 12);
    let a = Rect { x: 0, y: 0, w: 5, h: 12 };
    let b = Rect { x: 4, y: 0, w: 5, h: 12 };
    w.draw_rect_border(a.x, a.y, a.w, a.h);
    w.draw_rect_border(b.x, b.y, b.w, b.h);
    (w, a, b)
}

#[test]
fn link_room_keeps_the_spot_when_it_is_far_enough() {
    let (mut w, a, b) = long_wall();
    let mut placed = vec![(true, 4, 9)];
    let d = w.link_room(&a, &b, &mut placed, (4, 5, true));
    assert_eq!(d, (4, 5, true));
    assert_eq!(w.map[5][4], TILE_DOOR);
    assert_eq!(placed, vec![(true, 4, 9), (true, 4, 5)]);
}

#[test]
fn link_room_moves_a_door_that_stands_too_close() {
    let (mut w, a, b) = long_wall();
    let mut placed = vec![(true, 4, 6)];
    let d = w.link_room(&a, &b, &mut placed, (4, 5, true));
    // rows 1, 2, 3, 9 and 10 keep three tiles from row 6; the middle one is row 3
    assert_eq!(d, (4, 3, true));
    assert_eq!(w.map[3][4], TILE_DOOR);
    assert_eq!(w.map[5][4], TILE_WALL);
    assert_eq!(placed, vec![(true, 4, 6), (true, 4, 3)]);
}

#[test]
fn link_room_keeps_the_spot_when_no_spaced_spot_exists() {
    let (mut w, a, b) = long_wall();
    let mut placed: Vec<(bool, usize, usize)> = (1..11).map(|y| (true, 4, y)).collect();
    let d = w.link_room(&a, &b, &mut placed, (4, 5, true));
    assert_eq!(d, (4, 5, true));
    assert_eq!(w.map[5][4], TILE_DOOR);
    assert_eq!(placed.len(), 11);
}

#[test]
fn generate_on_the_standard_grid_opens_one_outer_entrance() {
    for _ in 0..20 {
        let mut w = World::new(MAP_WIDTH, MAP_HEIGHT);
        w.generate();
        let mut entrances = 0;
        for i in 6..14 {
            for &(x, y) in &[(i, 5), (i, 14), (5, i), (14, i)] {
                if w.map[y][x] == TILE_DOOR {
                    entrances += 1;
                }
            }
        }
        assert_eq!(entrances, 1);
    }
}

fn rect_tuple(r: &Rect) -> (usize, usize, usize, usize) {
    (r.x, r.y, r.w, r.h)
}

#[test]
fn footprint_from_draws_follows_the_tries_until_the_target() {
    let w = World::new(40, 40);
    // two wings wanted (1 + 1 % 3); the second try repeats the first wing and
    // overlaps it; the fourth try would fit but comes after the target
    let tries = vec![(0, 0, 1, 6), (0, 0, 1, 2), (0, 2, 3, 3), (0, 3, 0, 0), (0, 3, 0, 0)];
    let fp = w.footprint_from_draws(0, 0, 1, &tries);
    let got: Vec<_> = fp.iter().map(rect_tuple).collect();
    assert_eq!(got, vec![(5, 5, 10, 10), (14, 6, 8, 9), (5, 14, 10, 10)]);
    // with only the first try, one wing
    let fp = w.footprint_from_draws(3, 4, 1, &tries[..1].to_vec());
    let got: Vec<_> = fp.iter().map(rect_tuple).collect();
    assert_eq!(got, vec![(8, 9, 10, 10), (17, 10, 8, 9)]);
    // no tries: the core alone
    let fp = w.footprint_from_draws(0, 0, 2, &Vec::new());
    assert_eq!(fp.len(), 1);
}

#[test]
fn recursive_slice_rooms_share_their_walls() {
    let w = World::new(30, 30);
    for _ in 0..20 {
        let mut rooms = Vec::new();
        w.recursive_slice(2, 3, 20, 17, &mut rooms);
        for r in &rooms {
            let r = r.rect;
            assert!(r.x == 2 || rooms.iter().any(|q| q.rect.x + q.rect.w - 1 == r.x));
            assert!(r.x + r.w == 22 || rooms.iter().any(|q| q.rect.x == r.x + r.w - 1));
            assert!(r.y == 3 || rooms.iter().any(|q| q.rect.y + q.rect.h - 1 == r.y));
            assert!(r.y + r.h == 20 || rooms.iter().any(|q| q.rect.y == r.y + r.h - 1));
        }
    }
}

/// Whether every tile but wall can be reached from every other one in steps
/// up, down, left and right over tiles that are not wall.
fn walkable_connected(w: &World) -> bool {
    let (width, height) = (w.width, w.height);
    let mut seen = vec![vec![false; width]; height];
    let mut stack = vec![(0usize, 0usize)];
    seen[0][0] = true;
    while let Some((x, y)) = stack.pop() {
        let mut next = Vec::new();
        if x > 0 {
            next.push((x - 1, y));
        }
        if y > 0 {
            next.push((x, y - 1));
        }
        if x + 1 < width {
            next.push((x + 1, y));
        }
        if y + 1 < height {
            next.push((x, y + 1));
        }
        for (nx, ny) in next {
            if !seen[ny][nx] && w.map[ny][nx] != TILE_WALL {
                seen[ny][nx] = true;
                stack.push((nx, ny));
            }
        }
    }
    (0..height).all(|y| (0..width).all(|x| w.map[y][x] == TILE_WALL || seen[y][x]))
}

#[test]
fn generate_on_larger_grids_leaves_walkable_tiles_connected() {
    for (width, height) in [(45, 40), (30, 30), (60, 25)] {
        for _ in 0..30 {
            let mut w = World::new(width, height);
            w.generate();
            assert!(walkable_connected(&w));
        }
    }
}

#[test]
fn generate_on_the_standard_grid_joins_four_rooms_with_one_entrance() {
    for _ in 0..20 {
        let mut w = World::new(MAP_WIDTH, MAP_HEIGHT);
        w.generate();
        // three doors join the four rooms of the core, one opens it
        assert_eq!(count(&w, TILE_DOOR), 4);
        assert!(walkable_connected(&w));
        // every tile but wall can be reached from every other one
        let mut seen = vec![vec![false; MAP_WIDTH]; MAP_HEIGHT];
        let mut stack = vec![(0usize, 0usize)];
        seen[0][0] = true;
        while let Some((x, y)) = stack.pop() {
            let mut next = Vec::new();
            if x > 0 {
                next.push((x - 1, y));
            }
            if y > 0 {
                next.push((x, y - 1));
            }
            if x + 1 < MAP_WIDTH {
                next.push((x + 1, y));
            }
            if y + 1 < MAP_HEIGHT {
                next.push((x, y + 1));
            }
            for (nx, ny) in next {
                if !seen[ny][nx] && w.map[ny][nx] != TILE_WALL {
                    seen[ny][nx] = true;
                    stack.push((nx, ny));
                }
            }
        }
        for y in 0..MAP_HEIGHT {
            for x in 0..MAP_WIDTH {
                assert!(w.map[y][x] == TILE_WALL || seen[y][x], "({}, {}) is cut off", x, y);
            }
        }
    }
}
