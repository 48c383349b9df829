use blind_n_scared::input::{action_for_key, Action};
use blind_n_scared::player::Player;
use blind_n_scared::common::{MAP_HEIGHT, MAP_WIDTH};
use blind_n_scared::render::{
    cell_glyph, clear_zone_holds, frame_origin, screen_cell, tile_glyph, CLEAR_RADIUS,
};
use blind_n_scared::wfc::{World, TILE_ALTAR, TILE_FLOOR, TILE_VOID, TILE_WALL};

#[test]
fn frame_origin_centres_the_player() {
    let p = Player { y: 0, x: 0 };
    assert_eq!(frame_origin(80, 24, &p), (12, 40));
    let p = Player { y: 10, x: 10 };
    assert_eq!(frame_origin(80, 24, &p), (2, 20));
    let p = Player { y: 19, x: 19 };
    assert_eq!(frame_origin(80, 24, &p), (-7, 2));
    let p = Player { y: 5, x: 7 };
    assert_eq!(frame_origin(41, 21, &p), (5, 6));
    assert_eq!(frame_origin(0, 0, &p), (-5, -14));
    // positions off the grid are framed the same way
    let p = Player { y: 1000, x: usize::MAX };
    assert_eq!(
        frame_origin(80, 24, &p),
        (12 - 1000, 40 - 2 * (usize::MAX as i128))
    );
    // the player's tile lands on the centre cell for every position
    for y in 0..MAP_HEIGHT {
        for x in 0..MAP_WIDTH {
            let p = Player { y, x };
            let (oy, ox) = frame_origin(80, 24, &p);
            assert_eq!(oy + y as i128, 12);
            assert_eq!(ox + 2 * x as i128, 40);
        }
    }
}

#[test]
fn clear_zone_is_a_disc_of_radius_three() {
    let p = Player { y: 10, x: 10 };
    assert_eq!(CLEAR_RADIUS, 3);
    assert!(clear_zone_holds(&p, 10, 10));
    assert!(clear_zone_holds(&p, 13, 10));
    assert!(clear_zone_holds(&p, 10, 7));
    assert!(clear_zone_holds(&p, 12, 12));
    assert!(!clear_zone_holds(&p, 14, 10));
    assert!(!clear_zone_holds(&p, 13, 12));
    assert!(!clear_zone_holds(&p, 12, 13));
    assert!(!clear_zone_holds(&p, 0, 0));
    let q = Player { y: 0, x: 0 };
    assert!(clear_zone_holds(&q, 2, 2));
    assert!(!clear_zone_holds(&q, 3, 1));
    assert!(!clear_zone_holds(&q, 19, 19));
}

#[test]
fn tile_glyphs() {
    assert_eq!(tile_glyph(TILE_VOID), ("  ", 232));
    assert_eq!(tile_glyph(TILE_FLOOR), ("\u{b7} ", 82));
    assert_eq!(tile_glyph(TILE_WALL), ("\u{2588}\u{2588}", 196));
    assert_eq!(tile_glyph(TILE_ALTAR), ("\u{2666} ", 135));
    assert_eq!(tile_glyph(0), ("?", 255));
    assert_eq!(tile_glyph(3), ("?", 255));
}

#[test]
fn cell_glyph_shows_the_player_on_top() {
    let mut w = World::new();
    w.map[2][3].final_type = TILE_WALL;
    let p = Player { y: 2, x: 3 };
    assert_eq!(cell_glyph(&w, &p, 2, 3), ("@ ", 226));
    assert_eq!(cell_glyph(&w, &p, 2, 4), ("?", 255));
    let q = Player { y: 0, x: 2 };
    assert_eq!(cell_glyph(&w, &q, 2, 3), ("\u{2588}\u{2588}", 196));
}

#[test]
fn cell_glyph_blanks_tiles_outside_the_clear_zone() {
    let mut w1 = World::new();
    let mut w2 = World::new();
    w1.map[15][15].final_type = TILE_WALL;
    w2.map[15][15].final_type = TILE_FLOOR;
    w1.map[2][2].final_type = TILE_ALTAR;
    let p = Player { y: 0, x: 0 };
    assert_eq!(cell_glyph(&w1, &p, 15, 15), ("  ", 232));
    assert_eq!(cell_glyph(&w2, &p, 15, 15), ("  ", 232));
    assert_eq!(cell_glyph(&w1, &p, 2, 2), ("\u{2666} ", 135));
    assert_eq!(cell_glyph(&w1, &p, 0, 4), ("  ", 232));
    assert_eq!(cell_glyph(&w1, &p, 0, 3), ("?", 255));
    for y in 0..MAP_HEIGHT {
        for x in 0..MAP_WIDTH {
            if !clear_zone_holds(&p, y, x) {
                assert_eq!(cell_glyph(&w1, &p, y, x), cell_glyph(&w2, &p, y, x));
            }
        }
    }
}

#[test]
fn keys_map_to_actions() {
    assert_eq!(action_for_key(Some('q')), Action::Quit);
    assert_eq!(action_for_key(Some('w')), Action::Move(-1, 0));
    assert_eq!(action_for_key(Some('s')), Action::Move(1, 0));
    assert_eq!(action_for_key(Some('a')), Action::Move(0, -1));
    assert_eq!(action_for_key(Some('d')), Action::Move(0, 1));
    assert_eq!(action_for_key(Some('x')), Action::Ignore);
    assert_eq!(action_for_key(Some('W')), Action::Ignore);
    assert_eq!(action_for_key(None), Action::Ignore);
}

#[test]
fn screen_cell_places_and_clips_tiles() {
    // player at (10, 10) on an 80 by 24 terminal: origin (2, 20)
    let origin = frame_origin(80, 24, &Player { y: 10, x: 10 });
    assert_eq!(screen_cell(origin, 80, 24, 10, 10), Some((13, 41)));
    assert_eq!(screen_cell(origin, 80, 24, 0, 0), Some((3, 21)));
    assert_eq!(screen_cell(origin, 80, 24, 19, 19), Some((22, 59)));
    // rows above the top and below the bottom are dropped
    assert_eq!(screen_cell((-1, 0), 80, 24, 0, 0), None);
    assert_eq!(screen_cell((-1, 0), 80, 24, 1, 0), Some((1, 1)));
    assert_eq!(screen_cell((5, 0), 80, 24, 18, 0), Some((24, 1)));
    assert_eq!(screen_cell((5, 0), 80, 24, 19, 0), None);
    // a tile needs both of its columns on the screen
    assert_eq!(screen_cell((0, -2), 80, 24, 0, 1), Some((1, 1)));
    assert_eq!(screen_cell((0, -2), 80, 24, 0, 0), None);
    assert_eq!(screen_cell((0, 0), 80, 24, 0, 39), Some((1, 79)));
    assert_eq!(screen_cell((0, 1), 80, 24, 0, 39), None);
    // nothing fits on an empty terminal
    assert_eq!(screen_cell((0, 0), 0, 0, 0, 0), None);
}
