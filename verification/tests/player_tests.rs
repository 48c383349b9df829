use blind_n_scared::common::{MAP_HEIGHT, MAP_WIDTH};
use blind_n_scared::player::Player;
use blind_n_scared::wfc::{World, TILE_ALTAR, TILE_FLOOR, TILE_VOID, TILE_WALL};

fn world_of(tile: u8) -> World {
    let mut w = World::new();
    for row in w.map.iter_mut() {
        for c in row.iter_mut() {
            c.collapsed = true;
            c.final_type = tile;
            c.possible = tile;
        }
    }
    w
}

#[test]
fn spawn_takes_the_first_floor_in_reading_order() {
    let mut w = world_of(TILE_WALL);
    w.map[7][12].final_type = TILE_FLOOR;
    w.map[7][3].final_type = TILE_FLOOR;
    w.map[9][0].final_type = TILE_FLOOR;
    let p = Player::spawn(&w);
    assert_eq!((p.y, p.x), (7, 3));
}

#[test]
fn spawn_without_floor_takes_the_middle() {
    let w = world_of(TILE_VOID);
    let p = Player::spawn(&w);
    assert_eq!((p.y, p.x), (MAP_HEIGHT / 2, MAP_WIDTH / 2));
}

#[test]
fn try_move_onto_floor_and_altar() {
    let mut w = world_of(TILE_FLOOR);
    w.map[5][6].final_type = TILE_ALTAR;
    let mut p = Player { y: 5, x: 5 };
    assert!(p.try_move(&w, 0, 1));
    assert_eq!((p.y, p.x), (5, 6));
    assert!(p.try_move(&w, -1, 0));
    assert_eq!((p.y, p.x), (4, 6));
}

#[test]
fn try_move_refuses_wall_void_and_edges() {
    let mut w = world_of(TILE_FLOOR);
    w.map[1][0].final_type = TILE_WALL;
    w.map[0][1].final_type = TILE_VOID;
    let mut p = Player { y: 0, x: 0 };
    assert!(!p.try_move(&w, 1, 0));
    assert!(!p.try_move(&w, 0, 1));
    assert!(!p.try_move(&w, -1, 0));
    assert!(!p.try_move(&w, 0, -1));
    assert_eq!((p.y, p.x), (0, 0));
    let mut q = Player { y: MAP_HEIGHT - 1, x: MAP_WIDTH - 1 };
    assert!(!q.try_move(&w, 1, 0));
    assert!(!q.try_move(&w, 0, 1));
    assert_eq!((q.y, q.x), (MAP_HEIGHT - 1, MAP_WIDTH - 1));
}

#[test]
fn try_move_from_off_grid_returns_to_grid() {
    let w = world_of(TILE_FLOOR);
    let mut p = Player { y: 25, x: 3 };
    assert!(!p.try_move(&w, 1, 0));
    assert!(p.try_move(&w, -6, 0));
    assert_eq!((p.y, p.x), (19, 3));
}
