use vstd::prelude::*;

verus! {

/// Width of the playing field, in tiles.
pub const MAP_WIDTH: usize = 20;

/// Height of the playing field, in tiles.
pub const MAP_HEIGHT: usize = 20;

/// Walkable ground; lets the eye through.
pub const TILE_FLOOR: char = ' ';

/// Impassable block (U+2588, full block); stops the eye.
pub const TILE_WALL: char = '\u{2588}';

/// A door; stops the eye when closed.
pub const TILE_DOOR: char = '/';

/// An exit, the survivors' way out.
pub const TILE_EXIT: char = 'X';

/// A room of the map, by its top-left corner and its size.
pub struct Room {
    pub x: usize,
    pub y: usize,
    pub width: usize,
    pub height: usize,
}

/// An axis-aligned rectangle of tiles: top-left corner `(x, y)`, width `w`, height `h`.
#[derive(Clone, Copy, Debug)]
pub struct Rect {
    pub x: usize,
    pub y: usize,
    pub w: usize,
    pub h: usize,
}

} // verus!
