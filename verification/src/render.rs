use vstd::prelude::*;
use crate::common::{MAP_HEIGHT, MAP_WIDTH};
use crate::player::Player;
use crate::wfc::{World, TILE_ALTAR, TILE_FLOOR, TILE_VOID, TILE_WALL};

verus! {

/// How far from the player, in tiles, the clear zone reaches.
pub const CLEAR_RADIUS: usize = 3;

/// Where the top-left tile of the grid goes on a terminal of `cols` columns and
/// `rows` rows, as `(row offset, column offset)`, so that the player's tile
/// (two terminal columns per tile) stands at the terminal's centre, row
/// `rows / 2` and column `cols / 2`, wherever the player is: the world shifts
/// around the player. Offsets are negative where the grid starts above or left
/// of the screen; they are wide enough for any position of the player.
pub fn frame_origin(cols: u16, rows: u16, player: &Player) -> (o: (i128, i128))
    ensures
        o.0 == rows / 2 - player.y,
        o.1 == cols / 2 - 2 * player.x,
        o.0 + player.y == rows / 2,
        o.1 + 2 * player.x == cols / 2,
{
    let oy = (rows / 2) as i128 - player.y as i128;
    let ox = (cols / 2) as i128 - 2 * (player.x as i128);
    (oy, ox)
}

/// The terminal row of grid row `y` for the frame origin row `oy`: rows are
/// counted from 1, one per grid row.
pub open spec fn screen_row(oy: int, y: int) -> int {
    oy + y + 1
}

/// The terminal column of grid column `x` for the frame origin column `ox`:
/// columns are counted from 1, two per grid column.
pub open spec fn screen_col(ox: int, x: int) -> int {
    ox + 2 * x + 1
}

/// Where the tile at row `y`, column `x` is drawn for the frame origin
/// `origin`, as `(row, column)` on the terminal counted from 1; `None` when it
/// falls off a terminal of `cols` columns and `rows` rows, its two columns
/// included.
pub fn screen_cell(origin: (i128, i128), cols: u16, rows: u16, y: usize, x: usize) -> (p: Option<(u16, u16)>)
    requires
        -0x1_0000_0000_0000_0000_0000 <= origin.0 <= 0x1_0000_0000_0000_0000_0000,
        -0x1_0000_0000_0000_0000_0000 <= origin.1 <= 0x1_0000_0000_0000_0000_0000,
    ensures
        p is Some <==> {
            &&& 1 <= screen_row(origin.0 as int, y as int) <= rows
            &&& 1 <= screen_col(origin.1 as int, x as int)
            &&& screen_col(origin.1 as int, x as int) + 1 <= cols
        },
        p matches Some((r, c)) ==> r == screen_row(origin.0 as int, y as int) && c == screen_col(
            origin.1 as int,
            x as int,
        ),
{
    let row = origin.0 + y as i128 + 1;
    let col = origin.1 + 2 * (x as i128) + 1;
    if row < 1 || row > rows as i128 || col < 1 || col + 1 > cols as i128 {
        None
    } else {
        Some((row as u16, col as u16))
    }
}

/// The distance between two coordinates.
pub open spec fn dist(a: int, b: int) -> int {
    if a >= b {
        a - b
    } else {
        b - a
    }
}

/// The tile at row `y`, column `x` lies in the clear zone around the player:
/// within `CLEAR_RADIUS` of the player's tile, measured as a straight line.
pub open spec fn in_clear_zone(player: Player, y: int, x: int) -> bool {
    let dy = dist(y, player.y as int);
    let dx = dist(x, player.x as int);
    dy * dy + dx * dx <= CLEAR_RADIUS * CLEAR_RADIUS
}

/// Whether the tile at row `y`, column `x` lies in the clear zone around the
/// player.
pub fn clear_zone_holds(player: &Player, y: usize, x: usize) -> (b: bool)
    ensures
        b == in_clear_zone(*player, y as int, x as int),
{
    let dy = if y >= player.y { y - player.y } else { player.y - y };
    let dx = if x >= player.x { x - player.x } else { player.x - x };
    if dy > CLEAR_RADIUS || dx > CLEAR_RADIUS {
        assert(dy * dy + dx * dx > CLEAR_RADIUS * CLEAR_RADIUS) by (nonlinear_arith)
            requires
                dy > CLEAR_RADIUS || dx > CLEAR_RADIUS,
                CLEAR_RADIUS == 3,
        ;
        return false;
    }
    assert(dy * dy <= 9 && dx * dx <= 9) by (nonlinear_arith)
        requires
            dy <= 3,
            dx <= 3,
    ;
    dy * dy + dx * dx <= CLEAR_RADIUS * CLEAR_RADIUS
}

/// The symbol and the 256-colour palette index that show a tile: blank for
/// void, a dot for floor, a block for wall, a diamond for altar, `?` otherwise.
pub open spec fn glyph_of(tile: u8) -> (Seq<char>, u8) {
    if tile == TILE_VOID {
        ("  "@, 232u8)
    } else if tile == TILE_FLOOR {
        ("\u{b7} "@, 82u8)
    } else if tile == TILE_WALL {
        ("\u{2588}\u{2588}"@, 196u8)
    } else if tile == TILE_ALTAR {
        ("\u{2666} "@, 135u8)
    } else {
        ("?"@, 255u8)
    }
}

/// The symbol and the 256-colour palette index that show a tile.
pub fn tile_glyph(tile: u8) -> (g: (&'static str, u8))
    ensures
        (g.0@, g.1) == glyph_of(tile),
{
    if tile == TILE_VOID {
        ("  ", 232)
    } else if tile == TILE_FLOOR {
        ("\u{b7} ", 82)
    } else if tile == TILE_WALL {
        ("\u{2588}\u{2588}", 196)
    } else if tile == TILE_ALTAR {
        ("\u{2666} ", 135)
    } else {
        ("?", 255)
    }
}

/// What the blackness outside the clear zone is drawn with.
pub open spec fn void_glyph() -> (Seq<char>, u8) {
    ("  "@, 232u8)
}

/// How the tile at row `y`, column `x` is shown: the player's mark where the
/// player stands; inside the clear zone, the glyph of the tile the cell was
/// fixed to; outside it, blackness, whatever the tile.
pub open spec fn shown(world: World, player: Player, y: int, x: int) -> (Seq<char>, u8) {
    if player.y == y && player.x == x {
        ("@ "@, 226u8)
    } else if in_clear_zone(player, y, x) {
        glyph_of(world.cell(y, x).final_type)
    } else {
        void_glyph()
    }
}

/// Outside the clear zone a tile is drawn as blackness, so no two worlds can
/// be told apart there: what lies beyond the clear zone does not show.
pub proof fn lemma_void_hides_tiles(w1: World, w2: World, player: Player, y: int, x: int)
    requires
        !in_clear_zone(player, y, x),
    ensures
        shown(w1, player, y, x) == void_glyph(),
        shown(w1, player, y, x) == shown(w2, player, y, x),
{
    assert(!(player.y == y && player.x == x));
}

/// How the tile at row `y`, column `x` is shown (see `shown`).
pub fn cell_glyph(world: &World, player: &Player, y: usize, x: usize) -> (g: (&'static str, u8))
    requires
        y < MAP_HEIGHT,
        x < MAP_WIDTH,
    ensures
        (g.0@, g.1) == shown(*world, *player, y as int, x as int),
{
    if player.y == y && player.x == x {
        ("@ ", 226)
    } else if clear_zone_holds(player, y, x) {
        tile_glyph(world.map[y][x].final_type)
    } else {
        ("  ", 232)
    }
}

} // verus!
