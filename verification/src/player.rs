use vstd::prelude::*;
use crate::common::{MAP_HEIGHT, MAP_WIDTH};
use crate::wfc::{in_grid, World, TILE_FLOOR, TILE_VOID, TILE_WALL};

verus! {

/// The local player's position on the grid, row first.
pub struct Player {
    pub y: usize,
    pub x: usize,
}

/// The cell at `(y, x)` was fixed to floor.
pub open spec fn is_floor(world: &World, y: int, x: int) -> bool {
    world.cell(y, x).final_type == TILE_FLOOR
}

/// `(y1, x1)` comes before `(y2, x2)` when the grid is read row by row.
pub open spec fn reads_before(y1: int, x1: int, y2: int, x2: int) -> bool {
    y1 < y2 || (y1 == y2 && x1 < x2)
}

/// The grid has a floor cell somewhere.
pub open spec fn has_floor(world: &World) -> bool {
    exists|y: int, x: int| in_grid(y, x) && is_floor(world, y, x)
}

/// A player may stand on a cell unless it is wall or void.
pub open spec fn walkable(world: &World, y: int, x: int) -> bool {
    world.cell(y, x).final_type != TILE_WALL && world.cell(y, x).final_type != TILE_VOID
}

impl Player {
    /// Places the player on the first floor cell in reading order, or in the
    /// middle of the grid when there is no floor.
    pub fn spawn(world: &World) -> (p: Self)
        ensures
            has_floor(world) ==> {
                &&& in_grid(p.y as int, p.x as int)
                &&& is_floor(world, p.y as int, p.x as int)
                &&& forall|y: int, x: int|
                    in_grid(y, x) && reads_before(y, x, p.y as int, p.x as int) ==> !is_floor(
                        world,
                        y,
                        x,
                    )
            },
            !has_floor(world) ==> p.y == MAP_HEIGHT / 2 && p.x == MAP_WIDTH / 2,
    {
        for y in 0..MAP_HEIGHT
            invariant
                forall|i: int, j: int| 0 <= i < y && 0 <= j < MAP_WIDTH ==> !is_floor(world, i, j),
        {
            for x in 0..MAP_WIDTH
                invariant
                    y < MAP_HEIGHT,
                    forall|i: int, j: int|
                        0 <= i < y && 0 <= j < MAP_WIDTH ==> !is_floor(world, i, j),
                    forall|j: int| 0 <= j < x ==> !is_floor(world, y as int, j),
            {
                if world.map[y][x].final_type == TILE_FLOOR {
                    assert(in_grid(y as int, x as int) && is_floor(world, y as int, x as int));
                    return Player { y, x };
                }
            }
        }
        Player { y: MAP_HEIGHT / 2, x: MAP_WIDTH / 2 }
    }

    /// Moves the player by `(dy, dx)` when the target lies on the grid and is
    /// walkable; says whether it moved.
    pub fn try_move(&mut self, world: &World, dy: isize, dx: isize) -> (moved: bool)
        requires
            isize::MIN <= (old(self).y as isize) + dy <= isize::MAX,
            isize::MIN <= (old(self).x as isize) + dx <= isize::MAX,
        ensures
            ({
                let ny = (old(self).y as isize) + dy;
                let nx = (old(self).x as isize) + dx;
                &&& moved == (in_grid(ny, nx) && walkable(world, ny, nx))
                &&& moved ==> final(self).y == ny && final(self).x == nx
                &&& !moved ==> *final(self) == *old(self)
            }),
    {
        let ny = self.y as isize + dy;
        let nx = self.x as isize + dx;
        if ny < 0 || ny >= MAP_HEIGHT as isize || nx < 0 || nx >= MAP_WIDTH as isize {
            return false;
        }
        let ny = ny as usize;
        let nx = nx as usize;

        let tile = world.map[ny][nx].final_type;
        if tile == TILE_WALL || tile == TILE_VOID {
            return false;
        }

        self.y = ny;
        self.x = nx;
        true
    }
}

} // verus!
