use vstd::prelude::*;
use crate::common::{MAP_HEIGHT, MAP_WIDTH};
use crate::random::{gen_range_u32, thread_rng};

verus! {

// Tile kinds of the collapse generator, one bit each, so that a set of
// candidate tiles is a bit mask.

/// Empty space outside the buildings.
pub const TILE_VOID: u8 = 1;

/// Walkable floor.
pub const TILE_FLOOR: u8 = 2;

/// Wall.
pub const TILE_WALL: u8 = 4;

/// An altar, which stands only on floor.
pub const TILE_ALTAR: u8 = 8;

/// The mask of every tile kind.
pub const ALL_TILES: u8 = 15;

/// One square of the grid: the tiles it may still become, whether it has been
/// fixed, and the tile it was fixed to.
#[derive(Clone, Copy)]
pub struct Cell {
    pub possible: u8,
    pub collapsed: bool,
    pub final_type: u8,
}

/// A grid position, row first.
#[derive(Clone, Copy)]
pub struct Coord {
    pub y: usize,
    pub x: usize,
}

/// The grid being generated and the list of positions not yet fixed.
pub struct World {
    pub map: [[Cell; MAP_WIDTH]; MAP_HEIGHT],
    pub uncollapsed: Vec<Coord>,
}

// ---------------------------------------------------------------------------
// Tiles and masks
// ---------------------------------------------------------------------------

/// The tile held by bit `i` of a mask, for `i` in `0..4`.
pub open spec fn tile_bit(i: int) -> u8 {
    if i == 0 {
        TILE_VOID
    } else if i == 1 {
        TILE_FLOOR
    } else if i == 2 {
        TILE_WALL
    } else {
        TILE_ALTAR
    }
}

/// `t` is one of the four tile kinds.
pub open spec fn is_tile(t: u8) -> bool {
    t == TILE_VOID || t == TILE_FLOOR || t == TILE_WALL || t == TILE_ALTAR
}

/// Every bit of `a` is set in `b`.
pub open spec fn mask_within(a: u8, b: u8) -> bool {
    a & b == a
}

/// The tiles that may stand next to a tile `t`, as a mask: floor beside an
/// altar; wall, floor or altar (14) beside floor; void, floor or wall (7) beside
/// wall; void or wall (5) beside void; nothing beside anything else.
pub open spec fn neighbors_of(t: u8) -> u8 {
    if t == TILE_ALTAR {
        TILE_FLOOR
    } else if t == TILE_FLOOR {
        14u8
    } else if t == TILE_WALL {
        7u8
    } else if t == TILE_VOID {
        5u8
    } else {
        0u8
    }
}

/// The number of one bits of `n`.
pub open spec fn ones(n: nat) -> nat
    decreases n,
{
    if n == 0 {
        0
    } else {
        n % 2 + ones(n / 2)
    }
}

/// The tile that a `choice` (counted from zero) among the tiles of `possible`
/// names, scanning the tile bits upward from bit `i`; `0` when fewer tiles remain.
pub open spec fn select_tile(possible: u8, choice: int, i: int) -> u8
    decreases 4 - i,
{
    if i < 0 || i >= 4 {
        0u8
    } else if possible & tile_bit(i) != 0 {
        if choice == 0 {
            tile_bit(i)
        } else {
            select_tile(possible, choice - 1, i + 1)
        }
    } else {
        select_tile(possible, choice, i + 1)
    }
}

/// `t` is a tile that a random pick among the tiles of `possible` may give:
/// the pick ranges over all `ones(possible)` one bits.
pub open spec fn picked_from(possible: u8, t: u8) -> bool {
    if ones(possible as nat) == 0 {
        t == 0
    } else {
        exists|c: int| 0 <= c < ones(possible as nat) && t == select_tile(possible, c, 0)
    }
}

proof fn lemma_ones_bound(n: nat)
    ensures
        ones(n) <= n,
        n > 0 ==> ones(n) > 0,
    decreases n,
{
    if n > 0 {
        lemma_ones_bound(n / 2);
    }
}

proof fn lemma_select_within(possible: u8, choice: int, i: int)
    ensures
        select_tile(possible, choice, i) == 0u8 || (is_tile(select_tile(possible, choice, i))
            && mask_within(select_tile(possible, choice, i), possible)),
    decreases 4 - i,
{
    if 0 <= i < 4 {
        lemma_select_within(possible, choice - 1, i + 1);
        lemma_select_within(possible, choice, i + 1);
        assert(possible & 1u8 != 0 ==> 1u8 & possible == 1u8) by (bit_vector);
        assert(possible & 2u8 != 0 ==> 2u8 & possible == 2u8) by (bit_vector);
        assert(possible & 4u8 != 0 ==> 4u8 & possible == 4u8) by (bit_vector);
        assert(possible & 8u8 != 0 ==> 8u8 & possible == 8u8) by (bit_vector);
    }
}

/// A tile picked from `possible` is `0` or one of its tiles.
pub proof fn lemma_picked_within(possible: u8, t: u8)
    requires
        picked_from(possible, t),
    ensures
        t == 0u8 || (is_tile(t) && mask_within(t, possible)),
{
    if ones(possible as nat) > 0 {
        let c = choose|c: int| 0 <= c < ones(possible as nat) && t == select_tile(possible, c, 0);
        lemma_select_within(possible, c, 0);
    }
}

/// The number of tiles of `possible` at bits `i..4`.
pub open spec fn tiles_from(possible: u8, i: int) -> nat
    decreases 4 - i,
{
    if i < 0 || i >= 4 {
        0
    } else {
        (if possible & tile_bit(i) != 0 {
            1nat
        } else {
            0nat
        }) + tiles_from(possible, i + 1)
    }
}

proof fn lemma_select_nonzero(possible: u8, choice: int, i: int)
    requires
        0 <= i,
        0 <= choice < tiles_from(possible, i),
    ensures
        select_tile(possible, choice, i) != 0u8,
    decreases 4 - i,
{
    if i < 4 {
        if possible & tile_bit(i) != 0 {
            if choice != 0 {
                lemma_select_nonzero(possible, choice - 1, i + 1);
            }
        } else {
            lemma_select_nonzero(possible, choice, i + 1);
        }
    }
}

proof fn lemma_ones_is_tile_count(possible: u8)
    requires
        mask_within(possible, ALL_TILES),
    ensures
        ones(possible as nat) == tiles_from(possible, 0),
{
    let p = possible;
    assert(p & 15u8 == p ==> p < 16) by (bit_vector);
    assert(p < 16 ==> ((p & 1u8 != 0) == (p % 2 == 1)) && ((p & 2u8 != 0) == ((p / 2) % 2 == 1))
        && ((p & 4u8 != 0) == ((p / 4) % 2 == 1)) && ((p & 8u8 != 0) == ((p / 8) % 2 == 1)))
        by (bit_vector);
    let n = p as nat;
    assert(n / 2 / 2 == n / 4 && n / 4 / 2 == n / 8 && n / 8 / 2 == n / 16);
    reveal_with_fuel(ones, 6);
    reveal_with_fuel(tiles_from, 6);
}

proof fn lemma_tiles_from_mono(possible: u8, i: int, j: int)
    requires
        0 <= i <= j,
    ensures
        tiles_from(possible, i) >= tiles_from(possible, j),
    decreases j - i,
{
    if i < j {
        lemma_tiles_from_mono(possible, i + 1, j);
    }
}

/// Counting from bit `i`, the choice that skips the tiles of `possible` below
/// bit `j` selects the tile of bit `j`.
proof fn lemma_select_reaches(possible: u8, i: int, j: int)
    requires
        0 <= i <= j < 4,
        possible & tile_bit(j) != 0,
    ensures
        select_tile(possible, tiles_from(possible, i) - tiles_from(possible, j), i) == tile_bit(j),
    decreases j - i,
{
    if i < j {
        lemma_select_reaches(possible, i + 1, j);
        lemma_tiles_from_mono(possible, i + 1, j);
    }
}

/// A choice within the tiles of `possible` from bit `i` on selects a tile at
/// bit `i` or above.
proof fn lemma_select_at_least(possible: u8, c: int, i: int)
    requires
        0 <= i < 4,
        0 <= c < tiles_from(possible, i),
    ensures
        select_tile(possible, c, i) >= tile_bit(i),
        is_tile(select_tile(possible, c, i)),
    decreases 4 - i,
{
    if !(possible & tile_bit(i) != 0 && c == 0) {
        let c2 = if possible & tile_bit(i) != 0 {
            c - 1
        } else {
            c
        };
        assert(i + 1 < 4) by {
            if i + 1 >= 4 {
                assert(tiles_from(possible, i + 1) == 0);
            }
        }
        lemma_select_at_least(possible, c2, i + 1);
    }
}

/// Different choices within the tiles of `possible` from bit `i` on select
/// different tiles.
proof fn lemma_select_injective(possible: u8, c1: int, c2: int, i: int)
    requires
        0 <= i < 4,
        0 <= c1 < c2 < tiles_from(possible, i),
    ensures
        select_tile(possible, c1, i) != select_tile(possible, c2, i),
    decreases 4 - i,
{
    assert(i + 1 < 4) by {
        if i + 1 >= 4 {
            assert(tiles_from(possible, i + 1) == 0);
        }
    }
    if possible & tile_bit(i) != 0 {
        if c1 == 0 {
            lemma_select_at_least(possible, c2 - 1, i + 1);
        } else {
            lemma_select_injective(possible, c1 - 1, c2 - 1, i + 1);
        }
    } else {
        lemma_select_injective(possible, c1, c2, i + 1);
    }
}

/// Every candidate tile of `possible` is selected by exactly one choice among
/// `0..ones(possible)`: a random pick that draws its choice uniformly from that
/// whole range gives every candidate, each with the same chance.
pub proof fn lemma_every_candidate_has_one_choice(possible: u8, t: u8)
    requires
        mask_within(possible, ALL_TILES),
        is_tile(t),
        mask_within(t, possible),
    ensures
        picked_from(possible, t),
        exists|c: int| 0 <= c < ones(possible as nat) && select_tile(possible, c, 0) == t,
        forall|c1: int, c2: int|
            0 <= c1 < ones(possible as nat) && 0 <= c2 < ones(possible as nat) && select_tile(
                possible,
                c1,
                0,
            ) == t && select_tile(possible, c2, 0) == t ==> c1 == c2,
{
    lemma_ones_is_tile_count(possible);
    let j: int = if t == 1u8 {
        0
    } else if t == 2u8 {
        1
    } else if t == 4u8 {
        2
    } else {
        3
    };
    assert(tile_bit(j) == t);
    assert(t & possible == t && (t == 1u8 || t == 2u8 || t == 4u8 || t == 8u8) ==> possible & t
        != 0) by (bit_vector);
    lemma_select_reaches(possible, 0, j);
    lemma_tiles_from_mono(possible, 0, j);
    let c = tiles_from(possible, 0) - tiles_from(possible, j);
    assert(tiles_from(possible, j) >= 1) by {
        reveal_with_fuel(tiles_from, 2);
    }
    assert(0 <= c < ones(possible as nat) && select_tile(possible, c, 0) == t);
    assert forall|c1: int, c2: int|
        0 <= c1 < ones(possible as nat) && 0 <= c2 < ones(possible as nat) && select_tile(
            possible,
            c1,
            0,
        ) == t && select_tile(possible, c2, 0) == t implies c1 == c2 by {
        if c1 < c2 {
            lemma_select_injective(possible, c1, c2, 0);
        } else if c2 < c1 {
            lemma_select_injective(possible, c2, c1, 0);
        }
    }
}

/// A tile picked from a non-empty set of candidates within the four tile kinds
/// is one of those candidates, never `0`.
pub proof fn lemma_picked_tile(possible: u8, t: u8)
    requires
        picked_from(possible, t),
        mask_within(possible, ALL_TILES),
        possible != 0,
    ensures
        is_tile(t),
        mask_within(t, possible),
{
    lemma_ones_bound(possible as nat);
    lemma_ones_is_tile_count(possible);
    let c = choose|c: int| 0 <= c < ones(possible as nat) && t == select_tile(possible, c, 0);
    lemma_select_nonzero(possible, c, 0);
    lemma_select_within(possible, c, 0);
}

/// Which tiles may stand next to a tile `t`: an altar only beside floor, floor
/// beside wall, floor or altar, wall beside void, floor or wall, void beside void
/// or wall. Anything else admits no neighbour.
pub fn allowed_neighbors(t: u8) -> (m: u8)
    ensures
        m == neighbors_of(t),
{
    if t == TILE_ALTAR {
        TILE_FLOOR
    } else if t == TILE_FLOOR {
        let m = TILE_WALL | TILE_FLOOR | TILE_ALTAR;
        assert(m == 14u8) by (bit_vector)
            requires m == 4u8 | 2u8 | 8u8;
        m
    } else if t == TILE_WALL {
        let m = TILE_VOID | TILE_FLOOR | TILE_WALL;
        assert(m == 7u8) by (bit_vector)
            requires m == 1u8 | 2u8 | 4u8;
        m
    } else if t == TILE_VOID {
        let m = TILE_VOID | TILE_WALL;
        assert(m == 5u8) by (bit_vector)
            requires m == 1u8 | 4u8;
        m
    } else {
        0
    }
}

/// Adjacency of tiles is symmetric: `a` may stand next to `b` exactly when `b`
/// may stand next to `a`.
pub proof fn lemma_allowed_symmetric(a: u8, b: u8)
    requires
        is_tile(a),
        is_tile(b),
    ensures
        (neighbors_of(a) & b != 0) == (neighbors_of(b) & a != 0),
{
    assert(2u8 & 1u8 == 0 && 2u8 & 2u8 != 0 && 2u8 & 4u8 == 0 && 2u8 & 8u8 == 0) by (bit_vector);
    assert(14u8 & 1u8 == 0 && 14u8 & 2u8 != 0 && 14u8 & 4u8 != 0 && 14u8 & 8u8 != 0)
        by (bit_vector);
    assert(7u8 & 1u8 != 0 && 7u8 & 2u8 != 0 && 7u8 & 4u8 != 0 && 7u8 & 8u8 == 0) by (bit_vector);
    assert(5u8 & 1u8 != 0 && 5u8 & 2u8 == 0 && 5u8 & 4u8 != 0 && 5u8 & 8u8 == 0) by (bit_vector);
}

/// The number of one bits of `b`.
pub fn popcount(b: u8) -> (n: u32)
    ensures
        n == ones(b as nat),
{
    let mut v: u8 = b;
    let mut n: u32 = 0;
    proof {
        lemma_ones_bound(b as nat);
    }
    while v != 0
        invariant
            n + ones(v as nat) == ones(b as nat),
            ones(b as nat) <= 255,
        decreases v,
    {
        assert(v & 1 == v % 2 && v >> 1 == v / 2) by (bit_vector);
        n = n + (v & 1) as u32;
        v = v >> 1;
    }
    n
}

/// The tile that `choice` (counted from zero) names among the tiles of
/// `possible`, scanning from the lowest bit; `0` when `possible` has fewer tiles.
pub fn nth_tile(possible: u8, choice: u32) -> (t: u8)
    ensures
        t == select_tile(possible, choice as int, 0),
{
    let mut current: u32 = 0;
    for i in 0..4u8
        invariant
            current <= choice,
            select_tile(possible, choice as int, 0) == select_tile(
                possible,
                choice - current,
                i as int,
            ),
    {
        let bit = 1u8 << i;
        assert(bit == tile_bit(i as int)) by (bit_vector)
            requires
                bit == 1u8 << i,
                i < 4,
        ;
        if possible & bit != 0 {
            if current == choice {
                return bit;
            }
            current += 1;
        }
    }
    0
}

/// Picks one tile of `possible` at random, each with the same chance; `0` when
/// `possible` is empty.
fn pick_random_tile(possible: u8) -> (t: u8)
    ensures
        picked_from(possible, t),
{
    let count = popcount(possible);
    if count == 0 {
        return 0;
    }
    let mut rng = thread_rng();
    let choice = gen_range_u32(&mut rng, 0, count);
    nth_tile(possible, choice)
}

impl Cell {
    /// A cell that may still become any tile, not fixed yet.
    pub open spec fn new_spec() -> Cell {
        Cell { possible: ALL_TILES, collapsed: false, final_type: 0 }
    }

    /// A cell that may still become any tile, not fixed yet.
    pub fn new() -> (c: Self)
        ensures
            c == Cell::new_spec(),
    {
        Cell { possible: ALL_TILES, collapsed: false, final_type: 0 }
    }
}


// ---------------------------------------------------------------------------
// Grid model
// ---------------------------------------------------------------------------

/// `(y, x)` lies on the grid.
pub open spec fn in_grid(y: int, x: int) -> bool {
    0 <= y < MAP_HEIGHT && 0 <= x < MAP_WIDTH
}

/// `(ny, nx)` is on the grid and one step up, down, left or right of `(y, x)`.
pub open spec fn adjacent(y: int, x: int, ny: int, nx: int) -> bool {
    &&& in_grid(ny, nx)
    &&& ((ny == y - 1 && nx == x) || (ny == y + 1 && nx == x) || (ny == y && nx == x - 1) || (
    ny == y && nx == x + 1))
}

/// A cell that is fixed, or whose candidates all lie within `allowed`.
pub open spec fn settled(c: Cell, allowed: u8) -> bool {
    c.collapsed || mask_within(c.possible, allowed)
}

/// How a cell may change while the grid is generated: a fixed cell stays as it
/// is, the candidates of any cell only shrink, and a cell that is still not
/// fixed keeps its tile field.
pub open spec fn cell_evolves(a: Cell, b: Cell) -> bool {
    &&& (a.collapsed ==> b == a)
    &&& mask_within(b.possible, a.possible)
    &&& (!b.collapsed ==> b.final_type == a.final_type)
}

/// If the cell went from not fixed to fixed, it was fixed to one tile kind out
/// of its candidates, which is now its only candidate.
pub open spec fn fixed_well(a: Cell, b: Cell) -> bool {
    !a.collapsed && b.collapsed ==> {
        &&& b.possible == b.final_type
        &&& is_tile(b.final_type)
        &&& mask_within(b.final_type, a.possible)
    }
}

/// If the cell went from not fixed to fixed, its only candidate is now its tile,
/// which is `0` or a tile kind that was one of its candidates.
pub open spec fn fixed_within(a: Cell, b: Cell) -> bool {
    !a.collapsed && b.collapsed ==> {
        &&& b.possible == b.final_type
        &&& is_tile(b.final_type) || b.final_type == 0
        &&& mask_within(b.final_type, a.possible)
    }
}

/// The cell's candidates are tile kinds, and a fixed cell holds its only
/// candidate: one tile kind, or `0` when it was fixed without a candidate.
pub open spec fn cell_ok(c: Cell) -> bool {
    &&& mask_within(c.possible, ALL_TILES)
    &&& (c.collapsed ==> c.possible == c.final_type && (is_tile(c.final_type) || c.final_type
        == 0))
}

/// The cell is in a state that generation keeps: a fixed cell holds its tile,
/// at most one bit, as its only candidate; a cell not fixed has the tile field
/// `0` and only tile kinds as candidates.
pub open spec fn cell_sane(c: Cell) -> bool {
    &&& c.collapsed ==> c.possible == c.final_type && ones(c.final_type as nat) <= 1
    &&& !c.collapsed ==> c.final_type == 0 && mask_within(c.possible, ALL_TILES)
}

/// The list holds `(y, x)`.
pub open spec fn lists(s: Seq<Coord>, y: int, x: int) -> bool {
    exists|i: int| 0 <= i < s.len() && s[i].y == y && s[i].x == x
}

/// No position occurs twice in the list.
pub open spec fn distinct_coords(s: Seq<Coord>) -> bool {
    forall|i: int, j: int|
        0 <= i < j < s.len() ==> !(s[i].y == s[j].y && s[i].x == s[j].x)
}

/// Every position of `s` also occurs in `t`.
pub open spec fn listed_within(s: Seq<Coord>, t: Seq<Coord>) -> bool {
    forall|i: int| 0 <= i < s.len() ==> lists(t, s[i].y as int, s[i].x as int)
}

/// `p` is the first place of `s` that holds `(y, x)`.
pub open spec fn first_at(s: Seq<Coord>, y: int, x: int, p: int) -> bool {
    &&& 0 <= p < s.len()
    &&& s[p].y == y
    &&& s[p].x == x
    &&& forall|i: int| 0 <= i < p ==> !(s[i].y == y && s[i].x == x)
}

/// `s` with its first `(y, x)` swapped out for the last entry, which is dropped
/// (a `swap_remove`); `s` itself when it does not hold `(y, x)`.
pub open spec fn remove_coord(s: Seq<Coord>, y: int, x: int) -> Seq<Coord> {
    if exists|p: int| first_at(s, y, x, p) {
        let p = choose|p: int| first_at(s, y, x, p);
        s.update(p, s.last()).drop_last()
    } else {
        s
    }
}

/// Number of unfixed cells among the first `n` of a row.
pub open spec fn row_open(row: Seq<Cell>, n: int) -> nat
    decreases n,
{
    if n <= 0 {
        0
    } else {
        row_open(row, n - 1) + if row[n - 1].collapsed {
            0nat
        } else {
            1nat
        }
    }
}

/// Number of unfixed cells among the first `m` rows.
pub open spec fn grid_open(map: Seq<[Cell; MAP_WIDTH]>, m: int) -> nat
    decreases m,
{
    if m <= 0 {
        0
    } else {
        grid_open(map, m - 1) + row_open(map[m - 1]@, MAP_WIDTH as int)
    }
}

/// Vertical step of direction `k` (up, down, left, right).
pub open spec fn dir_dy(k: int) -> int {
    if k == 0 {
        -1
    } else if k == 1 {
        1
    } else {
        0
    }
}

/// Horizontal step of direction `k` (up, down, left, right).
pub open spec fn dir_dx(k: int) -> int {
    if k == 2 {
        -1
    } else if k == 3 {
        1
    } else {
        0
    }
}

impl World {
    /// The cell at row `y`, column `x`.
    pub open spec fn cell(&self, y: int, x: int) -> Cell {
        self.map@[y]@[x]
    }

    /// The cell at `c`.
    pub open spec fn cell_at(&self, c: Coord) -> Cell {
        self.cell(c.y as int, c.x as int)
    }

    /// Every listed position lies on the grid.
    pub open spec fn listed_in_bounds(&self) -> bool {
        forall|i: int|
            0 <= i < self.uncollapsed@.len() ==> in_grid(
                self.uncollapsed@[i].y as int,
                self.uncollapsed@[i].x as int,
            )
    }

    /// The list of unfixed positions is exact: on the grid, without repeats,
    /// and it holds a position exactly when its cell is not fixed.
    pub open spec fn wf(&self) -> bool {
        &&& distinct_coords(self.uncollapsed@)
        &&& self.listed_in_bounds()
        &&& forall|y: int, x: int|
            #![trigger self.cell(y, x)]
            in_grid(y, x) ==> (self.cell(y, x).collapsed <==> !lists(self.uncollapsed@, y, x))
    }

    /// Every cell keeps only tile kinds as candidates, and every fixed cell holds
    /// one tile kind, which is its only candidate.
    pub open spec fn cells_ok(&self) -> bool {
        forall|y: int, x: int| #![trigger self.cell(y, x)] in_grid(y, x) ==> cell_ok(self.cell(y, x))
    }

    /// Every cell is in a state that generation keeps (`cell_sane`).
    pub open spec fn sane(&self) -> bool {
        forall|y: int, x: int| #![trigger self.cell(y, x)] in_grid(y, x) ==> cell_sane(self.cell(y, x))
    }

    /// Every cell of `other` is a later state of the same cell here.
    pub open spec fn evolves_to(&self, other: &World) -> bool {
        forall|y: int, x: int|
            #![trigger other.cell(y, x)]
            in_grid(y, x) ==> cell_evolves(self.cell(y, x), other.cell(y, x))
    }

    /// Every cell that `other` has fixed and this grid has not was fixed to one
    /// tile kind out of its candidates here, which is its only candidate there.
    pub open spec fn fixes_well(&self, other: &World) -> bool {
        forall|y: int, x: int|
            #![trigger other.cell(y, x)]
            in_grid(y, x) ==> fixed_well(self.cell(y, x), other.cell(y, x))
    }

    /// Every cell that `other` has fixed and this grid has not holds its tile
    /// as its only candidate there, and that tile is `0` or was a candidate here.
    pub open spec fn fixes_within(&self, other: &World) -> bool {
        forall|y: int, x: int|
            #![trigger other.cell(y, x)]
            in_grid(y, x) ==> fixed_within(self.cell(y, x), other.cell(y, x))
    }

    /// The candidates of `(ny, nx)` that may stand next to the tile of `(y, x)`.
    pub open spec fn narrowed(&self, y: int, x: int, ny: int, nx: int) -> u8 {
        self.cell(ny, nx).possible & neighbors_of(self.cell(y, x).final_type)
    }

    /// `other` is this grid with the candidates of `(ny, nx)` set to `m` and
    /// nothing else changed.
    pub open spec fn with_candidates(&self, other: &World, ny: int, nx: int, m: u8) -> bool {
        &&& other.uncollapsed@ == self.uncollapsed@
        &&& forall|i: int, j: int|
            #![trigger other.cell(i, j)]
            in_grid(i, j) ==> other.cell(i, j) == if i == ny && j == nx {
                Cell {
                    possible: m,
                    collapsed: self.cell(ny, nx).collapsed,
                    final_type: self.cell(ny, nx).final_type,
                }
            } else {
                self.cell(i, j)
            }
    }

    /// Every neighbour of `(y, x)` is fixed or keeps only tiles of `allowed`.
    pub open spec fn settled_around(&self, y: int, x: int, allowed: u8) -> bool {
        forall|ny: int, nx: int|
            #![trigger self.cell(ny, nx)]
            adjacent(y, x, ny, nx) ==> settled(self.cell(ny, nx), allowed)
    }

    /// Number of cells that are not fixed.
    pub open spec fn open_count(&self) -> nat {
        grid_open(self.map@, MAP_HEIGHT as int)
    }

    /// The number of candidates of the cell at list place `i`.
    pub open spec fn entropy(&self, i: int) -> nat {
        ones(self.cell_at(self.uncollapsed@[i]).possible as nat)
    }

    /// List place `i` is the first of those whose cell has the fewest candidates,
    /// counting only cells with at least one.
    pub open spec fn is_min_entropy(&self, i: int) -> bool {
        &&& 0 <= i < self.uncollapsed@.len()
        &&& self.entropy(i) > 0
        &&& forall|j: int|
            0 <= j < self.uncollapsed@.len() && self.entropy(j) > 0 ==> self.entropy(i)
                <= self.entropy(j)
        &&& forall|j: int| 0 <= j < i && self.entropy(j) > 0 ==> self.entropy(i) < self.entropy(j)
    }
}

/// One narrowing of a propagation from `(cy, cx)` whose tile field was `cft`:
/// the source `(sy, sx)` is the centre, with the tile `st == cft`, or a fixed
/// cell, with its tile `st`; the cell `(ny, nx)` next to it is not fixed and
/// loses candidates: it keeps `m`, those allowed next to `st`, and when one is
/// left it is fixed to it and its first listing is removed. Nothing else
/// changes.
pub open spec fn narrows_at(
    a: World,
    b: World,
    cy: int,
    cx: int,
    cft: u8,
    sy: int,
    sx: int,
    st: u8,
    ny: int,
    nx: int,
) -> bool {
    let m = a.cell(ny, nx).possible & neighbors_of(st);
    &&& in_grid(sy, sx)
    &&& adjacent(sy, sx, ny, nx)
    &&& (sy == cy && sx == cx && st == cft) || (a.cell(sy, sx).collapsed && st == a.cell(
        sy,
        sx,
    ).final_type)
    &&& !a.cell(ny, nx).collapsed
    &&& m != a.cell(ny, nx).possible
    &&& if ones(m as nat) == 1 {
        &&& b.cell(ny, nx) == Cell { possible: m, collapsed: true, final_type: m }
        &&& b.uncollapsed@ == remove_coord(a.uncollapsed@, ny, nx)
    } else {
        &&& b.cell(ny, nx) == Cell {
            possible: m,
            collapsed: false,
            final_type: a.cell(ny, nx).final_type,
        }
        &&& b.uncollapsed@ == a.uncollapsed@
    }
    &&& forall|i: int, j: int|
        #![trigger b.cell(i, j)]
        in_grid(i, j) && !(i == ny && j == nx) ==> b.cell(i, j) == a.cell(i, j)
}

/// `b` is `a` after one narrowing of a propagation from `(cy, cx)` whose tile
/// field was `cft` (`narrows_at`).
pub open spec fn narrows(a: World, b: World, cy: int, cx: int, cft: u8) -> bool {
    exists|sy: int, sx: int, st: u8, ny: int, nx: int|
        #[trigger] narrows_at(a, b, cy, cx, cft, sy, sx, st, ny, nx)
}

/// Grid `k + 1` of `trace` is grid `k` after one narrowing.
pub open spec fn narrows_in(trace: Seq<World>, k: int, cy: int, cx: int, cft: u8) -> bool {
    narrows(trace[k], trace[k + 1], cy, cx, cft)
}

/// `b` comes from `a` by a run of narrowings of a propagation from `(cy, cx)`
/// whose tile field was `cft`, none or more, one after the other.
pub open spec fn runs_to(a: World, b: World, cy: int, cx: int, cft: u8) -> bool {
    exists|trace: Seq<World>|
        {
            &&& trace.len() >= 1
            &&& trace[0] == a
            &&& trace.last() == b
            &&& forall|k: int| 0 <= k < trace.len() - 1 ==> #[trigger] narrows_in(trace, k, cy, cx, cft)
        }
}

/// `m` is `a` with the cell `(y, x)` fixed, its tile its only candidate, and
/// the first listing of `(y, x)` removed; nothing else changed.
pub open spec fn fixes_only(a: World, m: World, y: int, x: int) -> bool {
    &&& m.cell(y, x).collapsed
    &&& m.cell(y, x).possible == m.cell(y, x).final_type
    &&& m.uncollapsed@ == remove_coord(a.uncollapsed@, y, x)
    &&& forall|i: int, j: int|
        #![trigger m.cell(i, j)]
        in_grid(i, j) && !(i == y && j == x) ==> m.cell(i, j) == a.cell(i, j)
}

proof fn lemma_runs_refl(a: World, cy: int, cx: int, cft: u8)
    ensures
        runs_to(a, a, cy, cx, cft),
{
    let t = seq![a];
    assert(t.last() == a);
}

proof fn lemma_runs_step(
    a: World,
    b: World,
    cy: int,
    cx: int,
    cft: u8,
    sy: int,
    sx: int,
    st: u8,
    ny: int,
    nx: int,
)
    requires
        narrows_at(a, b, cy, cx, cft, sy, sx, st, ny, nx),
    ensures
        runs_to(a, b, cy, cx, cft),
{
    let t = seq![a, b];
    assert forall|k: int| 0 <= k < t.len() - 1 implies #[trigger] narrows_in(t, k, cy, cx, cft) by {
        assert(k == 0 && t[0] == a && t[1] == b);
    }
    assert(t.last() == b);
}

proof fn lemma_runs_trans(a: World, b: World, c: World, cy: int, cx: int, cft: u8)
    requires
        runs_to(a, b, cy, cx, cft),
        runs_to(b, c, cy, cx, cft),
    ensures
        runs_to(a, c, cy, cx, cft),
{
    let p = choose|p: Seq<World>|
        {
            &&& p.len() >= 1
            &&& p[0] == a
            &&& p.last() == b
            &&& forall|k: int| 0 <= k < p.len() - 1 ==> #[trigger] narrows_in(p, k, cy, cx, cft)
        };
    let q = choose|q: Seq<World>|
        {
            &&& q.len() >= 1
            &&& q[0] == b
            &&& q.last() == c
            &&& forall|k: int| 0 <= k < q.len() - 1 ==> #[trigger] narrows_in(q, k, cy, cx, cft)
        };
    let t = p + q.drop_first();
    assert forall|k: int| 0 <= k < t.len() - 1 implies #[trigger] narrows_in(t, k, cy, cx, cft) by {
        if k < p.len() - 1 {
            assert(narrows_in(p, k, cy, cx, cft));
            assert(t[k] == p[k] && t[k + 1] == p[k + 1]);
        } else {
            let j = k - p.len() + 1;
            assert(narrows_in(q, j, cy, cx, cft));
            assert(t[k + 1] == q[j + 1]);
            if k == p.len() - 1 {
                assert(t[k] == p.last() && q[0] == b);
            } else {
                assert(t[k] == q[j]);
            }
        }
    }
    if q.len() == 1 {
        assert(t =~= p);
    }
    assert(t[0] == a);
    assert(t.last() == c);
}

/// Along a run of narrowings, a cell fixed at the start stays as it is.
proof fn lemma_run_keeps_fixed(trace: Seq<World>, cy: int, cx: int, cft: u8, k: int, y: int, x: int)
    requires
        0 <= k < trace.len(),
        forall|j: int| 0 <= j < trace.len() - 1 ==> #[trigger] narrows_in(trace, j, cy, cx, cft),
        in_grid(y, x),
        trace[0].cell(y, x).collapsed,
    ensures
        trace[k].cell(y, x) == trace[0].cell(y, x),
    decreases k,
{
    if k > 0 {
        lemma_run_keeps_fixed(trace, cy, cx, cft, k - 1, y, x);
        assert(narrows_in(trace, k - 1, cy, cx, cft));
        let (sy, sx, st, ny, nx) = choose|sy: int, sx: int, st: u8, ny: int, nx: int|
            #[trigger] narrows_at(trace[k - 1], trace[k], cy, cx, cft, sy, sx, st, ny, nx);
        assert(trace[k].cell(y, x) == trace[k - 1].cell(y, x));
    }
}

/// A run of narrowings from a centre that was fixed to its tile field at the
/// start is a run from any other centre: its narrowings come from fixed cells.
proof fn lemma_runs_recentre(
    a: World,
    b: World,
    cy2: int,
    cx2: int,
    cft2: u8,
    cy: int,
    cx: int,
    cft: u8,
)
    requires
        runs_to(a, b, cy2, cx2, cft2),
        in_grid(cy2, cx2),
        a.cell(cy2, cx2).collapsed,
        a.cell(cy2, cx2).final_type == cft2,
    ensures
        runs_to(a, b, cy, cx, cft),
{
    let t = choose|t: Seq<World>|
        {
            &&& t.len() >= 1
            &&& t[0] == a
            &&& t.last() == b
            &&& forall|k: int| 0 <= k < t.len() - 1 ==> #[trigger] narrows_in(t, k, cy2, cx2, cft2)
        };
    assert forall|k: int| 0 <= k < t.len() - 1 implies #[trigger] narrows_in(t, k, cy, cx, cft) by {
        assert(narrows_in(t, k, cy2, cx2, cft2));
        let (sy, sx, st, ny, nx) = choose|sy: int, sx: int, st: u8, ny: int, nx: int|
            #[trigger] narrows_at(t[k], t[k + 1], cy2, cx2, cft2, sy, sx, st, ny, nx);
        lemma_run_keeps_fixed(t, cy2, cx2, cft2, k, cy2, cx2);
        assert(narrows_at(t[k], t[k + 1], cy, cx, cft, sy, sx, st, ny, nx));
    }
}

/// What the cell at `(ny, nx)` lets its neighbours keep, as seen by a
/// propagation from `(cy, cx)` whose tile field was `cft`: the tiles allowed next
/// to it when it is fixed, and next to `cft` when it is that centre; every tile
/// when it is off the grid or neither.
pub open spec fn narrowing_by(w: World, cy: int, cx: int, cft: u8, ny: int, nx: int) -> u8 {
    if in_grid(ny, nx) {
        (if w.cell(ny, nx).collapsed {
            neighbors_of(w.cell(ny, nx).final_type)
        } else {
            255u8
        }) & (if ny == cy && nx == cx {
            neighbors_of(cft)
        } else {
            255u8
        })
    } else {
        255u8
    }
}

/// The tiles that the four neighbours of `(y, x)` let it keep (see
/// `narrowing_by`).
pub open spec fn kept_bound(w: World, cy: int, cx: int, cft: u8, y: int, x: int) -> u8 {
    narrowing_by(w, cy, cx, cft, y - 1, x) & narrowing_by(w, cy, cx, cft, y + 1, x)
        & narrowing_by(w, cy, cx, cft, y, x - 1) & narrowing_by(w, cy, cx, cft, y, x + 1)
}

impl World {
    /// Every cell not fixed here keeps in `other`, of its candidates here, at
    /// least those that its neighbours in `other` let it keep, for a
    /// propagation from `(cy, cx)` whose tile field was `cft`: candidates go only
    /// by intersection with the tiles allowed next to an adjacent fixed cell or
    /// next to the centre. So a cell that `other` has fixed was narrowed down to
    /// its tile before it was fixed.
    pub open spec fn kept_from(&self, other: &World, cy: int, cx: int, cft: u8) -> bool {
        forall|y: int, x: int|
            #![trigger other.cell(y, x)]
            in_grid(y, x) && !self.cell(y, x).collapsed ==> mask_within(
                self.cell(y, x).possible & kept_bound(*other, cy, cx, cft, y, x),
                other.cell(y, x).possible,
            )
    }

    /// `kept_from` for every cell but the centre `(cy, cx)` itself: the cell that
    /// a step picks is fixed at random, the others only as propagation forces.
    pub open spec fn kept_beside(&self, other: &World, cy: int, cx: int, cft: u8) -> bool {
        forall|y: int, x: int|
            #![trigger other.cell(y, x)]
            in_grid(y, x) && !self.cell(y, x).collapsed && !(y == cy && x == cx) ==> mask_within(
                self.cell(y, x).possible & kept_bound(*other, cy, cx, cft, y, x),
                other.cell(y, x).possible,
            )
    }

    /// The cell at `(y, x)` is not fixed here and fixed in `other`.
    pub open spec fn newly_fixed(&self, other: &World, y: int, x: int) -> bool {
        in_grid(y, x) && !self.cell(y, x).collapsed && other.cell(y, x).collapsed
    }

    /// `path` leads from `(cy, cx)`, in steps between adjacent positions,
    /// through cells that `other` has fixed and this grid has not.
    pub open spec fn fixing_path(&self, other: &World, cy: int, cx: int, path: Seq<(int, int)>) -> bool {
        &&& path.len() >= 1
        &&& path[0] == (cy, cx)
        &&& forall|k: int|
            0 < k < path.len() ==> adjacent(path[k - 1].0, path[k - 1].1, path[k].0, path[k].1)
                && #[trigger] self.newly_fixed(other, path[k].0, path[k].1)
    }

    /// What `other` changed was reached from `(cy, cx)`: every cell that it
    /// fixed is at the end of a `fixing_path` from there, and every cell whose
    /// candidates it changed without fixing it lies next to `(cy, cx)` or next
    /// to a cell that it fixed.
    pub open spec fn spread_from(&self, other: &World, cy: int, cx: int) -> bool {
        &&& forall|y: int, x: int|
            #[trigger] self.newly_fixed(other, y, x) ==> exists|path: Seq<(int, int)>|
                #[trigger] self.fixing_path(other, cy, cx, path) && path.last() == (y, x)
        &&& forall|y: int, x: int|
            #![trigger other.cell(y, x)]
            in_grid(y, x) && !other.cell(y, x).collapsed && other.cell(y, x).possible != self.cell(
                y,
                x,
            ).possible ==> adjacent(cy, cx, y, x) || exists|ny: int, nx: int|
                adjacent(y, x, ny, nx) && #[trigger] self.newly_fixed(other, ny, nx)
    }

    /// `other` fixed the cell at list place `i` here to a tile picked among its
    /// candidates, every neighbour of it is fixed or kept to tiles allowed next
    /// to that tile, every other cell lost candidates only as `kept_from` says,
    /// for a propagation from that cell, and what changed was reached from it
    /// (`spread_from`): the cell was fixed first, and the rest followed from it
    /// by a run of narrowings (`runs_to`).
    pub open spec fn picked_and_spread(&self, other: &World, i: int) -> bool {
        let c = self.uncollapsed@[i];
        &&& other.cell_at(c).collapsed
        &&& picked_from(self.cell_at(c).possible, other.cell_at(c).final_type)
        &&& other.settled_around(c.y as int, c.x as int, neighbors_of(other.cell_at(c).final_type))
        &&& self.kept_beside(other, c.y as int, c.x as int, other.cell_at(c).final_type)
        &&& self.spread_from(other, c.y as int, c.x as int)
        &&& exists|mid: World|
            fixes_only(*self, mid, c.y as int, c.x as int) && #[trigger] runs_to(
                mid,
                *other,
                c.y as int,
                c.x as int,
                other.cell_at(c).final_type,
            )
    }

    /// `other` is what a `step` that made progress may leave of this grid: the
    /// listed cell with the fewest candidates (the first such) was picked and
    /// spread from, the list got shorter, and the grid evolved as a step keeps it.
    pub open spec fn stepped_to(&self, other: &World) -> bool {
        &&& exists|i: int| self.is_min_entropy(i)
        &&& forall|i: int| #[trigger] self.is_min_entropy(i) ==> self.picked_and_spread(other, i)
        &&& other.uncollapsed@.len() < self.uncollapsed@.len()
        &&& listed_within(other.uncollapsed@, self.uncollapsed@)
        &&& other.listed_in_bounds()
        &&& self.fixed_settle(other)
        &&& self.open_not_single(other)
        &&& self.wf() ==> other.wf() && self.evolves_to(other) && self.fixes_within(other)
    }

    /// Every cell that `other` has fixed and this grid has not has each of its
    /// neighbours in `other` fixed or kept to tiles allowed next to its tile.
    pub open spec fn fixed_settle(&self, other: &World) -> bool {
        forall|y: int, x: int|
            #![trigger other.cell(y, x)]
            in_grid(y, x) && !self.cell(y, x).collapsed && other.cell(y, x).collapsed
                ==> other.settled_around(y, x, neighbors_of(other.cell(y, x).final_type))
    }

    /// Every cell that `other` has not fixed and whose candidates differ from
    /// those here is not down to a single candidate.
    pub open spec fn open_not_single(&self, other: &World) -> bool {
        forall|y: int, x: int|
            #![trigger other.cell(y, x)]
            in_grid(y, x) && !other.cell(y, x).collapsed && other.cell(y, x).possible
                != self.cell(y, x).possible ==> ones(other.cell(y, x).possible as nat) != 1
    }
}

proof fn lemma_and4_within(a0: u8, a1: u8, a2: u8, a3: u8, b0: u8, b1: u8, b2: u8, b3: u8)
    requires
        a0 & b0 == a0,
        a1 & b1 == a1,
        a2 & b2 == a2,
        a3 & b3 == a3,
    ensures
        (a0 & a1 & a2 & a3) & (b0 & b1 & b2 & b3) == a0 & a1 & a2 & a3,
{
    assert((a0 & b0 == a0 && a1 & b1 == a1 && a2 & b2 == a2 && a3 & b3 == a3) ==> (a0 & a1 & a2
        & a3) & (b0 & b1 & b2 & b3) == a0 & a1 & a2 & a3) by (bit_vector);
}

proof fn lemma_kept_compose_bits(pa: u8, pb: u8, pc: u8, x: u8, y: u8, z: u8)
    requires
        (pa & y) & pb == pa & y,
        (pb & z) & pc == pb & z,
        x & y == x,
        x & z == x,
    ensures
        (pa & x) & pc == pa & x,
{
    assert(((pa & y) & pb == pa & y && (pb & z) & pc == pb & z && x & y == x && x & z == x) ==> (pa
        & x) & pc == pa & x) by (bit_vector);
}

proof fn lemma_kept_shrink_bits(pa: u8, pb: u8, x: u8, y: u8)
    requires
        (pa & y) & pb == pa & y,
        x & y == x,
    ensures
        (pa & x) & pb == pa & x,
{
    assert(((pa & y) & pb == pa & y && x & y == x) ==> (pa & x) & pb == pa & x) by (bit_vector);
}

/// What a cell lets its neighbours keep only shrinks as the grid evolves.
proof fn lemma_narrowing_mono(b: World, c: World, cy: int, cx: int, cft: u8, ny: int, nx: int)
    requires
        b.evolves_to(&c),
    ensures
        narrowing_by(c, cy, cx, cft, ny, nx) & narrowing_by(b, cy, cx, cft, ny, nx)
            == narrowing_by(c, cy, cx, cft, ny, nx),
{
    if in_grid(ny, nx) {
        assert(cell_evolves(b.cell(ny, nx), c.cell(ny, nx)));
        let p = if c.cell(ny, nx).collapsed {
            neighbors_of(c.cell(ny, nx).final_type)
        } else {
            255u8
        };
        let q = if b.cell(ny, nx).collapsed {
            neighbors_of(b.cell(ny, nx).final_type)
        } else {
            255u8
        };
        let r = if ny == cy && nx == cx {
            neighbors_of(cft)
        } else {
            255u8
        };
        assert(p & q == p) by {
            assert(p & 255u8 == p) by (bit_vector);
            assert(p & p == p) by (bit_vector);
        }
        assert(p & q == p ==> (p & r) & (q & r) == p & r) by (bit_vector);
    } else {
        assert(255u8 & 255u8 == 255u8) by (bit_vector);
    }
}

/// A centre that `b` has already fixed adds nothing to what the fixed cells
/// let their neighbours keep.
proof fn lemma_narrowing_fixed_centre(
    c: World,
    cy: int,
    cx: int,
    cft: u8,
    cy2: int,
    cx2: int,
    cft2: u8,
    ny: int,
    nx: int,
)
    requires
        (cy2 == cy && cx2 == cx && cft2 == cft) || (in_grid(cy2, cx2) && c.cell(cy2, cx2).collapsed
            && cft2 == c.cell(cy2, cx2).final_type),
    ensures
        narrowing_by(c, cy, cx, cft, ny, nx) & narrowing_by(c, cy2, cx2, cft2, ny, nx)
            == narrowing_by(c, cy, cx, cft, ny, nx),
{
    let a = narrowing_by(c, cy, cx, cft, ny, nx);
    assert(a & a == a) by (bit_vector);
    if !(cy2 == cy && cx2 == cx && cft2 == cft) && in_grid(ny, nx) {
        let p = if c.cell(ny, nx).collapsed {
            neighbors_of(c.cell(ny, nx).final_type)
        } else {
            255u8
        };
        let r = if ny == cy && nx == cx {
            neighbors_of(cft)
        } else {
            255u8
        };
        if ny == cy2 && nx == cx2 {
            assert(p == neighbors_of(cft2));
            assert((p & r) & (p & p) == p & r) by (bit_vector);
        } else {
            assert((p & r) & (p & 255u8) == p & r) by (bit_vector);
        }
    }
}

/// Keeping composes: after a propagation from `(cy, cx)` and then one from a
/// cell that was fixed by then (or from the same centre), the first bound holds.
proof fn lemma_kept_trans(
    a: World,
    b: World,
    c: World,
    cy: int,
    cx: int,
    cft: u8,
    cy2: int,
    cx2: int,
    cft2: u8,
)
    requires
        a.kept_from(&b, cy, cx, cft),
        b.kept_from(&c, cy2, cx2, cft2),
        b.evolves_to(&c),
        (cy2 == cy && cx2 == cx && cft2 == cft) || (in_grid(cy2, cx2) && b.cell(cy2, cx2).collapsed
            && cft2 == b.cell(cy2, cx2).final_type),
    ensures
        a.kept_from(&c, cy, cx, cft),
{
    if !(cy2 == cy && cx2 == cx && cft2 == cft) {
        assert(cell_evolves(b.cell(cy2, cx2), c.cell(cy2, cx2)));
    }
    assert forall|y: int, x: int| in_grid(y, x) && !a.cell(y, x).collapsed implies mask_within(
        a.cell(y, x).possible & kept_bound(c, cy, cx, cft, y, x),
        c.cell(y, x).possible,
    ) by {
        assert(cell_evolves(b.cell(y, x), c.cell(y, x)));
        assert(mask_within(
            a.cell(y, x).possible & kept_bound(b, cy, cx, cft, y, x),
            b.cell(y, x).possible,
        ));
        lemma_narrowing_mono(b, c, cy, cx, cft, y - 1, x);
        lemma_narrowing_mono(b, c, cy, cx, cft, y + 1, x);
        lemma_narrowing_mono(b, c, cy, cx, cft, y, x - 1);
        lemma_narrowing_mono(b, c, cy, cx, cft, y, x + 1);
        lemma_and4_within(
            narrowing_by(c, cy, cx, cft, y - 1, x),
            narrowing_by(c, cy, cx, cft, y + 1, x),
            narrowing_by(c, cy, cx, cft, y, x - 1),
            narrowing_by(c, cy, cx, cft, y, x + 1),
            narrowing_by(b, cy, cx, cft, y - 1, x),
            narrowing_by(b, cy, cx, cft, y + 1, x),
            narrowing_by(b, cy, cx, cft, y, x - 1),
            narrowing_by(b, cy, cx, cft, y, x + 1),
        );
        lemma_narrowing_fixed_centre(c, cy, cx, cft, cy2, cx2, cft2, y - 1, x);
        lemma_narrowing_fixed_centre(c, cy, cx, cft, cy2, cx2, cft2, y + 1, x);
        lemma_narrowing_fixed_centre(c, cy, cx, cft, cy2, cx2, cft2, y, x - 1);
        lemma_narrowing_fixed_centre(c, cy, cx, cft, cy2, cx2, cft2, y, x + 1);
        lemma_and4_within(
            narrowing_by(c, cy, cx, cft, y - 1, x),
            narrowing_by(c, cy, cx, cft, y + 1, x),
            narrowing_by(c, cy, cx, cft, y, x - 1),
            narrowing_by(c, cy, cx, cft, y, x + 1),
            narrowing_by(c, cy2, cx2, cft2, y - 1, x),
            narrowing_by(c, cy2, cx2, cft2, y + 1, x),
            narrowing_by(c, cy2, cx2, cft2, y, x - 1),
            narrowing_by(c, cy2, cx2, cft2, y, x + 1),
        );
        if b.cell(y, x).collapsed {
            lemma_kept_shrink_bits(
                a.cell(y, x).possible,
                b.cell(y, x).possible,
                kept_bound(c, cy, cx, cft, y, x),
                kept_bound(b, cy, cx, cft, y, x),
            );
        } else {
            lemma_kept_compose_bits(
                a.cell(y, x).possible,
                b.cell(y, x).possible,
                c.cell(y, x).possible,
                kept_bound(c, cy, cx, cft, y, x),
                kept_bound(b, cy, cx, cft, y, x),
                kept_bound(c, cy2, cx2, cft2, y, x),
            );
        }
    }
}

/// The neighbours of a cell next to the centre let it keep at most the tiles
/// allowed next to the centre's tile field.
proof fn lemma_bound_within_centre(w: World, cy: int, cx: int, cft: u8, y: int, x: int)
    requires
        adjacent(cy, cx, y, x),
        in_grid(cy, cx),
    ensures
        kept_bound(w, cy, cx, cft, y, x) & neighbors_of(cft) == kept_bound(w, cy, cx, cft, y, x),
{
    let a = narrowing_by(w, cy, cx, cft, y - 1, x);
    let b = narrowing_by(w, cy, cx, cft, y + 1, x);
    let c = narrowing_by(w, cy, cx, cft, y, x - 1);
    let d = narrowing_by(w, cy, cx, cft, y, x + 1);
    let m = neighbors_of(cft);
    let p = if w.cell(cy, cx).collapsed {
        neighbors_of(w.cell(cy, cx).final_type)
    } else {
        255u8
    };
    assert((p & m) & m == p & m) by (bit_vector);
    if cy == y - 1 {
        assert(a == p & m);
        assert(a & m == a ==> (a & b & c & d) & m == a & b & c & d) by (bit_vector);
    } else if cy == y + 1 {
        assert(b == p & m);
        assert(b & m == b ==> (a & b & c & d) & m == a & b & c & d) by (bit_vector);
    } else if cx == x - 1 {
        assert(c == p & m);
        assert(c & m == c ==> (a & b & c & d) & m == a & b & c & d) by (bit_vector);
    } else {
        assert(d == p & m);
        assert(d & m == d ==> (a & b & c & d) & m == a & b & c & d) by (bit_vector);
    }
}

proof fn lemma_settle_trans(a: World, b: World, c: World)
    requires
        a.fixed_settle(&b),
        b.fixed_settle(&c),
        a.open_not_single(&b),
        b.open_not_single(&c),
        b.evolves_to(&c),
    ensures
        a.fixed_settle(&c),
        a.open_not_single(&c),
{
    assert forall|y: int, x: int|
        in_grid(y, x) && !a.cell(y, x).collapsed && c.cell(y, x).collapsed implies c.settled_around(
        y,
        x,
        neighbors_of(c.cell(y, x).final_type),
    ) by {
        assert(cell_evolves(b.cell(y, x), c.cell(y, x)));
        if b.cell(y, x).collapsed {
            lemma_settled_around_evolves(b, c, y, x, neighbors_of(b.cell(y, x).final_type));
        }
    }
    assert forall|y: int, x: int|
        in_grid(y, x) && !c.cell(y, x).collapsed && c.cell(y, x).possible != a.cell(y, x).possible implies ones(
        c.cell(y, x).possible as nat,
    ) != 1 by {
        assert(cell_evolves(b.cell(y, x), c.cell(y, x)));
    }
}

proof fn lemma_kept_refl(w: World, cy: int, cx: int, cft: u8)
    ensures
        w.kept_from(&w, cy, cx, cft),
{
    assert forall|y: int, x: int| in_grid(y, x) && !w.cell(y, x).collapsed implies mask_within(
        w.cell(y, x).possible & kept_bound(w, cy, cx, cft, y, x),
        w.cell(y, x).possible,
    ) by {
        lemma_mask_facts(w.cell(y, x).possible, kept_bound(w, cy, cx, cft, y, x), 0);
    }
}

proof fn lemma_spread_refl(w: World, cy: int, cx: int)
    ensures
        w.spread_from(&w, cy, cx),
{
}

/// A fixing path to `c` through cells fixed between `a` and `b` is one through
/// cells fixed between `a` and `c`, as fixed cells stay fixed.
proof fn lemma_path_later(a: World, b: World, c: World, cy: int, cx: int, path: Seq<(int, int)>)
    requires
        a.fixing_path(&b, cy, cx, path),
        b.evolves_to(&c),
    ensures
        a.fixing_path(&c, cy, cx, path),
{
    assert forall|k: int| #![trigger path[k]] 0 < k < path.len() implies adjacent(
        path[k - 1].0,
        path[k - 1].1,
        path[k].0,
        path[k].1,
    ) && a.newly_fixed(&c, path[k].0, path[k].1) by {
        assert(a.newly_fixed(&b, path[k].0, path[k].1));
        assert(cell_evolves(b.cell(path[k].0, path[k].1), c.cell(path[k].0, path[k].1)));
    }
}

/// A fixing path through cells fixed between `b` and `c` is one through cells
/// fixed between `a` and `c`, as a cell not fixed in `b` was not fixed in `a`.
proof fn lemma_path_earlier(a: World, b: World, c: World, cy: int, cx: int, path: Seq<(int, int)>)
    requires
        b.fixing_path(&c, cy, cx, path),
        a.evolves_to(&b),
    ensures
        a.fixing_path(&c, cy, cx, path),
{
    assert forall|k: int| #![trigger path[k]] 0 < k < path.len() implies adjacent(
        path[k - 1].0,
        path[k - 1].1,
        path[k].0,
        path[k].1,
    ) && a.newly_fixed(&c, path[k].0, path[k].1) by {
        assert(b.newly_fixed(&c, path[k].0, path[k].1));
        assert(cell_evolves(a.cell(path[k].0, path[k].1), b.cell(path[k].0, path[k].1)));
    }
}

/// Spreading from one centre in two stages is spreading from it.
proof fn lemma_spread_trans(a: World, b: World, c: World, cy: int, cx: int)
    requires
        a.evolves_to(&b),
        b.evolves_to(&c),
        a.spread_from(&b, cy, cx),
        b.spread_from(&c, cy, cx),
    ensures
        a.spread_from(&c, cy, cx),
{
    assert forall|y: int, x: int| #[trigger] a.newly_fixed(&c, y, x) implies exists|path: Seq<(int, int)>|
        #[trigger] a.fixing_path(&c, cy, cx, path) && path.last() == (y, x) by {
        assert(cell_evolves(a.cell(y, x), b.cell(y, x)));
        assert(cell_evolves(b.cell(y, x), c.cell(y, x)));
        if b.cell(y, x).collapsed {
            assert(a.newly_fixed(&b, y, x));
            let path = choose|path: Seq<(int, int)>|
                #[trigger] a.fixing_path(&b, cy, cx, path) && path.last() == (y, x);
            lemma_path_later(a, b, c, cy, cx, path);
        } else {
            assert(b.newly_fixed(&c, y, x));
            let path = choose|path: Seq<(int, int)>|
                #[trigger] b.fixing_path(&c, cy, cx, path) && path.last() == (y, x);
            lemma_path_earlier(a, b, c, cy, cx, path);
        }
    }
    assert forall|y: int, x: int|
        in_grid(y, x) && !c.cell(y, x).collapsed && c.cell(y, x).possible != a.cell(y, x).possible implies adjacent(
        cy,
        cx,
        y,
        x,
    ) || exists|ny: int, nx: int| adjacent(y, x, ny, nx) && #[trigger] a.newly_fixed(&c, ny, nx) by {
        assert(cell_evolves(b.cell(y, x), c.cell(y, x)));
        if !adjacent(cy, cx, y, x) {
            if b.cell(y, x).possible != a.cell(y, x).possible {
                let (ny, nx) = choose|ny: int, nx: int|
                    adjacent(y, x, ny, nx) && #[trigger] a.newly_fixed(&b, ny, nx);
                assert(cell_evolves(b.cell(ny, nx), c.cell(ny, nx)));
                assert(a.newly_fixed(&c, ny, nx));
            } else {
                let (ny, nx) = choose|ny: int, nx: int|
                    adjacent(y, x, ny, nx) && #[trigger] b.newly_fixed(&c, ny, nx);
                assert(cell_evolves(a.cell(ny, nx), b.cell(ny, nx)));
                assert(a.newly_fixed(&c, ny, nx));
            }
        }
    }
}

/// Spreading from `(cy, cx)` to a cell `(ny, nx)` next to it that it fixed,
/// and then from `(ny, nx)`, is spreading from `(cy, cx)`.
proof fn lemma_spread_shift(a: World, b: World, c: World, cy: int, cx: int, ny: int, nx: int)
    requires
        a.evolves_to(&b),
        b.evolves_to(&c),
        adjacent(cy, cx, ny, nx),
        a.newly_fixed(&b, ny, nx),
        a.spread_from(&b, cy, cx),
        b.spread_from(&c, ny, nx),
    ensures
        a.spread_from(&c, cy, cx),
{
    assert(cell_evolves(b.cell(ny, nx), c.cell(ny, nx)));
    assert(a.newly_fixed(&c, ny, nx));
    assert forall|y: int, x: int| #[trigger] a.newly_fixed(&c, y, x) implies exists|path: Seq<(int, int)>|
        #[trigger] a.fixing_path(&c, cy, cx, path) && path.last() == (y, x) by {
        assert(cell_evolves(a.cell(y, x), b.cell(y, x)));
        assert(cell_evolves(b.cell(y, x), c.cell(y, x)));
        if b.cell(y, x).collapsed {
            assert(a.newly_fixed(&b, y, x));
            let path = choose|path: Seq<(int, int)>|
                #[trigger] a.fixing_path(&b, cy, cx, path) && path.last() == (y, x);
            lemma_path_later(a, b, c, cy, cx, path);
        } else {
            assert(b.newly_fixed(&c, y, x));
            let path = choose|path: Seq<(int, int)>|
                #[trigger] b.fixing_path(&c, ny, nx, path) && path.last() == (y, x);
            lemma_path_earlier(a, b, c, ny, nx, path);
            let full = seq![(cy, cx)] + path;
            assert forall|k: int| #![trigger full[k]] 0 < k < full.len() implies adjacent(
                full[k - 1].0,
                full[k - 1].1,
                full[k].0,
                full[k].1,
            ) && a.newly_fixed(&c, full[k].0, full[k].1) by {
                assert(full[k] == path[k - 1]);
                if k == 1 {
                    assert(full[0] == (cy, cx) && path[0] == (ny, nx));
                } else {
                    assert(full[k - 1] == path[k - 2]);
                    assert(a.fixing_path(&c, ny, nx, path));
                    assert(a.newly_fixed(&c, path[k - 1].0, path[k - 1].1));
                }
            }
            assert(a.fixing_path(&c, cy, cx, full));
            assert(full.last() == path.last());
        }
    }
    assert forall|y: int, x: int|
        in_grid(y, x) && !c.cell(y, x).collapsed && c.cell(y, x).possible != a.cell(y, x).possible implies adjacent(
        cy,
        cx,
        y,
        x,
    ) || exists|ny2: int, nx2: int| adjacent(y, x, ny2, nx2) && #[trigger] a.newly_fixed(&c, ny2, nx2) by {
        assert(cell_evolves(b.cell(y, x), c.cell(y, x)));
        if !adjacent(cy, cx, y, x) {
            if b.cell(y, x).possible != a.cell(y, x).possible {
                let (my, mx) = choose|my: int, mx: int|
                    adjacent(y, x, my, mx) && #[trigger] a.newly_fixed(&b, my, mx);
                assert(cell_evolves(b.cell(my, mx), c.cell(my, mx)));
                assert(a.newly_fixed(&c, my, mx));
            } else if adjacent(ny, nx, y, x) {
                assert(adjacent(y, x, ny, nx));
            } else {
                let (my, mx) = choose|my: int, mx: int|
                    adjacent(y, x, my, mx) && #[trigger] b.newly_fixed(&c, my, mx);
                assert(cell_evolves(a.cell(my, mx), b.cell(my, mx)));
                assert(a.newly_fixed(&c, my, mx));
            }
        }
    }
}

/// Settled neighbourhoods stay settled as the grid evolves.
proof fn lemma_settled_around_evolves(b: World, c: World, y: int, x: int, allowed: u8)
    requires
        b.settled_around(y, x, allowed),
        b.evolves_to(&c),
    ensures
        c.settled_around(y, x, allowed),
{
    assert forall|ny: int, nx: int| adjacent(y, x, ny, nx) implies settled(c.cell(ny, nx), allowed) by {
        lemma_settled_evolves(b.cell(ny, nx), c.cell(ny, nx), allowed);
    }
}

// ---------------------------------------------------------------------------
// Lemmas on masks, counts and lists
// ---------------------------------------------------------------------------

proof fn lemma_mask_facts(a: u8, b: u8, c: u8)
    ensures
        mask_within(a, a),
        mask_within(0u8, a),
        mask_within(a & b, a),
        mask_within(a & b, b),
        mask_within(a, b) && mask_within(b, c) ==> mask_within(a, c),
{
    assert(a & a == a) by (bit_vector);
    assert(0u8 & a == 0u8) by (bit_vector);
    assert((a & b) & a == a & b) by (bit_vector);
    assert((a & b) & b == a & b) by (bit_vector);
    assert((a & b == a && b & c == b) ==> a & c == a) by (bit_vector);
}

proof fn lemma_cell_evolves_trans(a: Cell, b: Cell, c: Cell)
    requires
        cell_evolves(a, b),
        cell_evolves(b, c),
    ensures
        cell_evolves(a, c),
{
    lemma_mask_facts(c.possible, b.possible, a.possible);
}

proof fn lemma_fixes_well_trans(a: &World, b: &World, c: &World)
    requires
        a.evolves_to(b),
        a.fixes_well(b),
        b.fixes_well(c),
        b.evolves_to(c),
    ensures
        a.fixes_well(c),
{
    assert forall|y: int, x: int| in_grid(y, x) implies fixed_well(a.cell(y, x), c.cell(y, x)) by {
        assert(cell_evolves(a.cell(y, x), b.cell(y, x)));
        assert(cell_evolves(b.cell(y, x), c.cell(y, x)));
        assert(fixed_well(a.cell(y, x), b.cell(y, x)));
        assert(fixed_well(b.cell(y, x), c.cell(y, x)));
        lemma_mask_facts(c.cell(y, x).final_type, b.cell(y, x).possible, a.cell(y, x).possible);
    }
}

proof fn lemma_fixes_within_trans(a: &World, b: &World, c: &World)
    requires
        a.evolves_to(b),
        a.fixes_within(b),
        b.fixes_within(c),
        b.evolves_to(c),
    ensures
        a.fixes_within(c),
{
    assert forall|y: int, x: int| in_grid(y, x) implies fixed_within(a.cell(y, x), c.cell(y, x)) by {
        assert(cell_evolves(a.cell(y, x), b.cell(y, x)));
        assert(cell_evolves(b.cell(y, x), c.cell(y, x)));
        assert(fixed_within(a.cell(y, x), b.cell(y, x)));
        assert(fixed_within(b.cell(y, x), c.cell(y, x)));
        lemma_mask_facts(c.cell(y, x).final_type, b.cell(y, x).possible, a.cell(y, x).possible);
    }
}

proof fn lemma_fixes_well_within(a: &World, b: &World)
    requires
        a.fixes_well(b),
    ensures
        a.fixes_within(b),
{
    assert forall|y: int, x: int| in_grid(y, x) implies fixed_within(a.cell(y, x), b.cell(y, x)) by {
        assert(fixed_well(a.cell(y, x), b.cell(y, x)));
    }
}

/// A tile kind has exactly one bit set.
proof fn lemma_tile_ones(t: u8)
    requires
        is_tile(t),
    ensures
        ones(t as nat) == 1,
{
    reveal_with_fuel(ones, 5);
}

/// A grid that evolved from a sane one, fixing cells only to tile kinds, is
/// sane.
proof fn lemma_sane_kept(a: &World, b: &World)
    requires
        a.sane(),
        a.evolves_to(b),
        a.fixes_well(b),
    ensures
        b.sane(),
{
    assert forall|y: int, x: int| in_grid(y, x) implies cell_sane(b.cell(y, x)) by {
        let ca = a.cell(y, x);
        let cb = b.cell(y, x);
        assert(cell_sane(ca));
        assert(cell_evolves(ca, cb));
        assert(fixed_well(ca, cb));
        if !ca.collapsed && cb.collapsed {
            lemma_tile_ones(cb.final_type);
        }
        if !cb.collapsed {
            lemma_mask_facts(cb.possible, ca.possible, ALL_TILES);
        }
    }
}

proof fn lemma_fixes_well_refl(w: &World)
    ensures
        w.fixes_well(w),
{
}

/// A tile kind among the candidates of a mask of tile kinds with a single one
/// bit is that mask.
proof fn lemma_single_tile(m: u8, t: u8)
    requires
        mask_within(m, ALL_TILES),
        ones(m as nat) == 1,
        is_tile(t),
        mask_within(t, m),
    ensures
        t == m,
{
    lemma_ones_is_tile_count(m);
    reveal_with_fuel(tiles_from, 5);
    assert(m & 15u8 == m && (t == 1u8 || t == 2u8 || t == 4u8 || t == 8u8) && t & m == t
        && (m & 1u8 != 0u8) as int + (m & 2u8 != 0u8) as int + (m & 4u8 != 0u8) as int + (m & 8u8
        != 0u8) as int == 1 ==> t == m) by (bit_vector);
}

proof fn lemma_settled_evolves(a: Cell, b: Cell, allowed: u8)
    requires
        settled(a, allowed),
        cell_evolves(a, b),
    ensures
        settled(b, allowed),
{
    lemma_mask_facts(b.possible, a.possible, allowed);
}

proof fn lemma_evolves_refl(w: &World)
    ensures
        w.evolves_to(w),
{
    assert forall|y: int, x: int| in_grid(y, x) implies cell_evolves(w.cell(y, x), w.cell(y, x)) by {
        lemma_mask_facts(w.cell(y, x).possible, 0, 0);
    }
}

/// Narrowing composes: a later state of a later state of the grid is a later
/// state of it (fixed cells still unchanged, candidates still only shrunk).
pub proof fn lemma_evolves_trans(a: &World, b: &World, c: &World)
    requires
        a.evolves_to(b),
        b.evolves_to(c),
    ensures
        a.evolves_to(c),
{
    assert forall|y: int, x: int| in_grid(y, x) implies cell_evolves(a.cell(y, x), c.cell(y, x)) by {
        lemma_cell_evolves_trans(a.cell(y, x), b.cell(y, x), c.cell(y, x));
    }
}

proof fn lemma_row_open_mono(a: Seq<Cell>, b: Seq<Cell>, n: int, w: int)
    requires
        0 <= n <= a.len(),
        n <= b.len(),
        forall|i: int| 0 <= i < n ==> (a[i].collapsed ==> b[i].collapsed),
    ensures
        row_open(b, n) <= row_open(a, n),
        0 <= w < n && !a[w].collapsed && b[w].collapsed ==> row_open(b, n) < row_open(a, n),
    decreases n,
{
    if n > 0 {
        lemma_row_open_mono(a, b, n - 1, w);
    }
}

proof fn lemma_grid_open_mono(a: Seq<[Cell; MAP_WIDTH]>, b: Seq<[Cell; MAP_WIDTH]>, m: int, wy: int, wx: int)
    requires
        0 <= m <= a.len(),
        m <= b.len(),
        forall|y: int, x: int|
            0 <= y < m && 0 <= x < MAP_WIDTH ==> (a[y]@[x].collapsed ==> b[y]@[x].collapsed),
    ensures
        grid_open(b, m) <= grid_open(a, m),
        0 <= wy < m && 0 <= wx < MAP_WIDTH && !a[wy]@[wx].collapsed && b[wy]@[wx].collapsed
            ==> grid_open(b, m) < grid_open(a, m),
    decreases m,
{
    if m > 0 {
        lemma_grid_open_mono(a, b, m - 1, wy, wx);
        lemma_row_open_mono(a[m - 1]@, b[m - 1]@, MAP_WIDTH as int, wx);
    }
}

/// Fixing cells never adds unfixed ones; fixing the unfixed cell `(wy, wx)`
/// removes one.
proof fn lemma_open_count(a: &World, b: &World, wy: int, wx: int)
    requires
        forall|y: int, x: int|
            #![trigger b.cell(y, x)]
            in_grid(y, x) ==> (a.cell(y, x).collapsed ==> b.cell(y, x).collapsed),
    ensures
        b.open_count() <= a.open_count(),
        in_grid(wy, wx) && !a.cell(wy, wx).collapsed && b.cell(wy, wx).collapsed ==> b.open_count()
            < a.open_count(),
{
    assert forall|y: int, x: int|
        0 <= y < MAP_HEIGHT && 0 <= x < MAP_WIDTH && a.map@[y]@[x].collapsed implies b.map@[y]@[
        x].collapsed by {
        assert(in_grid(y, x));
        assert(a.cell(y, x).collapsed ==> b.cell(y, x).collapsed);
    }
    lemma_grid_open_mono(a.map@, b.map@, MAP_HEIGHT as int, wy, wx);
}

proof fn lemma_swap_remove(s: Seq<Coord>, p: int)
    requires
        0 <= p < s.len(),
    ensures
        ({
            let t = s.update(p, s.last()).drop_last();
            &&& t.len() == s.len() - 1
            &&& listed_within(t, s)
            &&& distinct_coords(s) ==> distinct_coords(t)
            &&& distinct_coords(s) ==> forall|y: int, x: int|
                lists(t, y, x) <==> (lists(s, y, x) && !(s[p].y == y && s[p].x == x))
        }),
{
    let t = s.update(p, s.last()).drop_last();
    let n = s.len() - 1;
    assert forall|i: int| 0 <= i < t.len() implies lists(s, t[i].y as int, t[i].x as int) by {
        if i == p {
            assert(s[n].y == t[i].y && s[n].x == t[i].x);
        } else {
            assert(s[i].y == t[i].y && s[i].x == t[i].x);
        }
    }
    if distinct_coords(s) {
        assert forall|i: int, j: int| 0 <= i < j < t.len() implies !(t[i].y == t[j].y && t[i].x
            == t[j].x) by {
            if i == p {
                assert(!(s[j].y == s[n].y && s[j].x == s[n].x));
            } else if j == p {
                assert(!(s[i].y == s[n].y && s[i].x == s[n].x));
            } else {
                assert(!(s[i].y == s[j].y && s[i].x == s[j].x));
            }
        }
        assert forall|y: int, x: int|
            lists(t, y, x) <==> (lists(s, y, x) && !(s[p].y == y && s[p].x == x)) by {
            if lists(t, y, x) {
                let i = choose|i: int| 0 <= i < t.len() && t[i].y == y && t[i].x == x;
                if i == p {
                    assert(s[n].y == y && s[n].x == x);
                    assert(!(s[p].y == y && s[p].x == x));
                } else {
                    assert(s[i].y == y && s[i].x == x);
                }
            }
            if lists(s, y, x) && !(s[p].y == y && s[p].x == x) {
                let i = choose|i: int| 0 <= i < s.len() && s[i].y == y && s[i].x == x;
                if i == n {
                    assert(t[p].y == y && t[p].x == x);
                } else {
                    assert(t[i].y == y && t[i].x == x);
                }
            }
        }
    }
}


// ---------------------------------------------------------------------------
// Generation
// ---------------------------------------------------------------------------

/// The first place of `list` that holds `(y, x)`, if any.
fn position_of(list: &Vec<Coord>, y: usize, x: usize) -> (pos: Option<usize>)
    ensures
        match pos {
            Some(p) => first_at(list@, y as int, x as int, p as int),
            None => !lists(list@, y as int, x as int),
        },
{
    let mut i: usize = 0;
    while i < list.len()
        invariant
            i <= list@.len(),
            forall|j: int| 0 <= j < i ==> !(list@[j].y == y && list@[j].x == x),
        decreases list@.len() - i,
    {
        let c = list[i];
        if c.y == y && c.x == x {
            return Some(i);
        }
        i += 1;
    }
    None
}

impl World {
    /// A grid where every cell may still become any tile, with every position
    /// listed as unfixed, row by row.
    pub fn new() -> (w: Self)
        ensures
            w.wf(),
            w.cells_ok(),
            w.sane(),
            w.uncollapsed@.len() == MAP_HEIGHT * MAP_WIDTH,
            forall|i: int|
                0 <= i < w.uncollapsed@.len() ==> w.uncollapsed@[i].y * MAP_WIDTH
                    + w.uncollapsed@[i].x == i,
            forall|y: int, x: int|
                #![trigger w.cell(y, x)]
                in_grid(y, x) ==> w.cell(y, x) == Cell::new_spec(),
    {
        let mut uncollapsed: Vec<Coord> = Vec::with_capacity(MAP_HEIGHT * MAP_WIDTH);
        for y in 0..MAP_HEIGHT
            invariant
                uncollapsed@.len() == y * MAP_WIDTH,
                forall|i: int|
                    #![trigger uncollapsed@[i]]
                    0 <= i < uncollapsed@.len() ==> uncollapsed@[i].x < MAP_WIDTH
                        && uncollapsed@[i].y * MAP_WIDTH + uncollapsed@[i].x == i,
        {
            for x in 0..MAP_WIDTH
                invariant
                    y < MAP_HEIGHT,
                    uncollapsed@.len() == y * MAP_WIDTH + x,
                    forall|i: int|
                        #![trigger uncollapsed@[i]]
                        0 <= i < uncollapsed@.len() ==> uncollapsed@[i].x < MAP_WIDTH
                            && uncollapsed@[i].y * MAP_WIDTH + uncollapsed@[i].x == i,
            {
                uncollapsed.push(Coord { y, x });
                assert(uncollapsed@[y * MAP_WIDTH + x] == Coord { y, x });
            }
        }
        let w = World { map: [[Cell::new();MAP_WIDTH];MAP_HEIGHT], uncollapsed };
        proof {
            assert(mask_within(ALL_TILES, ALL_TILES)) by (bit_vector);
            let s = w.uncollapsed@;
            assert forall|i: int| 0 <= i < s.len() implies in_grid(s[i].y as int, s[i].x as int) by {
                assert(s[i].y * MAP_WIDTH + s[i].x == i);
            }
            assert forall|i: int, j: int| 0 <= i < j < s.len() implies !(s[i].y == s[j].y
                && s[i].x == s[j].x) by {
                assert(s[i].y * MAP_WIDTH + s[i].x == i);
                assert(s[j].y * MAP_WIDTH + s[j].x == j);
            }
            assert forall|y: int, x: int| in_grid(y, x) implies (w.cell(y, x).collapsed <==> !lists(
                s,
                y,
                x,
            )) by {
                let i = y * MAP_WIDTH + x;
                assert(s[i].y * MAP_WIDTH + s[i].x == i);
                assert(s[i].y == y && s[i].x == x) by (nonlinear_arith)
                    requires
                        s[i].y * 20 + s[i].x == y * 20 + x,
                        0 <= x < 20,
                        0 <= s[i].x < 20,
                        s[i].y >= 0,
                        y >= 0,
                ;
            }
        }
        w
    }

    /// Fixes the cell at `(y, x)` to a tile picked at random among its candidates
    /// (`0` when it has none) and removes the first listing of `(y, x)`, as
    /// `swap_remove` does.
    pub fn collapse_cell(&mut self, y: usize, x: usize)
        requires
            y < MAP_HEIGHT,
            x < MAP_WIDTH,
        ensures
            final(self).cell(y as int, x as int).collapsed,
            final(self).cell(y as int, x as int).possible == final(self).cell(
                y as int,
                x as int,
            ).final_type,
            picked_from(
                old(self).cell(y as int, x as int).possible,
                final(self).cell(y as int, x as int).final_type,
            ),
            forall|i: int, j: int|
                #![trigger final(self).cell(i, j)]
                in_grid(i, j) && !(i == y && j == x) ==> final(self).cell(i, j) == old(self).cell(
                    i,
                    j,
                ),
            final(self).uncollapsed@ == remove_coord(old(self).uncollapsed@, y as int, x as int),
            listed_within(final(self).uncollapsed@, old(self).uncollapsed@),
            lists(old(self).uncollapsed@, y as int, x as int) ==> final(self).uncollapsed@.len()
                == old(self).uncollapsed@.len() - 1,
            final(self).uncollapsed@.len() <= old(self).uncollapsed@.len(),
            old(self).listed_in_bounds() ==> final(self).listed_in_bounds(),
            old(self).wf() ==> final(self).wf(),
            old(self).cells_ok() ==> final(self).cells_ok(),
            !old(self).cell(y as int, x as int).collapsed ==> old(self).evolves_to(final(self)),
            old(self).cell(y as int, x as int).collapsed && cell_ok(old(self).cell(y as int, x as int))
                && !lists(old(self).uncollapsed@, y as int, x as int) ==> *final(self) == *old(self),
    {
        let chosen = pick_random_tile(self.map[y][x].possible);
        self.map[y][x].collapsed = true;
        self.map[y][x].final_type = chosen;
        self.map[y][x].possible = chosen;

        let pos = position_of(&self.uncollapsed, y, x);
        let ghost before = self.uncollapsed@;
        proof {
            let ghost p0 = old(self).cell(y as int, x as int).possible;
            lemma_picked_within(p0, chosen);
            lemma_mask_facts(p0, 0, 0);
            if old(self).cells_ok() {
                assert(cell_ok(old(self).cell(y as int, x as int)));
                if p0 != 0 {
                    lemma_picked_tile(p0, chosen);
                    lemma_mask_facts(chosen, p0, ALL_TILES);
                } else {
                    assert(chosen == 0);
                }
                assert forall|i: int, j: int| in_grid(i, j) implies cell_ok(self.cell(i, j)) by {
                    if !(i == y && j == x) {
                        assert(self.cell(i, j) == old(self).cell(i, j));
                    }
                }
            }
            lemma_evolves_refl(old(self));
            if !old(self).cell(y as int, x as int).collapsed {
                assert forall|i: int, j: int| in_grid(i, j) implies cell_evolves(
                    old(self).cell(i, j),
                    self.cell(i, j),
                ) by {
                    if i == y && j == x {
                    } else {
                        assert(cell_evolves(old(self).cell(i, j), old(self).cell(i, j)));
                    }
                }
            }
        }
        match pos {
            Some(p) => {
                proof {
                    let q = choose|q: int| first_at(before, y as int, x as int, q);
                    assert(q == p as int) by {
                        if q < p {
                            assert(!(before[q].y == y && before[q].x == x));
                        }
                        if p < q {
                            assert(!(before[p as int].y == y && before[p as int].x == x));
                        }
                    }
                    lemma_swap_remove(before, p as int);
                }
                self.uncollapsed.swap_remove(p);
                proof {
                    if old(self).wf() {
                        let t = self.uncollapsed@;
                        assert forall|i: int, j: int| in_grid(i, j) implies (self.cell(
                            i,
                            j,
                        ).collapsed <==> !lists(t, i, j)) by {
                            assert(lists(t, i, j) <==> (lists(before, i, j) && !(before[p as int].y
                                == i && before[p as int].x == j)));
                            if !(i == y && j == x) {
                                assert(self.cell(i, j) == old(self).cell(i, j));
                            }
                        }
                        assert forall|i: int| 0 <= i < t.len() implies in_grid(
                            t[i].y as int,
                            t[i].x as int,
                        ) by {
                            assert(lists(before, t[i].y as int, t[i].x as int));
                            let k = choose|k: int|
                                0 <= k < before.len() && before[k].y == t[i].y && before[k].x
                                    == t[i].x;
                            assert(in_grid(before[k].y as int, before[k].x as int));
                        }
                        assert(distinct_coords(t));
                        assert(self.listed_in_bounds());
                        assert(self.wf());
                    }
                }
            },
            None => {
                assert(!exists|q: int| first_at(before, y as int, x as int, q));
                assert(old(self).wf() ==> self.wf()) by {
                    if old(self).wf() {
                        assert forall|i: int, j: int| in_grid(i, j) implies (self.cell(
                            i,
                            j,
                        ).collapsed <==> !lists(self.uncollapsed@, i, j)) by {
                            if !(i == y && j == x) {
                                assert(self.cell(i, j) == old(self).cell(i, j));
                            }
                        }
                    }
                }
                assert(listed_within(before, before)) by {
                    assert forall|i: int| 0 <= i < before.len() implies lists(
                        before,
                        before[i].y as int,
                        before[i].x as int,
                    ) by {}
                }
            },
        }
        proof {
            let c0 = old(self).cell(y as int, x as int);
            if c0.collapsed && cell_ok(c0) && !lists(old(self).uncollapsed@, y as int, x as int) {
                if c0.possible != 0 {
                    lemma_ones_is_tile_count(c0.possible);
                    reveal_with_fuel(tiles_from, 5);
                    assert(c0.possible == 1u8 || c0.possible == 2u8 || c0.possible == 4u8
                        || c0.possible == 8u8);
                    assert(ones(1) == 1) by {
                        reveal_with_fuel(ones, 2);
                    }
                    assert(ones(2) == 1) by {
                        reveal_with_fuel(ones, 3);
                    }
                    assert(ones(4) == 1) by {
                        reveal_with_fuel(ones, 4);
                    }
                    assert(ones(8) == 1) by {
                        reveal_with_fuel(ones, 5);
                    }
                    lemma_picked_tile(c0.possible, self.cell(y as int, x as int).final_type);
                    lemma_single_tile(c0.possible, self.cell(y as int, x as int).final_type);
                } else {
                    assert(ones(0) == 0);
                }
                assert(self.cell(y as int, x as int) == c0);
                assert(self.map =~= old(self).map) by {
                    assert forall|i: int| 0 <= i < MAP_HEIGHT implies self.map[i] == old(self).map[i] by {
                        assert forall|j: int| 0 <= j < MAP_WIDTH implies self.map[i][j] == old(
                            self,
                        ).map[i][j] by {
                            assert(self.cell(i, j) == old(self).cell(i, j));
                        }
                        assert(self.map[i] =~= old(self).map[i]);
                    }
                }
                assert(self.uncollapsed@ == old(self).uncollapsed@);
            }
        }
    }

    /// Narrows the neighbours of `(y, x)` to the tiles allowed next to its tile.
    /// A neighbour left with a single candidate is fixed at once and narrows its
    /// own neighbours in turn. Afterwards every cell fixed on the way has its
    /// neighbours fixed or within the tiles allowed next to it; a cell that was
    /// not fixed lost candidates only by intersection with the tiles allowed
    /// next to an adjacent fixed cell or next to the centre (`kept_from`), so a
    /// cell fixed on the way had been narrowed down to its tile; and a cell left
    /// with a single candidate was fixed. The whole call is a run of single
    /// narrowings (`runs_to`), each from the centre or a fixed cell onto a
    /// neighbour, fixing that neighbour only when one candidate is left, and
    /// what changed was reached from the centre (`spread_from`).
    #[verifier::rlimit(40)]
    #[verifier::spinoff_prover]
    pub fn propagate(&mut self, y: usize, x: usize)
        requires
            y < MAP_HEIGHT,
            x < MAP_WIDTH,
        ensures
            old(self).evolves_to(final(self)),
            final(self).uncollapsed@.len() <= old(self).uncollapsed@.len(),
            listed_within(final(self).uncollapsed@, old(self).uncollapsed@),
            old(self).listed_in_bounds() ==> final(self).listed_in_bounds(),
            old(self).wf() ==> final(self).wf(),
            old(self).cells_ok() ==> final(self).cells_ok(),
            old(self).fixes_well(final(self)),
            old(self).fixed_settle(final(self)),
            old(self).open_not_single(final(self)),
            old(self).spread_from(final(self), y as int, x as int),
            runs_to(
                *old(self),
                *final(self),
                y as int,
                x as int,
                old(self).cell(y as int, x as int).final_type,
            ),
            old(self).kept_from(
                final(self),
                y as int,
                x as int,
                old(self).cell(y as int, x as int).final_type,
            ),
            old(self).cell(y as int, x as int).collapsed || !final(self).cell(
                y as int,
                x as int,
            ).collapsed ==> final(self).settled_around(
                y as int,
                x as int,
                neighbors_of(old(self).cell(y as int, x as int).final_type),
            ),
        decreases old(self).open_count(), 1int,
    {
        let dirs: [(isize, isize); 4] = [(-1, 0), (1, 0), (0, -1), (0, 1)];
        let ghost allowed0 = neighbors_of(old(self).cell(y as int, x as int).final_type);
        proof {
            lemma_evolves_refl(self);
            lemma_fixes_well_refl(self);
            lemma_listed_within_refl(self.uncollapsed@);
            lemma_kept_refl(*self, y as int, x as int, self.cell(y as int, x as int).final_type);
            lemma_spread_refl(*self, y as int, x as int);
            lemma_runs_refl(*self, y as int, x as int, self.cell(y as int, x as int).final_type);
        }
        let ghost cft0 = old(self).cell(y as int, x as int).final_type;
        for k in 0..4usize
            invariant
                y < MAP_HEIGHT,
                x < MAP_WIDTH,
                dirs@ == seq![(-1isize, 0isize), (1isize, 0isize), (0isize, -1isize), (0isize, 1isize)],
                allowed0 == neighbors_of(old(self).cell(y as int, x as int).final_type),
                old(self).evolves_to(self),
                self.uncollapsed@.len() <= old(self).uncollapsed@.len(),
                listed_within(self.uncollapsed@, old(self).uncollapsed@),
                old(self).listed_in_bounds() ==> self.listed_in_bounds(),
                old(self).wf() ==> self.wf(),
                old(self).cells_ok() ==> self.cells_ok(),
                old(self).fixes_well(self),
                cft0 == old(self).cell(y as int, x as int).final_type,
                old(self).fixed_settle(self),
                old(self).open_not_single(self),
                old(self).kept_from(self, y as int, x as int, cft0),
                old(self).spread_from(self, y as int, x as int),
                runs_to(*old(self), *self, y as int, x as int, cft0),
                old(self).cell(y as int, x as int).collapsed || !self.cell(
                    y as int,
                    x as int,
                ).collapsed ==> forall|j: int|
                    #![trigger dir_dy(j)]
                    0 <= j < k && in_grid(y + dir_dy(j), x + dir_dx(j)) ==> settled(
                        self.cell(y + dir_dy(j), x + dir_dx(j)),
                        allowed0,
                    ),
        {
            let ghost prev = *self;
            let (dy, dx) = dirs[k];
            assert(dy == dir_dy(k as int) && dx == dir_dx(k as int));
            let ny = y as isize + dy;
            let nx = x as isize + dx;
            let in_range = !(ny < 0 || ny >= MAP_HEIGHT as isize || nx < 0
                || nx >= MAP_WIDTH as isize);
            if in_range {
                let ny = ny as usize;
                let nx = nx as usize;
                if !self.map[ny][nx].collapsed {
                    proof {
                        lemma_open_count(old(self), self, 0, 0);
                        assert(adjacent(y as int, x as int, ny as int, nx as int));
                    }
                    let ghost before = *self;
                    self.narrow(y, x, ny, nx);
                    proof {
                        assert(cell_evolves(old(self).cell(y as int, x as int), before.cell(y as int, x as int)));
                        lemma_spread_trans(*old(self), before, *self, y as int, x as int);
                        let cb = before.cell(y as int, x as int).final_type;
                        if cb != cft0 {
                            lemma_runs_recentre(before, *self, y as int, x as int, cb, y as int, x as int, cft0);
                        }
                        lemma_runs_trans(*old(self), before, *self, y as int, x as int, cft0);
                        lemma_kept_trans(
                            *old(self),
                            before,
                            *self,
                            y as int,
                            x as int,
                            cft0,
                            y as int,
                            x as int,
                            before.cell(y as int, x as int).final_type,
                        );
                        assert(old(self).fixed_settle(self)) by {
                            assert forall|i: int, j: int|
                                in_grid(i, j) && !old(self).cell(i, j).collapsed && self.cell(i, j).collapsed implies self.settled_around(
                                i,
                                j,
                                neighbors_of(self.cell(i, j).final_type),
                            ) by {
                                assert(cell_evolves(before.cell(i, j), self.cell(i, j)));
                                if before.cell(i, j).collapsed {
                                    assert(before.settled_around(i, j, neighbors_of(before.cell(i, j).final_type)));
                                    lemma_settled_around_evolves(before, *self, i, j, neighbors_of(before.cell(i, j).final_type));
                                }
                            }
                        }
                        assert(old(self).open_not_single(self)) by {
                            assert forall|i: int, j: int|
                                in_grid(i, j) && !self.cell(i, j).collapsed && self.cell(i, j).possible
                                    != old(self).cell(i, j).possible implies ones(self.cell(i, j).possible as nat)
                                != 1 by {
                                assert(cell_evolves(before.cell(i, j), self.cell(i, j)));
                            }
                        }
                    }
                }
            }
            proof {
                if *self == prev {
                    lemma_evolves_refl(self);
                    lemma_fixes_well_refl(self);
                }
                assert(prev.evolves_to(self));
                assert(prev.fixes_well(self));
                lemma_fixes_well_trans(old(self), &prev, self);
                lemma_evolves_trans(old(self), &prev, self);
                lemma_listed_within_trans(
                    self.uncollapsed@,
                    prev.uncollapsed@,
                    old(self).uncollapsed@,
                );
                if old(self).cell(y as int, x as int).collapsed || !self.cell(
                    y as int,
                    x as int,
                ).collapsed {
                    assert(cell_evolves(prev.cell(y as int, x as int), self.cell(y as int, x as int)));
                    assert(cell_evolves(old(self).cell(y as int, x as int), prev.cell(y as int, x as int)));
                    assert(prev.cell(y as int, x as int).final_type == old(self).cell(
                        y as int,
                        x as int,
                    ).final_type);
                    assert forall|j: int|
                        0 <= j < k + 1 && in_grid(y + dir_dy(j), x + dir_dx(j)) implies settled(
                        self.cell(y + dir_dy(j), x + dir_dx(j)),
                        allowed0,
                    ) by {
                        if j < k {
                            lemma_settled_evolves(
                                prev.cell(y + dir_dy(j), x + dir_dx(j)),
                                self.cell(y + dir_dy(j), x + dir_dx(j)),
                                allowed0,
                            );
                        }
                    }
                }
            }
        }
        proof {
            if old(self).cell(y as int, x as int).collapsed || !self.cell(y as int, x as int).collapsed {
                assert forall|ny: int, nx: int| adjacent(y as int, x as int, ny, nx) implies settled(
                    self.cell(ny, nx),
                    allowed0,
                ) by {
                    if ny == y - 1 {
                        assert(dir_dy(0) == -1);
                    } else if ny == y + 1 {
                        assert(dir_dy(1) == 1);
                    } else if nx == x - 1 {
                        assert(dir_dy(2) == 0);
                    } else {
                        assert(dir_dy(3) == 0);
                    }
                }
            }
        }
    }
}

impl World {
    /// One step of `propagate`: keeps of the unfixed cell `(ny, nx)` only the
    /// tiles allowed next to the tile of `(y, x)`; fixes it when one candidate is
    /// left, and then propagates from it.
    fn narrow(&mut self, y: usize, x: usize, ny: usize, nx: usize)
        requires
            y < MAP_HEIGHT,
            x < MAP_WIDTH,
            ny < MAP_HEIGHT,
            nx < MAP_WIDTH,
            !old(self).cell(ny as int, nx as int).collapsed,
            adjacent(y as int, x as int, ny as int, nx as int),
        ensures
            old(self).fixed_settle(final(self)),
            old(self).open_not_single(final(self)),
            old(self).spread_from(final(self), y as int, x as int),
            runs_to(
                *old(self),
                *final(self),
                y as int,
                x as int,
                old(self).cell(y as int, x as int).final_type,
            ),
            old(self).kept_from(
                final(self),
                y as int,
                x as int,
                old(self).cell(y as int, x as int).final_type,
            ),
            old(self).evolves_to(final(self)),
            final(self).uncollapsed@.len() <= old(self).uncollapsed@.len(),
            listed_within(final(self).uncollapsed@, old(self).uncollapsed@),
            old(self).listed_in_bounds() ==> final(self).listed_in_bounds(),
            old(self).wf() ==> final(self).wf(),
            old(self).cells_ok() ==> final(self).cells_ok(),
            settled(
                final(self).cell(ny as int, nx as int),
                neighbors_of(old(self).cell(y as int, x as int).final_type),
            ),
            old(self).fixes_well(final(self)),
            old(self).narrowed(y as int, x as int, ny as int, nx as int) == old(self).cell(
                ny as int,
                nx as int,
            ).possible ==> *final(self) == *old(self),
            old(self).narrowed(y as int, x as int, ny as int, nx as int) != old(self).cell(
                ny as int,
                nx as int,
            ).possible && ones(old(self).narrowed(y as int, x as int, ny as int, nx as int) as nat)
                != 1 ==> old(self).with_candidates(
                final(self),
                ny as int,
                nx as int,
                old(self).narrowed(y as int, x as int, ny as int, nx as int),
            ),
            old(self).narrowed(y as int, x as int, ny as int, nx as int) != old(self).cell(
                ny as int,
                nx as int,
            ).possible && ones(old(self).narrowed(y as int, x as int, ny as int, nx as int) as nat)
                == 1 ==> {
                let c = final(self).cell(ny as int, nx as int);
                &&& c.collapsed
                &&& c.final_type == old(self).narrowed(y as int, x as int, ny as int, nx as int)
                &&& c.possible == c.final_type
            },
        decreases old(self).open_count(), 0int,
    {
        let ghost prev = *self;
        let allowed = allowed_neighbors(self.map[y][x].final_type);
        let before = self.map[ny][nx].possible;
        let after = before & allowed;
        proof {
            lemma_evolves_refl(self);
            lemma_listed_within_refl(self.uncollapsed@);
            lemma_mask_facts(before, allowed, 0);
            lemma_fixes_well_refl(self);
            lemma_kept_refl(*self, y as int, x as int, self.cell(y as int, x as int).final_type);
            lemma_spread_refl(*self, y as int, x as int);
            lemma_runs_refl(*self, y as int, x as int, self.cell(y as int, x as int).final_type);
            assert(after & 15u8 == after) by (bit_vector)
                requires
                    after == before & allowed,
                    allowed == 2u8 || allowed == 14u8 || allowed == 7u8 || allowed == 5u8
                        || allowed == 0u8,
            ;
        }
        if after != before {
            self.map[ny][nx].possible = after;
            let ghost narrowed = *self;
            proof {
                assert(prev.with_candidates(&narrowed, ny as int, nx as int, after));
                let cft = prev.cell(y as int, x as int).final_type;
                assert(narrowed.cell(y as int, x as int) == prev.cell(y as int, x as int));
                assert forall|i: int, j: int| in_grid(i, j) && !prev.cell(i, j).collapsed implies mask_within(
                    prev.cell(i, j).possible & kept_bound(narrowed, y as int, x as int, cft, i, j),
                    narrowed.cell(i, j).possible,
                ) by {
                    let kb = kept_bound(narrowed, y as int, x as int, cft, i, j);
                    let pp = prev.cell(i, j).possible;
                    if i == ny && j == nx {
                        lemma_bound_within_centre(narrowed, y as int, x as int, cft, i, j);
                        assert(kb & allowed == kb ==> (pp & kb) & (pp & allowed) == pp & kb)
                            by (bit_vector);
                    } else {
                        assert(narrowed.cell(i, j) == prev.cell(i, j));
                        lemma_mask_facts(pp, kb, 0);
                    }
                }
                assert(prev.kept_from(&narrowed, y as int, x as int, cft));
                if ones(after as nat) != 1 {
                    assert(narrows_at(
                        prev,
                        narrowed,
                        y as int,
                        x as int,
                        cft,
                        y as int,
                        x as int,
                        cft,
                        ny as int,
                        nx as int,
                    ));
                    lemma_runs_step(
                        prev,
                        narrowed,
                        y as int,
                        x as int,
                        cft,
                        y as int,
                        x as int,
                        cft,
                        ny as int,
                        nx as int,
                    );
                }
                assert(prev.spread_from(&narrowed, y as int, x as int)) by {
                    assert forall|i: int, j: int| #[trigger] prev.newly_fixed(&narrowed, i, j) implies exists|
                        path: Seq<(int, int)>,
                    | #[trigger] prev.fixing_path(&narrowed, y as int, x as int, path) && path.last() == (
                        i,
                        j,
                    ) by {
                        assert(narrowed.cell(i, j).collapsed == prev.cell(i, j).collapsed);
                    }
                    assert forall|i: int, j: int|
                        in_grid(i, j) && !narrowed.cell(i, j).collapsed && narrowed.cell(i, j).possible
                            != prev.cell(i, j).possible implies adjacent(y as int, x as int, i, j)
                        || exists|ny2: int, nx2: int|
                        adjacent(i, j, ny2, nx2) && #[trigger] prev.newly_fixed(&narrowed, ny2, nx2) by {
                        if !(i == ny && j == nx) {
                            assert(narrowed.cell(i, j) == prev.cell(i, j));
                        }
                    }
                }
                if ones(after as nat) != 1 {
                assert(prev.open_not_single(&narrowed)) by {
                    assert forall|i: int, j: int|
                        in_grid(i, j) && !narrowed.cell(i, j).collapsed && narrowed.cell(i, j).possible
                            != prev.cell(i, j).possible implies ones(narrowed.cell(i, j).possible as nat)
                        != 1 by {
                        if !(i == ny && j == nx) {
                            assert(narrowed.cell(i, j) == prev.cell(i, j));
                        }
                    }
                }
                }
                assert(prev.fixed_settle(&narrowed)) by {
                    assert forall|i: int, j: int|
                        in_grid(i, j) && !prev.cell(i, j).collapsed && narrowed.cell(i, j).collapsed implies narrowed.settled_around(
                        i,
                        j,
                        neighbors_of(narrowed.cell(i, j).final_type),
                    ) by {
                        if !(i == ny && j == nx) {
                            assert(narrowed.cell(i, j) == prev.cell(i, j));
                        }
                    }
                }
                assert(prev.fixes_well(&narrowed)) by {
                    assert forall|i: int, j: int| in_grid(i, j) implies fixed_well(
                        prev.cell(i, j),
                        narrowed.cell(i, j),
                    ) by {
                        if !(i == ny && j == nx) {
                            assert(narrowed.cell(i, j) == prev.cell(i, j));
                        }
                    }
                }
                assert forall|i: int, j: int| in_grid(i, j) implies cell_evolves(
                    prev.cell(i, j),
                    narrowed.cell(i, j),
                ) by {
                    if !(i == ny && j == nx) {
                        assert(narrowed.cell(i, j) == prev.cell(i, j));
                    }
                }
                assert(old(self).cells_ok() ==> narrowed.cells_ok()) by {
                    if old(self).cells_ok() {
                        assert forall|i: int, j: int| in_grid(i, j) implies cell_ok(
                            narrowed.cell(i, j),
                        ) by {
                            if i == ny && j == nx {
                                assert(cell_ok(prev.cell(i, j)));
                                lemma_mask_facts(after, before, ALL_TILES);
                            } else {
                                assert(narrowed.cell(i, j) == prev.cell(i, j));
                            }
                        }
                    }
                }
                assert(old(self).wf() ==> narrowed.wf()) by {
                    if old(self).wf() {
                        assert forall|i: int, j: int| in_grid(i, j) implies (narrowed.cell(
                            i,
                            j,
                        ).collapsed <==> !lists(narrowed.uncollapsed@, i, j)) by {
                            assert(narrowed.cell(i, j).collapsed == prev.cell(i, j).collapsed);
                        }
                    }
                }
            }
            if popcount(after) == 1 {
                proof {
                    lemma_ones_bound(after as nat);
                }
                self.collapse_cell(ny, nx);
                let ghost fixed = *self;
                proof {
                    lemma_evolves_trans(&prev, &narrowed, &fixed);
                    lemma_open_count(&prev, &fixed, ny as int, nx as int);
                    let t = fixed.cell(ny as int, nx as int).final_type;
                    lemma_picked_tile(after, t);
                    lemma_single_tile(after, t);
                    lemma_mask_facts(t, after, before);
                    assert(narrowed.fixes_well(&fixed)) by {
                        assert forall|i: int, j: int| in_grid(i, j) implies fixed_well(
                            narrowed.cell(i, j),
                            fixed.cell(i, j),
                        ) by {
                            if !(i == ny && j == nx) {
                                assert(fixed.cell(i, j) == narrowed.cell(i, j));
                            }
                        }
                    }
                    lemma_fixes_well_trans(&prev, &narrowed, &fixed);
                    let cft = prev.cell(y as int, x as int).final_type;
                    assert(narrows_at(
                        prev,
                        fixed,
                        y as int,
                        x as int,
                        cft,
                        y as int,
                        x as int,
                        cft,
                        ny as int,
                        nx as int,
                    )) by {
                        assert(fixed.cell(ny as int, nx as int) == Cell {
                            possible: after,
                            collapsed: true,
                            final_type: after,
                        });
                        assert forall|i: int, j: int|
                            in_grid(i, j) && !(i == ny && j == nx) implies #[trigger] fixed.cell(i, j)
                            == prev.cell(i, j) by {
                            assert(fixed.cell(i, j) == narrowed.cell(i, j));
                            assert(narrowed.cell(i, j) == prev.cell(i, j));
                        }
                    }
                    lemma_runs_step(
                        prev,
                        fixed,
                        y as int,
                        x as int,
                        cft,
                        y as int,
                        x as int,
                        cft,
                        ny as int,
                        nx as int,
                    );
                    assert(prev.spread_from(&fixed, y as int, x as int)) by {
                        assert forall|i: int, j: int| #[trigger] prev.newly_fixed(&fixed, i, j) implies exists|
                            path: Seq<(int, int)>,
                        | #[trigger] prev.fixing_path(&fixed, y as int, x as int, path) && path.last() == (
                            i,
                            j,
                        ) by {
                            if !(i == ny && j == nx) {
                                assert(fixed.cell(i, j) == narrowed.cell(i, j));
                                assert(narrowed.cell(i, j) == prev.cell(i, j));
                            }
                            let path = seq![(y as int, x as int), (ny as int, nx as int)];
                            assert(prev.fixing_path(&fixed, y as int, x as int, path)) by {
                                assert forall|k: int| #![trigger path[k]] 0 < k < path.len() implies adjacent(
                                    path[k - 1].0,
                                    path[k - 1].1,
                                    path[k].0,
                                    path[k].1,
                                ) && prev.newly_fixed(&fixed, path[k].0, path[k].1) by {
                                    assert(k == 1);
                                }
                            }
                            assert(path.last() == (i, j));
                        }
                        assert forall|i: int, j: int|
                            in_grid(i, j) && !fixed.cell(i, j).collapsed && fixed.cell(i, j).possible
                                != prev.cell(i, j).possible implies adjacent(y as int, x as int, i, j)
                            || exists|ny2: int, nx2: int|
                            adjacent(i, j, ny2, nx2) && #[trigger] prev.newly_fixed(&fixed, ny2, nx2) by {
                            if !(i == ny && j == nx) {
                                assert(fixed.cell(i, j) == narrowed.cell(i, j));
                                assert(narrowed.cell(i, j) == prev.cell(i, j));
                            }
                        }
                    }
                }
                self.propagate(ny, nx);
                proof {
                    let cft = prev.cell(y as int, x as int).final_type;
                    assert(narrowed.kept_from(&fixed, y as int, x as int, cft)) by {
                        assert forall|i: int, j: int| in_grid(i, j) && !narrowed.cell(i, j).collapsed implies mask_within(
                            narrowed.cell(i, j).possible & kept_bound(fixed, y as int, x as int, cft, i, j),
                            fixed.cell(i, j).possible,
                        ) by {
                            if !(i == ny && j == nx) {
                                assert(fixed.cell(i, j) == narrowed.cell(i, j));
                            }
                            lemma_mask_facts(
                                narrowed.cell(i, j).possible,
                                kept_bound(fixed, y as int, x as int, cft, i, j),
                                0,
                            );
                        }
                    }
                    lemma_kept_trans(prev, narrowed, fixed, y as int, x as int, cft, y as int, x as int, cft);
                    lemma_kept_trans(
                        prev,
                        fixed,
                        *self,
                        y as int,
                        x as int,
                        cft,
                        ny as int,
                        nx as int,
                        fixed.cell(ny as int, nx as int).final_type,
                    );
                    assert(prev.fixed_settle(self)) by {
                        assert forall|i: int, j: int|
                            in_grid(i, j) && !prev.cell(i, j).collapsed && self.cell(i, j).collapsed implies self.settled_around(
                            i,
                            j,
                            neighbors_of(self.cell(i, j).final_type),
                        ) by {
                            assert(cell_evolves(fixed.cell(i, j), self.cell(i, j)));
                            if !(i == ny && j == nx) {
                                assert(fixed.cell(i, j) == prev.cell(i, j));
                            }
                        }
                    }
                    assert(prev.open_not_single(self)) by {
                        assert forall|i: int, j: int|
                            in_grid(i, j) && !self.cell(i, j).collapsed && self.cell(i, j).possible
                                != prev.cell(i, j).possible implies ones(self.cell(i, j).possible as nat)
                            != 1 by {
                            assert(cell_evolves(fixed.cell(i, j), self.cell(i, j)));
                            if !(i == ny && j == nx) {
                                assert(fixed.cell(i, j) == prev.cell(i, j));
                            }
                        }
                    }
                    lemma_fixes_well_trans(&prev, &fixed, self);
                    lemma_evolves_trans(&prev, &fixed, self);
                    assert(prev.newly_fixed(&fixed, ny as int, nx as int));
                    lemma_spread_shift(prev, fixed, *self, y as int, x as int, ny as int, nx as int);
                    lemma_runs_recentre(
                        fixed,
                        *self,
                        ny as int,
                        nx as int,
                        fixed.cell(ny as int, nx as int).final_type,
                        y as int,
                        x as int,
                        cft,
                    );
                    lemma_runs_trans(prev, fixed, *self, y as int, x as int, cft);
                    assert(cell_evolves(fixed.cell(ny as int, nx as int), self.cell(ny as int, nx as int)));
                    lemma_listed_within_trans(
                        self.uncollapsed@,
                        fixed.uncollapsed@,
                        narrowed.uncollapsed@,
                    );
                    lemma_settled_evolves(
                        fixed.cell(ny as int, nx as int),
                        self.cell(ny as int, nx as int),
                        allowed,
                    );
                }
            }
        }
    }
}

impl World {
    /// Fixes the listed cell with the fewest candidates (the first such one,
    /// counting only cells with at least one candidate) to a random candidate
    /// and propagates from it. Returns `false`, changing nothing, when no listed
    /// cell has a candidate left.
    pub fn step(&mut self) -> (progressed: bool)
        requires
            old(self).listed_in_bounds(),
        ensures
            progressed == exists|i: int|
                0 <= i < old(self).uncollapsed@.len() && old(self).entropy(i) > 0,
            !progressed ==> *final(self) == *old(self),
            progressed ==> final(self).uncollapsed@.len() < old(self).uncollapsed@.len(),
            final(self).listed_in_bounds(),
            listed_within(final(self).uncollapsed@, old(self).uncollapsed@),
            old(self).wf() ==> final(self).wf() && old(self).evolves_to(final(self)),
            old(self).cells_ok() ==> final(self).cells_ok(),
            old(self).wf() ==> old(self).fixes_within(final(self)),
            old(self).wf() && old(self).cells_ok() ==> old(self).fixes_well(final(self)),
            old(self).wf() && old(self).sane() ==> final(self).sane() && old(self).fixes_well(
                final(self),
            ),
            old(self).fixed_settle(final(self)),
            old(self).open_not_single(final(self)),
            progressed ==> old(self).stepped_to(final(self)),
    {
        proof {
            lemma_evolves_refl(self);
            lemma_fixes_well_refl(self);
        }
        if self.uncollapsed.len() == 0 {
            return false;
        }
        let mut min_entropy: u32 = u32::MAX;
        let mut best_idx: Option<usize> = None;
        let mut i: usize = 0;
        while i < self.uncollapsed.len()
            invariant
                self.listed_in_bounds(),
                i <= self.uncollapsed@.len(),
                match best_idx {
                    None => min_entropy == u32::MAX && forall|j: int|
                        0 <= j < i ==> self.entropy(j) == 0,
                    Some(b) => {
                        &&& b < i
                        &&& self.entropy(b as int) == min_entropy
                        &&& self.entropy(b as int) > 0
                        &&& forall|j: int|
                            0 <= j < i && self.entropy(j) > 0 ==> self.entropy(b as int)
                                <= self.entropy(j)
                        &&& forall|j: int|
                            0 <= j < b && self.entropy(j) > 0 ==> self.entropy(b as int)
                                < self.entropy(j)
                    },
                },
            decreases self.uncollapsed@.len() - i,
        {
            let c = self.uncollapsed[i];
            assert(in_grid(c.y as int, c.x as int));
            let count = popcount(self.map[c.y][c.x].possible);
            proof {
                lemma_ones_bound(self.cell_at(c).possible as nat);
            }
            if count > 0 && count < min_entropy {
                min_entropy = count;
                best_idx = Some(i);
            }
            i += 1;
        }
        let idx = match best_idx {
            Some(b) => b,
            None => {
                return false;
            },
        };
        assert(self.is_min_entropy(idx as int));
        let ghost start = *self;
        let c = self.uncollapsed[idx];
        let y = c.y;
        let x = c.x;
        assert(in_grid(y as int, x as int));
        assert(lists(start.uncollapsed@, y as int, x as int));
        proof {
            lemma_ones_bound(start.cell(y as int, x as int).possible as nat);
        }
        self.collapse_cell(y, x);
        let ghost fixed = *self;
        self.propagate(y, x);
        proof {
            lemma_listed_within_trans(
                self.uncollapsed@,
                fixed.uncollapsed@,
                start.uncollapsed@,
            );
            assert(self.listed_in_bounds()) by {
                assert forall|k: int| 0 <= k < self.uncollapsed@.len() implies in_grid(
                    self.uncollapsed@[k].y as int,
                    self.uncollapsed@[k].x as int,
                ) by {
                    let m = choose|m: int|
                        0 <= m < start.uncollapsed@.len() && start.uncollapsed@[m].y
                            == self.uncollapsed@[k].y && start.uncollapsed@[m].x
                            == self.uncollapsed@[k].x;
                    assert(in_grid(start.uncollapsed@[m].y as int, start.uncollapsed@[m].x as int));
                }
            }
            if start.wf() {
                assert(!start.cell(y as int, x as int).collapsed);
                lemma_evolves_trans(&start, &fixed, self);
                lemma_picked_within(
                    start.cell(y as int, x as int).possible,
                    fixed.cell(y as int, x as int).final_type,
                );
                assert(start.fixes_within(&fixed)) by {
                    assert forall|i: int, j: int| in_grid(i, j) implies fixed_within(
                        start.cell(i, j),
                        fixed.cell(i, j),
                    ) by {
                        if !(i == y && j == x) {
                            assert(fixed.cell(i, j) == start.cell(i, j));
                        }
                    }
                }
                lemma_fixes_well_within(&fixed, self);
                lemma_fixes_within_trans(&start, &fixed, self);
                if start.sane() {
                    let p0 = start.cell(y as int, x as int).possible;
                    assert(cell_sane(start.cell(y as int, x as int)));
                    lemma_picked_tile(p0, fixed.cell(y as int, x as int).final_type);
                    assert(start.fixes_well(&fixed)) by {
                        assert forall|i: int, j: int| in_grid(i, j) implies fixed_well(
                            start.cell(i, j),
                            fixed.cell(i, j),
                        ) by {
                            if !(i == y && j == x) {
                                assert(fixed.cell(i, j) == start.cell(i, j));
                            }
                        }
                    }
                    lemma_fixes_well_trans(&start, &fixed, self);
                    lemma_sane_kept(&start, self);
                }
                if start.cells_ok() {
                    let p0 = start.cell(y as int, x as int).possible;
                    assert(cell_ok(start.cell(y as int, x as int)));
                    lemma_picked_tile(p0, fixed.cell(y as int, x as int).final_type);
                    assert(start.fixes_well(&fixed)) by {
                        assert forall|i: int, j: int| in_grid(i, j) implies fixed_well(
                            start.cell(i, j),
                            fixed.cell(i, j),
                        ) by {
                            if !(i == y && j == x) {
                                assert(fixed.cell(i, j) == start.cell(i, j));
                            }
                        }
                    }
                    lemma_fixes_well_trans(&start, &fixed, self);
                }
            }
            assert(self.cell(y as int, x as int) == fixed.cell(y as int, x as int));
            let ft = fixed.cell(y as int, x as int).final_type;
            assert(start.spread_from(self, y as int, x as int)) by {
                assert forall|i: int, j: int| #[trigger] start.newly_fixed(self, i, j) implies exists|
                    path: Seq<(int, int)>,
                | #[trigger] start.fixing_path(self, y as int, x as int, path) && path.last() == (i, j) by {
                    if i == y && j == x {
                        let path = seq![(y as int, x as int)];
                        assert(start.fixing_path(self, y as int, x as int, path));
                        assert(path.last() == (i, j));
                    } else {
                        assert(fixed.cell(i, j) == start.cell(i, j));
                        assert(fixed.newly_fixed(self, i, j));
                        let path = choose|path: Seq<(int, int)>|
                            #[trigger] fixed.fixing_path(self, y as int, x as int, path) && path.last() == (
                                i,
                                j,
                            );
                        assert(start.fixing_path(self, y as int, x as int, path)) by {
                            assert forall|k: int| #![trigger path[k]] 0 < k < path.len() implies adjacent(
                                path[k - 1].0,
                                path[k - 1].1,
                                path[k].0,
                                path[k].1,
                            ) && start.newly_fixed(self, path[k].0, path[k].1) by {
                                assert(fixed.newly_fixed(self, path[k].0, path[k].1));
                                assert(fixed.cell(path[k].0, path[k].1) == start.cell(path[k].0, path[k].1));
                            }
                        }
                    }
                }
                assert forall|i: int, j: int|
                    in_grid(i, j) && !self.cell(i, j).collapsed && self.cell(i, j).possible != start.cell(
                        i,
                        j,
                    ).possible implies adjacent(y as int, x as int, i, j) || exists|ny: int, nx: int|
                    adjacent(i, j, ny, nx) && #[trigger] start.newly_fixed(self, ny, nx) by {
                    assert(cell_evolves(fixed.cell(i, j), self.cell(i, j)));
                    if !(i == y && j == x) {
                        assert(fixed.cell(i, j) == start.cell(i, j));
                        if !adjacent(y as int, x as int, i, j) {
                            let (ny, nx) = choose|ny: int, nx: int|
                                adjacent(i, j, ny, nx) && #[trigger] fixed.newly_fixed(self, ny, nx);
                            assert(fixed.cell(ny, nx) == start.cell(ny, nx));
                            assert(start.newly_fixed(self, ny, nx));
                        }
                    }
                }
            }
            assert(fixes_only(start, fixed, y as int, x as int));
            assert(runs_to(fixed, *self, y as int, x as int, ft));
            assert(start.kept_beside(self, y as int, x as int, ft)) by {
                assert forall|i: int, j: int|
                    in_grid(i, j) && !start.cell(i, j).collapsed && !(i == y && j == x) implies mask_within(
                    start.cell(i, j).possible & kept_bound(*self, y as int, x as int, ft, i, j),
                    self.cell(i, j).possible,
                ) by {
                    assert(fixed.cell(i, j) == start.cell(i, j));
                }
            }
            assert forall|i: int, j: int|
                in_grid(i, j) && !start.cell(i, j).collapsed && self.cell(i, j).collapsed implies self.settled_around(
                i,
                j,
                neighbors_of(self.cell(i, j).final_type),
            ) by {
                if !(i == y && j == x) {
                    assert(fixed.cell(i, j) == start.cell(i, j));
                }
            }
            assert forall|i: int, j: int|
                in_grid(i, j) && !self.cell(i, j).collapsed && self.cell(i, j).possible
                    != start.cell(i, j).possible implies ones(self.cell(i, j).possible as nat) != 1 by {
                assert(cell_evolves(fixed.cell(i, j), self.cell(i, j)));
                if !(i == y && j == x) {
                    assert(fixed.cell(i, j) == start.cell(i, j));
                }
            }
            assert forall|j: int| #[trigger] start.is_min_entropy(j) implies j == idx as int by {
                if j < idx {
                    assert(start.entropy(idx as int) <= start.entropy(j));
                } else if j > idx {
                    assert(start.entropy(j) <= start.entropy(idx as int));
                }
            }
        }
        true
    }

    /// Runs `step` until it makes no progress. The grids passed on the way form a
    /// chain in which each is what a productive step may make of the one before
    /// (`stepped_to`): each time the cell with the fewest candidates is picked at
    /// random and every other cell is fixed only as propagation forces it.
    /// Afterwards no listed cell has a candidate left; from a consistent grid,
    /// every cell ends up fixed or without candidates.
    pub fn generate(&mut self)
        requires
            old(self).listed_in_bounds(),
        ensures
            exists|trace: Seq<World>|
                {
                    &&& trace.len() >= 1
                    &&& trace[0] == *old(self)
                    &&& trace.last() == *final(self)
                    &&& forall|k: int| 0 <= k < trace.len() - 1 ==> #[trigger] stepped_at(trace, k)
                },
            old(self).wf() ==> old(self).fixes_within(final(self)),
            old(self).wf() && old(self).sane() ==> final(self).sane() && old(self).fixes_well(
                final(self),
            ),
            final(self).listed_in_bounds(),
            listed_within(final(self).uncollapsed@, old(self).uncollapsed@),
            forall|i: int|
                0 <= i < final(self).uncollapsed@.len() ==> final(self).cell_at(
                    final(self).uncollapsed@[i],
                ).possible == 0,
            old(self).cells_ok() ==> final(self).cells_ok(),
            old(self).wf() && old(self).cells_ok() ==> old(self).fixes_well(final(self)),
            old(self).wf() ==> old(self).fixed_settle(final(self)) && old(self).open_not_single(
                final(self),
            ),
            old(self).wf() && old(self).cells_ok() ==> forall|y: int, x: int|
                #![trigger final(self).cell(y, x)]
                in_grid(y, x) ==> {
                    ||| final(self).cell(y, x).collapsed && (is_tile(final(self).cell(y, x).final_type)
                        || old(self).cell(y, x).collapsed)
                    ||| !final(self).cell(y, x).collapsed && final(self).cell(y, x).possible == 0
                },
            old(self).wf() ==> {
                &&& final(self).wf()
                &&& old(self).evolves_to(final(self))
                &&& forall|y: int, x: int|
                    #![trigger final(self).cell(y, x)]
                    in_grid(y, x) ==> final(self).cell(y, x).collapsed || final(self).cell(
                        y,
                        x,
                    ).possible == 0
            },
    {
        proof {
            lemma_listed_within_refl(self.uncollapsed@);
            lemma_evolves_refl(self);
            lemma_fixes_well_refl(self);
        }
        assert(old(self).fixed_settle(self) && old(self).open_not_single(self));
        let ghost mut trace: Seq<World> = seq![*self];
        loop
            invariant
                trace.len() >= 1,
                trace[0] == *old(self),
                trace.last() == *self,
                forall|k: int| 0 <= k < trace.len() - 1 ==> #[trigger] stepped_at(trace, k),
                old(self).wf() ==> old(self).fixes_within(self),
                old(self).wf() && old(self).sane() ==> self.sane() && old(self).fixes_well(self),
                self.listed_in_bounds(),
                listed_within(self.uncollapsed@, old(self).uncollapsed@),
                old(self).wf() ==> self.wf() && old(self).evolves_to(self),
                old(self).cells_ok() ==> self.cells_ok(),
                old(self).wf() && old(self).cells_ok() ==> old(self).fixes_well(self),
                old(self).wf() ==> old(self).fixed_settle(self) && old(self).open_not_single(self),
            ensures
                trace.len() >= 1,
                trace[0] == *old(self),
                trace.last() == *self,
                forall|k: int| 0 <= k < trace.len() - 1 ==> #[trigger] stepped_at(trace, k),
                old(self).wf() ==> old(self).fixes_within(self),
                old(self).wf() && old(self).sane() ==> self.sane() && old(self).fixes_well(self),
                old(self).wf() ==> old(self).fixed_settle(self) && old(self).open_not_single(self),
                old(self).cells_ok() ==> self.cells_ok(),
                old(self).wf() && old(self).cells_ok() ==> old(self).fixes_well(self),
                self.listed_in_bounds(),
                listed_within(self.uncollapsed@, old(self).uncollapsed@),
                old(self).wf() ==> self.wf() && old(self).evolves_to(self),
                forall|i: int| 0 <= i < self.uncollapsed@.len() ==> self.entropy(i) == 0,
            decreases self.uncollapsed@.len(),
        {
            let ghost prev = *self;
            if !self.step() {
                break;
            }
            proof {
                let ghost before = trace;
                trace = trace.push(*self);
                assert forall|k: int| 0 <= k < trace.len() - 1 implies #[trigger] stepped_at(
                    trace,
                    k,
                ) by {
                    if k < before.len() - 1 {
                        assert(stepped_at(before, k));
                        assert(trace[k] == before[k] && trace[k + 1] == before[k + 1]);
                    } else {
                        assert(trace[k] == prev);
                    }
                }
                if old(self).wf() {
                    lemma_fixes_within_trans(old(self), &prev, self);
                    if old(self).sane() {
                        lemma_fixes_well_trans(old(self), &prev, self);
                    }
                }
                lemma_listed_within_trans(
                    self.uncollapsed@,
                    prev.uncollapsed@,
                    old(self).uncollapsed@,
                );
                if old(self).wf() {
                    if old(self).cells_ok() {
                        lemma_fixes_well_trans(old(self), &prev, self);
                    }
                    lemma_settle_trans(*old(self), prev, *self);
                    lemma_evolves_trans(old(self), &prev, self);
                }
            }
        }
        proof {
            assert forall|i: int| 0 <= i < self.uncollapsed@.len() implies self.cell_at(
                self.uncollapsed@[i],
            ).possible == 0 by {
                assert(self.entropy(i) == 0);
                lemma_ones_bound(self.cell_at(self.uncollapsed@[i]).possible as nat);
            }
            if old(self).wf() {
                assert forall|y: int, x: int| in_grid(y, x) implies self.cell(y, x).collapsed
                    || self.cell(y, x).possible == 0 by {
                    if !self.cell(y, x).collapsed {
                        assert(lists(self.uncollapsed@, y, x));
                        let i = choose|i: int|
                            0 <= i < self.uncollapsed@.len() && self.uncollapsed@[i].y == y
                                && self.uncollapsed@[i].x == x;
                        assert(self.entropy(i) == 0);
                        lemma_ones_bound(self.cell(y, x).possible as nat);
                    }
                }
            }
        }
    }
}

/// Grid `k + 1` of `trace` is what a productive step may make of grid `k`.
pub open spec fn stepped_at(trace: Seq<World>, k: int) -> bool {
    trace[k].stepped_to(&trace[k + 1])
}

proof fn lemma_listed_within_refl(s: Seq<Coord>)
    ensures
        listed_within(s, s),
{
    assert forall|i: int| 0 <= i < s.len() implies lists(s, s[i].y as int, s[i].x as int) by {}
}

proof fn lemma_listed_within_trans(a: Seq<Coord>, b: Seq<Coord>, c: Seq<Coord>)
    requires
        listed_within(a, b),
        listed_within(b, c),
    ensures
        listed_within(a, c),
{
    assert forall|i: int| 0 <= i < a.len() implies lists(c, a[i].y as int, a[i].x as int) by {
        let k = choose|k: int| 0 <= k < b.len() && b[k].y == a[i].y && b[k].x == a[i].x;
        assert(lists(c, b[k].y as int, b[k].x as int));
    }
}

} // verus!
