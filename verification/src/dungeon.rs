use vstd::prelude::*;
use crate::common::{Rect, MAP_HEIGHT, MAP_WIDTH, TILE_DOOR, TILE_EXIT, TILE_FLOOR, TILE_WALL};
use crate::random::{random_bool, random_usize};
use std::collections::{HashSet, VecDeque};

verus! {

broadcast use vstd::std_specs::hash::group_hash_axioms;

/// A character grid of `height` rows of `width` tiles each.
pub struct World {
    pub map: Vec<Vec<char>>,
    pub width: usize,
    pub height: usize,
}

/// A room carved out of the building, with its number.
#[derive(Clone, Debug)]
pub struct Room {
    pub rect: Rect,
    pub id: usize,
}

/// Rooms are not cut below this many tiles across (walls included).
pub const MIN_DIM: usize = 5;

/// Doors on one wall line are kept at least this many tiles apart where possible.
pub const MIN_DOOR_SPACING: usize = 3;

/// The tile that marks the centre of the hub, the largest room.
pub const TILE_HUB: char = 'K';

/// The smaller of two integers.
pub open spec fn min_int(a: int, b: int) -> int {
    if a <= b {
        a
    } else {
        b
    }
}

/// The larger of two integers.
pub open spec fn max_int(a: int, b: int) -> int {
    if a >= b {
        a
    } else {
        b
    }
}

/// `(x, y)` lies in the rectangle `r`.
pub open spec fn in_rect(r: Rect, x: int, y: int) -> bool {
    r.x <= x < r.x + r.w && r.y <= y < r.y + r.h
}

/// `(x, y)` lies on the outline of the rectangle `(rx, ry, w, h)`, as drawn by
/// `draw_rect_border`: its top and bottom rows and its left and right columns.
pub open spec fn on_border(rx: int, ry: int, w: int, h: int, x: int, y: int) -> bool {
    ||| (rx <= x < rx + w && (y == ry || y == ry + h - 1))
    ||| (ry <= y < ry + h && (x == rx || x == rx + w - 1))
}

/// The interiors of `a` and `b` overlap: they share more than an outline.
pub open spec fn interiors_overlap(a: Rect, b: Rect) -> bool {
    &&& min_int(a.x + a.w, b.x + b.w) > max_int(a.x as int, b.x as int) + 1
    &&& min_int(a.y + a.h, b.y + b.h) > max_int(a.y as int, b.y as int) + 1
}

/// The wing `e` stands against a side of `p`, sharing its outline there, and
/// is centred on that side (up to rounding of halves).
pub open spec fn wing_of(p: Rect, e: Rect) -> bool {
    ||| (e.x == p.x + p.w - 1 && e.y + e.h / 2 == p.y + p.h / 2)
    ||| (e.x + e.w - 1 == p.x && e.y + e.h / 2 == p.y + p.h / 2)
    ||| (e.y == p.y + p.h - 1 && e.x + e.w / 2 == p.x + p.w / 2)
    ||| (e.y + e.h - 1 == p.y && e.x + e.w / 2 == p.x + p.w / 2)
}

/// Rectangle `i` is a wing of an earlier rectangle.
pub open spec fn has_parent(rects: Seq<Rect>, i: int) -> bool {
    exists|p: int| 0 <= p < i && #[trigger] wing_of(rects[p], rects[i])
}

/// Every rectangle after the first is a wing of an earlier one.
#[verifier::opaque]
pub open spec fn wings_attached(rects: Seq<Rect>) -> bool {
    forall|i: int| 1 <= i < rects.len() ==> #[trigger] has_parent(rects, i)
}

proof fn lemma_push_wing(rects: Seq<Rect>, e: Rect, pi: int)
    requires
        wings_attached(rects),
        0 <= pi < rects.len(),
        wing_of(rects[pi], e),
    ensures
        wings_attached(rects.push(e)),
{
    reveal(wings_attached);
    let t = rects.push(e);
    assert forall|i: int| 1 <= i < t.len() implies #[trigger] has_parent(t, i) by {
        if i < rects.len() {
            assert(has_parent(rects, i));
            assert(t[i] == rects[i]);
            let p = choose|p: int| 0 <= p < i && #[trigger] wing_of(rects[p], rects[i]);
            assert(t[p] == rects[p]);
            assert(wing_of(t[p], t[i]));
        } else {
            assert(t[pi] == rects[pi] && t[i] == e);
            assert(wing_of(t[pi], t[i]));
        }
    }
}

/// `(x, y)` lies on a grid of `width` columns and `height` rows.
pub open spec fn within(width: usize, height: usize, x: int, y: int) -> bool {
    0 <= x < width && 0 <= y < height
}

/// The rectangle ends at most 15 tiles beyond the right and bottom sides of a
/// `width` by `height` grid, as the core of a footprint does on any grid.
pub open spec fn near_grid(r: Rect, width: int, height: int) -> bool {
    r.x + r.w <= width + 15 && r.y + r.h <= height + 15
}

/// The rectangle lies inside a `width` by `height` grid.
pub open spec fn rect_inside(r: Rect, width: int, height: int) -> bool {
    r.x + r.w <= width && r.y + r.h <= height
}

impl World {
    /// The grid has `height` rows of `width` tiles.
    pub open spec fn wf(&self) -> bool {
        &&& self.map@.len() == self.height
        &&& forall|r: int| 0 <= r < self.height ==> (#[trigger] self.map@[r])@.len() == self.width
    }

    /// The tile at column `x`, row `y`.
    pub open spec fn tile(&self, x: int, y: int) -> char {
        self.map@[y]@[x]
    }

    /// `(x, y)` lies on the grid.
    pub open spec fn on_map(&self, x: int, y: int) -> bool {
        within(self.width, self.height, x, y)
    }

    /// `other` is a well-formed grid of the same size.
    pub open spec fn same_size(&self, other: &World) -> bool {
        &&& other.wf()
        &&& other.width == self.width
        &&& other.height == self.height
    }

    /// A `width` by `height` grid of walls.
    pub fn new(width: usize, height: usize) -> (w: Self)
        ensures
            w.wf(),
            w.width == width,
            w.height == height,
            forall|x: int, y: int| #[trigger] within(w.width, w.height, x, y) ==> w.tile(x, y) == TILE_WALL,
    {
        let row: Vec<char> = vec![TILE_WALL; width];
        let mut map: Vec<Vec<char>> = Vec::new();
        for r in 0..height
            invariant
                row@.len() == width,
                forall|c: int| 0 <= c < width ==> row@[c] == TILE_WALL,
                map@.len() == r,
                forall|i: int| 0 <= i < r ==> (#[trigger] map@[i])@ == row@,
        {
            map.push(row.clone());
        }
        World { map, width, height }
    }

    /// Sets the tile at column `x`, row `y`, when that lies on the grid.
    pub fn safe_set_tile(&mut self, x: usize, y: usize, tile: char)
        requires
            old(self).wf(),
        ensures
            old(self).same_size(final(self)),
            forall|c: int, r: int|
                #[trigger] within(final(self).width, final(self).height, c, r) ==> final(self).tile(c, r) == if c == x && r
                    == y {
                    tile
                } else {
                    old(self).tile(c, r)
                },
    {
        if y < self.height && x < self.width {
            self.map[y][x] = tile;
        }
    }

    /// Sets every tile of the rectangle `(x, y, w, h)` that lies on the grid.
    pub fn fill_rect(&mut self, x: usize, y: usize, w: usize, h: usize, tile: char)
        requires
            old(self).wf(),
            x + w <= usize::MAX,
            y + h <= usize::MAX,
        ensures
            old(self).same_size(final(self)),
            forall|c: int, r: int|
                #[trigger] within(final(self).width, final(self).height, c, r) ==> final(self).tile(c, r) == if x <= c < x
                    + w && y <= r < y + h {
                    tile
                } else {
                    old(self).tile(c, r)
                },
    {
        let width = self.width;
        let height = self.height;
        let mut row = y;
        while row < y + h
            invariant
                y <= row <= y + h,
                y + h <= usize::MAX,
                x + w <= usize::MAX,
                width == self.width,
                height == self.height,
                old(self).same_size(self),
                forall|c: int, r: int|
                    #[trigger] within(self.width, self.height, c, r) ==> self.tile(c, r) == if x <= c < x + w && y
                        <= r < row {
                        tile
                    } else {
                        old(self).tile(c, r)
                    },
            decreases y + h - row,
        {
            if row < height {
                let mut col = x;
                while col < x + w
                    invariant
                        x <= col <= x + w,
                        y <= row < y + h,
                        row < height,
                        x + w <= usize::MAX,
                        width == self.width,
                        height == self.height,
                        old(self).same_size(self),
                        forall|c: int, r: int|
                            #[trigger] within(self.width, self.height, c, r) ==> self.tile(c, r) == if (x <= c < x + w
                                && y <= r < row) || (x <= c < col && r == row) {
                                tile
                            } else {
                                old(self).tile(c, r)
                            },
                    decreases x + w - col,
                {
                    if col < width {
                        self.map[row][col] = tile;
                    }
                    col += 1;
                }
            }
            row += 1;
        }
    }

    /// Draws the outline of the rectangle `(x, y, w, h)` in wall, clipped to the
    /// grid.
    pub fn draw_rect_border(&mut self, x: usize, y: usize, w: usize, h: usize)
        requires
            old(self).wf(),
            x + w <= usize::MAX,
            y + h <= usize::MAX,
            w > 0 ==> y + h >= 1,
            h > 0 ==> x + w >= 1,
        ensures
            old(self).same_size(final(self)),
            forall|c: int, r: int|
                #[trigger] within(final(self).width, final(self).height, c, r) ==> final(self).tile(c, r) == if on_border(
                    x as int,
                    y as int,
                    w as int,
                    h as int,
                    c,
                    r,
                ) {
                    TILE_WALL
                } else {
                    old(self).tile(c, r)
                },
    {
        for col in x..x + w
            invariant
                old(self).same_size(self),
                w > 0 ==> y + h >= 1,
                y + h <= usize::MAX,
                forall|c: int, r: int|
                    #[trigger] within(self.width, self.height, c, r) ==> self.tile(c, r) == if x <= c < col && (r == y
                        || r == y + h - 1) {
                        TILE_WALL
                    } else {
                        old(self).tile(c, r)
                    },
        {
            self.safe_set_tile(col, y, TILE_WALL);
            self.safe_set_tile(col, y + h - 1, TILE_WALL);
        }
        for row in y..y + h
            invariant
                old(self).same_size(self),
                h > 0 ==> x + w >= 1,
                x + w <= usize::MAX,
                forall|c: int, r: int|
                    #[trigger] within(self.width, self.height, c, r) ==> self.tile(c, r) == if (x <= c < x + w && (r
                        == y || r == y + h - 1)) || (y <= r < row && (c == x || c == x + w - 1)) {
                        TILE_WALL
                    } else {
                        old(self).tile(c, r)
                    },
        {
            self.safe_set_tile(x, row, TILE_WALL);
            self.safe_set_tile(x + w - 1, row, TILE_WALL);
        }
    }

    /// Whether the interiors of `a` and `b` overlap; rectangles that only share
    /// an outline row or column do not.
    pub fn overlaps_interior(a: &Rect, b: &Rect) -> (o: bool)
        requires
            a.x + a.w <= usize::MAX,
            b.x + b.w <= usize::MAX,
            a.y + a.h <= usize::MAX,
            b.y + b.h <= usize::MAX,
            max_int(a.x as int, b.x as int) < usize::MAX,
            max_int(a.y as int, b.y as int) < usize::MAX,
        ensures
            o == interiors_overlap(*a, *b),
    {
        let ix_lo = a.x.max(b.x);
        let ix_hi = (a.x + a.w).min(b.x + b.w);
        let iy_lo = a.y.max(b.y);
        let iy_hi = (a.y + a.h).min(b.y + b.h);
        ix_hi > ix_lo + 1 && iy_hi > iy_lo + 1
    }

}

/// The place where a side of `len` tiles is cut for the draw `r`: `MIN_DIM`
/// plus `r` modulo the number of places that leave both parts, which share the
/// cut line, at least `MIN_DIM` tiles across.
pub open spec fn cut_for_draw(len: int, r: int) -> int {
    MIN_DIM + r % (len + 2 - 2 * MIN_DIM)
}

/// Every draw cuts a side of `len` tiles at a place that leaves both parts at
/// least `MIN_DIM` tiles across, and every such place is the cut for some draw,
/// exactly for the draws that agree with it modulo the number of places: a
/// uniform draw makes every place about equally likely.
pub proof fn lemma_every_cut_has_draws(len: int)
    requires
        MIN_DIM * 2 - 1 <= len,
    ensures
        forall|r: int| 0 <= r ==> MIN_DIM <= #[trigger] cut_for_draw(len, r) <= len + 1 - MIN_DIM,
        forall|s: int|
            MIN_DIM <= s <= len + 1 - MIN_DIM ==> #[trigger] cut_for_draw(len, s - MIN_DIM) == s,
        forall|r1: int, r2: int|
            0 <= r1 && 0 <= r2 && #[trigger] cut_for_draw(len, r1) == #[trigger] cut_for_draw(len, r2)
                ==> r1 % (len + 2 - 2 * MIN_DIM) == r2 % (len + 2 - 2 * MIN_DIM),
{
    assert forall|s: int| MIN_DIM <= s <= len + 1 - MIN_DIM implies #[trigger] cut_for_draw(
        len,
        s - MIN_DIM,
    ) == s by {
        vstd::arithmetic::div_mod::lemma_small_mod(
            (s - MIN_DIM) as nat,
            (len + 2 - 2 * MIN_DIM) as nat,
        );
    }
}

/// Where a side of `len` tiles is cut, from a random draw `r`
/// (`cut_for_draw`).
pub fn split_point(len: usize, r: usize) -> (s: usize)
    requires
        MIN_DIM * 2 - 1 <= len < usize::MAX,
    ensures
        s == cut_for_draw(len as int, r as int),
        s == MIN_DIM + (r as int) % (len + 2 - 2 * MIN_DIM),
        MIN_DIM <= s <= len + 1 - MIN_DIM,
{
    let span = len + 1 - 2 * MIN_DIM;
    MIN_DIM + r % (span + 1)
}

/// Which of `len` candidates the draw `r` picks: `r` modulo `len`.
pub open spec fn index_for_draw(len: int, r: int) -> int {
    r % len
}

/// Every draw picks one of the `len` candidates, and every candidate is picked
/// by some draw: a uniform draw can pick any of them.
pub proof fn lemma_every_index_has_draws(len: int)
    requires
        len > 0,
    ensures
        forall|r: int| 0 <= r ==> 0 <= #[trigger] index_for_draw(len, r) < len,
        forall|i: int| 0 <= i < len ==> #[trigger] index_for_draw(len, i) == i,
{
    assert forall|i: int| 0 <= i < len implies #[trigger] index_for_draw(len, i) == i by {
        vstd::arithmetic::div_mod::lemma_small_mod(i as nat, len as nat);
    }
}

/// Which of `len` candidates a random draw `r` picks (`index_for_draw`).
pub fn pick_index(len: usize, r: usize) -> (i: usize)
    requires
        len > 0,
    ensures
        i == index_for_draw(len as int, r as int),
        i == r % len,
        i < len,
{
    r % len
}

/// The rectangles that grow from `rects` when wings are tried in turn with
/// the draws of `tries` until `target` wings were added (`placed` so far) or
/// the tries run out: each try adds `wing_for_draws(..)` when there is one.
pub open spec fn grow_wings(
    rects: Seq<Rect>,
    width: int,
    height: int,
    target: int,
    placed: int,
    tries: Seq<(usize, usize, usize, usize)>,
) -> Seq<Rect>
    decreases tries.len(),
{
    if tries.len() == 0 || placed >= target {
        rects
    } else {
        let t = tries[0];
        match wing_for_draws(rects, width, height, t.0 as int, t.1 as int, t.2 as int, t.3 as int) {
            Some(e) => grow_wings(rects.push(e), width, height, target, placed + 1, tries.drop_first()),
            None => grow_wings(rects, width, height, target, placed, tries.drop_first()),
        }
    }
}

/// How many wings the draw `td` asks for: one, two or three.
pub open spec fn wings_wanted(td: int) -> int {
    1 + td % 3
}

/// Every draw asks for one to three wings, and each of these counts is asked
/// for by some draw.
pub proof fn lemma_every_wing_count_has_draws()
    ensures
        forall|td: int| 0 <= td ==> 1 <= #[trigger] wings_wanted(td) <= 3,
        forall|n: int| 1 <= n <= 3 ==> #[trigger] wings_wanted(n - 1) == n,
{
}

/// The footprint that the draws give: the 10 by 10 core placed by the draws
/// `hx` and `hy` (see `core_offset`), grown with up to `wings_wanted(td)` wings tried
/// with the draws of `tries`.
pub open spec fn footprint_of(
    width: int,
    height: int,
    hx: int,
    hy: int,
    td: int,
    tries: Seq<(usize, usize, usize, usize)>,
) -> Seq<Rect> {
    grow_wings(
        seq![Rect { x: (5 + hx % core_span(width)) as usize, y: (5 + hy % core_span(height)) as usize, w: 10, h: 10 }],
        width,
        height,
        wings_wanted(td),
        0,
        tries,
    )
}

/// How many places the 10 by 10 core may take along a side of `side` tiles:
/// one for sides up to 21 tiles, one more for each tile beyond.
pub open spec fn core_span(side: int) -> int {
    max_int(max_int(side - 15, 6) - 5, 1)
}

/// Where the core starts along a side of `side` tiles, from a random draw `r`:
/// five tiles in, plus `r` modulo `core_span(side)`.
pub fn core_offset(side: usize, r: usize) -> (o: usize)
    ensures
        o == 5 + (r as int) % core_span(side as int),
{
    let max = side.saturating_sub(15).max(6);
    5 + r % max.saturating_sub(5).max(1)
}

/// The wing of `ew` by `eh` tiles that would stand against side `s` of the
/// rectangle `p` (0 right, 1 left, 2 bottom, anything else top), sharing its
/// outline there and centred on it; none where it would start before the
/// grid's first row or column.
pub open spec fn wing_candidate(p: Rect, s: int, ew: int, eh: int) -> Option<Rect> {
    if s == 0 {
        if p.y + p.h / 2 < eh / 2 {
            None
        } else {
            Some(Rect { x: (p.x + p.w - 1) as usize, y: (p.y + p.h / 2 - eh / 2) as usize, w: ew as usize, h: eh as usize })
        }
    } else if s == 1 {
        if p.x + 1 < ew || p.y + p.h / 2 < eh / 2 {
            None
        } else {
            Some(Rect { x: (p.x + 1 - ew) as usize, y: (p.y + p.h / 2 - eh / 2) as usize, w: ew as usize, h: eh as usize })
        }
    } else if s == 2 {
        if p.x + p.w / 2 < ew / 2 {
            None
        } else {
            Some(Rect { x: (p.x + p.w / 2 - ew / 2) as usize, y: (p.y + p.h - 1) as usize, w: ew as usize, h: eh as usize })
        }
    } else {
        if p.y + 1 < eh || p.x + p.w / 2 < ew / 2 {
            None
        } else {
            Some(Rect { x: (p.x + p.w / 2 - ew / 2) as usize, y: (p.y + 1 - eh) as usize, w: ew as usize, h: eh as usize })
        }
    }
}

/// The wing `wing_candidate(parent, side, ew, eh)`.
pub fn wing_rect(parent: Rect, side: usize, ew: usize, eh: usize) -> (e: Option<Rect>)
    requires
        parent.x + parent.w <= usize::MAX,
        parent.y + parent.h <= usize::MAX,
        1 <= parent.w,
        1 <= parent.h,
    ensures
        e == wing_candidate(parent, side as int, ew as int, eh as int),
{
    if side == 0 {
        if parent.y + parent.h / 2 < eh / 2 {
            return None;
        }
        Some(Rect { x: parent.x + parent.w - 1, y: parent.y + parent.h / 2 - eh / 2, w: ew, h: eh })
    } else if side == 1 {
        if parent.x + 1 < ew || parent.y + parent.h / 2 < eh / 2 {
            return None;
        }
        Some(Rect { x: parent.x + 1 - ew, y: parent.y + parent.h / 2 - eh / 2, w: ew, h: eh })
    } else if side == 2 {
        if parent.x + parent.w / 2 < ew / 2 {
            return None;
        }
        Some(Rect { x: parent.x + parent.w / 2 - ew / 2, y: parent.y + parent.h - 1, w: ew, h: eh })
    } else {
        if parent.y + 1 < eh || parent.x + parent.w / 2 < ew / 2 {
            return None;
        }
        Some(Rect { x: parent.x + parent.w / 2 - ew / 2, y: parent.y + 1 - eh, w: ew, h: eh })
    }
}

/// The wing keeps off the grid's first row and column and ends before its
/// last ones.
pub open spec fn wing_fits(e: Rect, width: int, height: int) -> bool {
    &&& e.x != 0
    &&& e.y != 0
    &&& e.x + e.w < width
    &&& e.y + e.h < height
}

/// The interior of `e` overlaps that of no rectangle of `rects`.
pub open spec fn clear_of(rects: Seq<Rect>, e: Rect) -> bool {
    forall|i: int| 0 <= i < rects.len() ==> !interiors_overlap(#[trigger] rects[i], e)
}

/// The wing that the draws `pick` (parent), `side`, `wd` (width) and `hd`
/// (height) ask for on the footprint `rects`, if it may be added: a wing of
/// 7 to 10 tiles a side against side `side % 4` of rectangle `pick % len`,
/// fitting the grid and overlapping no rectangle.
pub open spec fn wing_for_draws(
    rects: Seq<Rect>,
    width: int,
    height: int,
    pick: int,
    side: int,
    wd: int,
    hd: int,
) -> Option<Rect> {
    match wing_candidate(rects[pick % rects.len() as int], side % 4, 7 + wd % 4, 7 + hd % 4) {
        Some(e) => if wing_fits(e, width, height) && clear_of(rects, e) {
            Some(e)
        } else {
            None
        },
        None => None,
    }
}

/// A wing that the draws `pick`, `side`, `wd` and `hd` add to the footprint
/// `rects` hangs off rectangle `pick % rects.len()`, chosen by the draw: it is
/// `7 + wd % 4` tiles wide and `7 + hd % 4` high, shares that rectangle's right,
/// left, bottom or top side for `side % 4` of 0, 1, 2 or 3, centred on it; it
/// keeps off the grid's first and last rows and columns and overlaps no
/// rectangle of the footprint.
pub proof fn lemma_wing_hangs_off_the_picked_rect(
    rects: Seq<Rect>,
    width: int,
    height: int,
    pick: int,
    side: int,
    wd: int,
    hd: int,
)
    requires
        rects.len() >= 1,
        pick >= 0,
        side >= 0,
        wd >= 0,
        hd >= 0,
        forall|i: int|
            0 <= i < rects.len() ==> 1 <= (#[trigger] rects[i]).w && 1 <= rects[i].h && rects[i].x
                + rects[i].w <= usize::MAX && rects[i].y + rects[i].h <= usize::MAX,
    ensures
        wing_for_draws(rects, width, height, pick, side, wd, hd) matches Some(e) ==> {
            let p = rects[pick % rects.len() as int];
            &&& e.w == 7 + wd % 4
            &&& e.h == 7 + hd % 4
            &&& wing_of(p, e)
            &&& side % 4 == 0 ==> e.x == p.x + p.w - 1 && e.y + e.h / 2 == p.y + p.h / 2
            &&& side % 4 == 1 ==> e.x + e.w - 1 == p.x && e.y + e.h / 2 == p.y + p.h / 2
            &&& side % 4 == 2 ==> e.y == p.y + p.h - 1 && e.x + e.w / 2 == p.x + p.w / 2
            &&& side % 4 == 3 ==> e.y + e.h - 1 == p.y && e.x + e.w / 2 == p.x + p.w / 2
            &&& 0 < e.x && 0 < e.y && e.x + e.w < width && e.y + e.h < height
            &&& forall|i: int| 0 <= i < rects.len() ==> !interiors_overlap(#[trigger] rects[i], e)
        },
{
    let n = rects.len() as int;
    let k = pick % n;
    assert(0 <= k < n);
    let p = rects[k];
    assert(1 <= p.w && 1 <= p.h);
}

impl World {
    /// The grid's sides are small enough for a row, and the list of rows, to be
    /// allocated: `char` takes four bytes and no allocation exceeds `isize::MAX`.
    pub open spec fn allocatable(&self) -> bool {
        self.width <= isize::MAX / 4 && self.height <= isize::MAX / 4
    }

    /// Draws the building's footprint at random: the draws for the core's
    /// place and for the number of wings, then 40 tries of four draws each,
    /// handed to `footprint_from_draws`.
    pub fn gen_footprint(&self) -> (rects: Vec<Rect>)
        requires
            self.allocatable(),
        ensures
            1 <= rects@.len() <= 4,
            rects@[0].w == 10,
            rects@[0].h == 10,
            5 <= rects@[0].x < 5 + core_span(self.width as int),
            5 <= rects@[0].y < 5 + core_span(self.height as int),
            15 <= self.width && 15 <= self.height ==> rect_inside(
                rects@[0],
                self.width as int,
                self.height as int,
            ),
            forall|i: int|
                1 <= i < rects@.len() ==> {
                    let r = #[trigger] rects@[i];
                    &&& 0 < r.x
                    &&& 0 < r.y
                    &&& r.x + r.w < self.width
                    &&& r.y + r.h < self.height
                    &&& 7 <= r.w <= 10
                    &&& 7 <= r.h <= 10
                },
            forall|i: int, j: int|
                0 <= i < j < rects@.len() ==> !interiors_overlap(rects@[i], rects@[j]),
            wings_attached(rects@),
            exists|hx: int, hy: int, td: int, tries: Seq<(usize, usize, usize, usize)>|
                #[trigger] footprint_of(self.width as int, self.height as int, hx, hy, td, tries)
                    == rects@ && tries.len() == 40,
    {
        let hx = random_usize();
        let hy = random_usize();
        let td = random_usize();
        let mut tries: Vec<(usize, usize, usize, usize)> = Vec::new();
        for i in 0..40usize
            invariant
                tries@.len() == i,
        {
            let pick = random_usize();
            let side = random_usize();
            let wd = random_usize();
            let hd = random_usize();
            tries.push((pick, side, wd, hd));
        }
        self.footprint_from_draws(hx, hy, td, &tries)
    }

    /// The footprint that the draws give: a 10 by 10 core at
    /// `(core_offset(width, hx), core_offset(height, hy))`, then wings tried in
    /// turn by `try_wing` with each entry of `tries`, until `1 + td % 3` were
    /// added or the tries run out (see `footprint_of`).
    pub fn footprint_from_draws(
        &self,
        hx: usize,
        hy: usize,
        td: usize,
        tries: &Vec<(usize, usize, usize, usize)>,
    ) -> (rects: Vec<Rect>)
        requires
            self.allocatable(),
        ensures
            rects@ == footprint_of(self.width as int, self.height as int, hx as int, hy as int, td as int, tries@),
            1 <= rects@.len() <= 4,
            rects@[0].w == 10,
            rects@[0].h == 10,
            5 <= rects@[0].x < 5 + core_span(self.width as int),
            5 <= rects@[0].y < 5 + core_span(self.height as int),
            15 <= self.width && 15 <= self.height ==> rect_inside(
                rects@[0],
                self.width as int,
                self.height as int,
            ),
            forall|i: int|
                1 <= i < rects@.len() ==> {
                    let r = #[trigger] rects@[i];
                    &&& 0 < r.x
                    &&& 0 < r.y
                    &&& r.x + r.w < self.width
                    &&& r.y + r.h < self.height
                    &&& 7 <= r.w <= 10
                    &&& 7 <= r.h <= 10
                },
            forall|i: int, j: int|
                0 <= i < j < rects@.len() ==> !interiors_overlap(rects@[i], rects@[j]),
            wings_attached(rects@),
    {
        let core_x = core_offset(self.width, hx);
        let core_y = core_offset(self.height, hy);

        let mut rects = vec![Rect { x: core_x, y: core_y, w: 10, h: 10 }];
        proof {
            reveal(wings_attached);
            assert(rects@ =~= seq![
                Rect {
                    x: (5 + hx as int % core_span(self.width as int)) as usize,
                    y: (5 + hy as int % core_span(self.height as int)) as usize,
                    w: 10,
                    h: 10,
                },
            ]);
        }

        let target = 1 + td % 3;
        let mut placed: usize = 0;
        let mut k: usize = 0;
        proof {
            assert(tries@.subrange(0, tries@.len() as int) =~= tries@);
        }
        while placed < target && k < tries.len()
            invariant
                grow_wings(
                    rects@,
                    self.width as int,
                    self.height as int,
                    target as int,
                    placed as int,
                    tries@.subrange(k as int, tries@.len() as int),
                ) == footprint_of(self.width as int, self.height as int, hx as int, hy as int, td as int, tries@),
                target == 1 + td % 3,
                k <= tries@.len(),
                self.allocatable(),
                target <= 3,
                placed <= target,
                1 <= rects@.len() <= 1 + placed,
                rects@[0].w == 10,
                rects@[0].h == 10,
                5 <= rects@[0].x < 5 + core_span(self.width as int),
                5 <= rects@[0].y < 5 + core_span(self.height as int),
                15 <= self.width && 15 <= self.height ==> rect_inside(
                    rects@[0],
                    self.width as int,
                    self.height as int,
                ),
                forall|i: int|
                    1 <= i < rects@.len() ==> {
                        let r = #[trigger] rects@[i];
                        &&& 0 < r.x
                        &&& 0 < r.y
                        &&& r.x + r.w < self.width
                        &&& r.y + r.h < self.height
                        &&& 7 <= r.w <= 10
                        &&& 7 <= r.h <= 10
                    },
                forall|i: int, j: int|
                    0 <= i < j < rects@.len() ==> !interiors_overlap(rects@[i], rects@[j]),
                wings_attached(rects@),
            decreases tries@.len() - k,
        {
            let (pick, side, wd, hd) = tries[k];
            let ghost rest = tries@.subrange(k as int, tries@.len() as int);
            proof {
                assert(rest[0] == tries@[k as int]);
                assert(rest.drop_first() =~= tries@.subrange(k + 1, tries@.len() as int));
            }
            k += 1;
            let ghost before = rects@;
            assert forall|i: int| 0 <= i < before.len() implies {
                let r = #[trigger] before[i];
                &&& near_grid(r, self.width as int, self.height as int)
                &&& 1 <= r.w
                &&& 1 <= r.h
            } by {
                if i > 0 {
                    assert(7 <= before[i].w);
                }
            }
            if self.try_wing(&mut rects, pick, side, wd, hd) {
                proof {
                    let pi = pick as int % before.len() as int;
                    let e = rects@[before.len() as int];
                    assert(rects@ == before.push(e));
                    assert(wing_candidate(before[pi], side as int % 4, 7 + wd as int % 4, 7 + hd as int % 4) == Some(e));
                    assert(wing_of(before[pi], e));
                    lemma_push_wing(before, e, pi);
                    assert forall|i: int, j: int|
                        0 <= i < j < rects@.len() implies !interiors_overlap(rects@[i], rects@[j]) by {
                        if j == before.len() {
                            assert(clear_of(before, e));
                            assert(!interiors_overlap(before[i], e));
                        } else {
                            assert(rects@[i] == before[i] && rects@[j] == before[j]);
                        }
                    }
                }
                placed += 1;
            }
        }

        rects
    }

    /// Tries one wing on the footprint `rects` from the draws `pick`, `side`,
    /// `wd` and `hd`: adds `wing_for_draws(..)` when there is one, and says
    /// whether it did.
    pub fn try_wing(&self, rects: &mut Vec<Rect>, pick: usize, side: usize, wd: usize, hd: usize) -> (added: bool)
        requires
            old(rects)@.len() >= 1,
            self.allocatable(),
            forall|i: int|
                0 <= i < old(rects)@.len() ==> {
                    let r = #[trigger] old(rects)@[i];
                    &&& near_grid(r, self.width as int, self.height as int)
                    &&& 1 <= r.w
                    &&& 1 <= r.h
                },
        ensures
            added == wing_for_draws(old(rects)@, self.width as int, self.height as int, pick as int, side as int, wd as int, hd as int) is Some,
            added ==> final(rects)@ == old(rects)@.push(
                wing_for_draws(old(rects)@, self.width as int, self.height as int, pick as int, side as int, wd as int, hd as int)->0,
            ),
            !added ==> final(rects)@ == old(rects)@,
            added ==> wing_of(old(rects)@[pick as int % old(rects)@.len() as int], final(rects)@.last()),
    {
        let parent = rects[pick % rects.len()];
        assert(near_grid(rects@[pick as int % rects@.len() as int], self.width as int, self.height as int));
        let ew = 7 + wd % 4;
        let eh = 7 + hd % 4;
        let ext = match wing_rect(parent, side % 4, ew, eh) {
            Some(e) => e,
            None => {
                return false;
            },
        };
        if ext.x == 0 || ext.y == 0 {
            return false;
        }
        if ext.x + ext.w >= self.width || ext.y + ext.h >= self.height {
            return false;
        }
        if overlaps_any(rects, &ext) {
            return false;
        }
        rects.push(ext);
        true
    }

    /// Cuts the rectangle `(x, y, w, h)` into rooms at random, appending them to
    /// `rooms` numbered by their place there. A side of nine tiles or more may
    /// be cut, at a random place that leaves both parts at least `MIN_DIM` tiles
    /// across; neighbouring parts share their outline: every side of every room
    /// lies on the rectangle's side or on the opposite side of another room
    /// (`walls_shared`).
    pub fn recursive_slice(&self, x: usize, y: usize, w: usize, h: usize, rooms: &mut Vec<Room>)
        requires
            x + w <= usize::MAX,
            y + h <= usize::MAX,
            w < usize::MAX,
            h < usize::MAX,
        ensures
            final(rooms)@.len() > old(rooms)@.len(),
            final(rooms)@.subrange(0, old(rooms)@.len() as int) == old(rooms)@,
            forall|i: int|
                old(rooms)@.len() <= i < final(rooms)@.len() ==> {
                    let r = (#[trigger] final(rooms)@[i]).rect;
                    &&& x <= r.x
                    &&& r.x + r.w <= x + w
                    &&& y <= r.y
                    &&& r.y + r.h <= y + h
                    &&& r.w < MIN_DIM * 2 - 1
                    &&& r.h < MIN_DIM * 2 - 1
                    &&& r.w >= min_int(w as int, MIN_DIM as int)
                    &&& r.h >= min_int(h as int, MIN_DIM as int)
                    &&& final(rooms)@[i].id == i
                },
            forall|i: int, j: int|
                old(rooms)@.len() <= i < j < final(rooms)@.len() ==> !interiors_overlap(
                    final(rooms)@[i].rect,
                    final(rooms)@[j].rect,
                ),
            forall|px: int, py: int|
                x <= px < x + w && y <= py < y + h ==> #[trigger] covered_by(
                    final(rooms)@,
                    old(rooms)@.len() as int,
                    px,
                    py,
                ),
            w >= 1 && h >= 1 ==> walls_shared(
                final(rooms)@,
                old(rooms)@.len() as int,
                x as int,
                y as int,
                w as int,
                h as int,
            ),
        decreases w + h,
    {
        let can_v = w >= MIN_DIM * 2 - 1;
        let can_h = h >= MIN_DIM * 2 - 1;

        if can_v && (random_bool() || !can_h) {
            let split = split_point(w, random_usize());
            let ghost r0 = rooms@;
            self.recursive_slice(x, y, split, h, rooms);
            let ghost r1 = rooms@;
            self.recursive_slice(x + split - 1, y, w - split + 1, h, rooms);
            proof {
                assert forall|i: int| r0.len() <= i < r1.len() implies rooms@[i] == r1[i] by {
                    assert(rooms@.subrange(0, r1.len() as int)[i] == rooms@[i]);
                }
                assert forall|i: int, j: int|
                    r0.len() <= i < j < rooms@.len() implies !interiors_overlap(
                    rooms@[i].rect,
                    rooms@[j].rect,
                ) by {
                    if j < r1.len() {
                        assert(!interiors_overlap(r1[i].rect, r1[j].rect));
                    } else if i < r1.len() {
                        assert(r1[i].rect.x + r1[i].rect.w <= x + split);
                        assert(rooms@[j].rect.x >= x + split - 1);
                    }
                }
                assert forall|px: int, py: int| x <= px < x + w && y <= py < y + h implies covered_by(
                    rooms@,
                    r0.len() as int,
                    px,
                    py,
                ) by {
                    if px < x + split {
                        assert(covered_by(r1, r0.len() as int, px, py));
                        let i = choose|i: int|
                            r0.len() <= i < r1.len() && in_rect(#[trigger] r1[i].rect, px, py);
                        assert(rooms@[i] == r1[i]);
                    } else {
                        assert(covered_by(rooms@, r1.len() as int, px, py));
                        let i = choose|i: int|
                            r1.len() <= i < rooms@.len() && in_rect(#[trigger] rooms@[i].rect, px, py);
                    }
                }
                assert(rooms@.subrange(0, r1.len() as int) == r1);
                assert(rooms@.subrange(0, r0.len() as int) =~= r1.subrange(0, r0.len() as int));
                assert forall|i: int| r0.len() <= i < r1.len() implies rooms@[i] == r1[i] by {
                    assert(rooms@.subrange(0, r1.len() as int)[i] == rooms@[i]);
                }
                assert forall|i: int| r0.len() <= i < rooms@.len() implies {
                    let r = (#[trigger] rooms@[i]).rect;
                    &&& x <= r.x
                    &&& r.x + r.w <= x + w
                    &&& y <= r.y
                    &&& r.y + r.h <= y + h
                    &&& r.w < MIN_DIM * 2 - 1
                    &&& r.h < MIN_DIM * 2 - 1
                    &&& r.w >= min_int(w as int, MIN_DIM as int)
                    &&& r.h >= min_int(h as int, MIN_DIM as int)
                    &&& rooms@[i].id == i
                } by {
                    if i < r1.len() {
                        assert(rooms@[i] == r1[i]);
                    }
                }
                assert forall|i: int| 0 <= i < r1.len() implies rooms@[i] == r1[i] by {
                    assert(rooms@.subrange(0, r1.len() as int)[i] == rooms@[i]);
                }
                if h >= 1 && w >= 1 {
                    assert forall|i: int| r0.len() <= i < rooms@.len() implies 1 <= (#[trigger] rooms@[i]).rect.w
                        && 1 <= rooms@[i].rect.h by {
                        let r = rooms@[i].rect;
                        assert(r.w >= min_int(w as int, MIN_DIM as int));
                        assert(r.h >= min_int(h as int, MIN_DIM as int));
                    }
                    assert forall|i: int| r0.len() <= i < rooms@.len() implies #[trigger] sides_shared(
                        rooms@,
                        r0.len() as int,
                        i,
                        x as int,
                        y as int,
                        w as int,
                        h as int,
                    ) by {
                        if i < r1.len() {
                            assert(rooms@[i] == r1[i]);
                            lemma_vcut_left(r0.len() as int, r1, rooms@, x as int, y as int, w as int, h as int, split as int, i);
                        } else {
                            lemma_vcut_right(r0.len() as int, r1, rooms@, x as int, y as int, w as int, h as int, split as int, i);
                        }
                    }
                }
            }
        } else if can_h {
            let split = split_point(h, random_usize());
            let ghost r0 = rooms@;
            self.recursive_slice(x, y, w, split, rooms);
            let ghost r1 = rooms@;
            self.recursive_slice(x, y + split - 1, w, h - split + 1, rooms);
            proof {
                assert forall|i: int| r0.len() <= i < r1.len() implies rooms@[i] == r1[i] by {
                    assert(rooms@.subrange(0, r1.len() as int)[i] == rooms@[i]);
                }
                assert forall|i: int, j: int|
                    r0.len() <= i < j < rooms@.len() implies !interiors_overlap(
                    rooms@[i].rect,
                    rooms@[j].rect,
                ) by {
                    if j < r1.len() {
                        assert(!interiors_overlap(r1[i].rect, r1[j].rect));
                    } else if i < r1.len() {
                        assert(r1[i].rect.y + r1[i].rect.h <= y + split);
                        assert(rooms@[j].rect.y >= y + split - 1);
                    }
                }
                assert forall|px: int, py: int| x <= px < x + w && y <= py < y + h implies covered_by(
                    rooms@,
                    r0.len() as int,
                    px,
                    py,
                ) by {
                    if py < y + split {
                        assert(covered_by(r1, r0.len() as int, px, py));
                        let i = choose|i: int|
                            r0.len() <= i < r1.len() && in_rect(#[trigger] r1[i].rect, px, py);
                        assert(rooms@[i] == r1[i]);
                    } else {
                        assert(covered_by(rooms@, r1.len() as int, px, py));
                        let i = choose|i: int|
                            r1.len() <= i < rooms@.len() && in_rect(#[trigger] rooms@[i].rect, px, py);
                    }
                }
                assert(rooms@.subrange(0, r1.len() as int) == r1);
                assert(rooms@.subrange(0, r0.len() as int) =~= r1.subrange(0, r0.len() as int));
                assert forall|i: int| r0.len() <= i < r1.len() implies rooms@[i] == r1[i] by {
                    assert(rooms@.subrange(0, r1.len() as int)[i] == rooms@[i]);
                }
                assert forall|i: int| r0.len() <= i < rooms@.len() implies {
                    let r = (#[trigger] rooms@[i]).rect;
                    &&& x <= r.x
                    &&& r.x + r.w <= x + w
                    &&& y <= r.y
                    &&& r.y + r.h <= y + h
                    &&& r.w < MIN_DIM * 2 - 1
                    &&& r.h < MIN_DIM * 2 - 1
                    &&& r.w >= min_int(w as int, MIN_DIM as int)
                    &&& r.h >= min_int(h as int, MIN_DIM as int)
                    &&& rooms@[i].id == i
                } by {
                    if i < r1.len() {
                        assert(rooms@[i] == r1[i]);
                    }
                }
                assert forall|i: int| 0 <= i < r1.len() implies rooms@[i] == r1[i] by {
                    assert(rooms@.subrange(0, r1.len() as int)[i] == rooms@[i]);
                }
                if h >= 1 && w >= 1 {
                    assert forall|i: int| r0.len() <= i < rooms@.len() implies 1 <= (#[trigger] rooms@[i]).rect.w
                        && 1 <= rooms@[i].rect.h by {
                        let r = rooms@[i].rect;
                        assert(r.w >= min_int(w as int, MIN_DIM as int));
                        assert(r.h >= min_int(h as int, MIN_DIM as int));
                    }
                    assert forall|i: int| r0.len() <= i < rooms@.len() implies #[trigger] sides_shared(
                        rooms@,
                        r0.len() as int,
                        i,
                        x as int,
                        y as int,
                        w as int,
                        h as int,
                    ) by {
                        if i < r1.len() {
                            assert(rooms@[i] == r1[i]);
                            lemma_hcut_top(r0.len() as int, r1, rooms@, x as int, y as int, w as int, h as int, split as int, i);
                        } else {
                            lemma_hcut_bottom(r0.len() as int, r1, rooms@, x as int, y as int, w as int, h as int, split as int, i);
                        }
                    }
                }
            }
        } else {
            let id = rooms.len();
            rooms.push(Room { rect: Rect { x, y, w, h }, id });
            assert(rooms@.subrange(0, old(rooms)@.len() as int) =~= old(rooms)@);
            assert forall|px: int, py: int| x <= px < x + w && y <= py < y + h implies covered_by(
                rooms@,
                old(rooms)@.len() as int,
                px,
                py,
            ) by {
                assert(in_rect(rooms@[id as int].rect, px, py));
            }
        }
    }
}

/// The right column of a rectangle.
pub open spec fn right_col(r: Rect) -> int {
    r.x + r.w - 1
}

/// The bottom row of a rectangle.
pub open spec fn bottom_row(r: Rect) -> int {
    r.y + r.h - 1
}

/// The sides of room `i` of `rooms`, cut from the rectangle `(x, y, w, h)`,
/// each lie on the rectangle's side or on the opposite side of another room
/// of `rooms` from place `from` on.
pub open spec fn sides_shared(rooms: Seq<Room>, from: int, i: int, x: int, y: int, w: int, h: int) -> bool {
    let r = rooms[i].rect;
    &&& (r.x == x || exists|j: int| from <= j < rooms.len() && #[trigger] right_col(rooms[j].rect) == r.x)
    &&& (r.x + r.w == x + w || exists|j: int|
        from <= j < rooms.len() && #[trigger] rooms[j].rect.x == right_col(r))
    &&& (r.y == y || exists|j: int| from <= j < rooms.len() && #[trigger] bottom_row(rooms[j].rect) == r.y)
    &&& (r.y + r.h == y + h || exists|j: int|
        from <= j < rooms.len() && #[trigger] rooms[j].rect.y == bottom_row(r))
}

/// The rooms of `rooms` from place `from` on, cut from the rectangle
/// `(x, y, w, h)`, share their outlines: each side of each room lies on the
/// rectangle's side or on the opposite side of another of those rooms.
pub open spec fn walls_shared(rooms: Seq<Room>, from: int, x: int, y: int, w: int, h: int) -> bool {
    forall|i: int| from <= i < rooms.len() ==> #[trigger] sides_shared(rooms, from, i, x, y, w, h)
}

/// After a cut of `(x, y, w, h)` at column `x + split - 1`, the sides of room
/// `i` of the left part lie on the rectangle's sides or on other rooms' sides.
proof fn lemma_vcut_left(r0: int, r1: Seq<Room>, rf: Seq<Room>, x: int, y: int, w: int, h: int, split: int, i: int)
    requires
        0 <= r0 <= i < r1.len() <= rf.len(),
        forall|k: int| 0 <= k < r1.len() ==> rf[k] == r1[k],
        walls_shared(r1, r0, x, y, split, h),
        r1[i].rect.x + r1[i].rect.w <= x + split,
        y <= r1[i].rect.y,
        r1[i].rect.y + r1[i].rect.h <= y + h,
        1 <= r1[i].rect.h,
        forall|py: int| y <= py < y + h ==> #[trigger] covered_by(rf, r1.len() as int, x + split - 1, py),
        forall|k: int| r1.len() <= k < rf.len() ==> (#[trigger] rf[k]).rect.x >= x + split - 1,
    ensures
        sides_shared(rf, r0, i, x, y, w, h),
{
    let n1 = r1.len() as int;
    let r = rf[i].rect;
    assert(rf[i] == r1[i]);
    assert(sides_shared(r1, r0, i, x, y, split, h));
    if r.x != x {
        let j = choose|j: int| r0 <= j < r1.len() && #[trigger] right_col(r1[j].rect) == r.x;
        assert(rf[j] == r1[j]);
        assert(right_col(rf[j].rect) == r.x);
    }
    if r.y != y {
        let j = choose|j: int| r0 <= j < r1.len() && #[trigger] bottom_row(r1[j].rect) == r.y;
        assert(rf[j] == r1[j]);
        assert(bottom_row(rf[j].rect) == r.y);
    }
    if r.y + r.h != y + h {
        let j = choose|j: int| r0 <= j < r1.len() && #[trigger] r1[j].rect.y == bottom_row(r);
        assert(rf[j] == r1[j]);
        assert(rf[j].rect.y == bottom_row(r));
    }
    if r.x + r.w != x + w {
        if r.x + r.w == x + split {
            assert(covered_by(rf, n1, x + split - 1, r.y as int));
            let j = choose|j: int| n1 <= j < rf.len() && in_rect(#[trigger] rf[j].rect, x + split - 1, r.y as int);
            assert(rf[j].rect.x == right_col(r));
        } else {
            let j = choose|j: int| r0 <= j < r1.len() && #[trigger] r1[j].rect.x == right_col(r);
            assert(rf[j] == r1[j]);
            assert(rf[j].rect.x == right_col(r));
        }
    }
}

/// After a cut of `(x, y, w, h)` at column `x + split - 1`, the sides of room
/// `i` of the right part lie on the rectangle's sides or on other rooms' sides.
proof fn lemma_vcut_right(r0: int, r1: Seq<Room>, rf: Seq<Room>, x: int, y: int, w: int, h: int, split: int, i: int)
    requires
        0 <= r0 <= r1.len() <= i < rf.len(),
        forall|k: int| 0 <= k < r1.len() ==> rf[k] == r1[k],
        walls_shared(rf, r1.len() as int, x + split - 1, y, w - split + 1, h),
        y <= rf[i].rect.y,
        rf[i].rect.y + rf[i].rect.h <= y + h,
        1 <= rf[i].rect.h,
        forall|py: int| y <= py < y + h ==> #[trigger] covered_by(r1, r0, x + split - 1, py),
        forall|k: int| r0 <= k < r1.len() ==> (#[trigger] r1[k]).rect.x + r1[k].rect.w <= x + split,
    ensures
        sides_shared(rf, r0, i, x, y, w, h),
{
    let n1 = r1.len() as int;
    let r = rf[i].rect;
    assert(sides_shared(rf, n1, i, x + split - 1, y, w - split + 1, h));
    if r.x != x {
        if r.x == x + split - 1 {
            assert(covered_by(r1, r0, x + split - 1, r.y as int));
            let j = choose|j: int| r0 <= j < r1.len() && in_rect(#[trigger] r1[j].rect, x + split - 1, r.y as int);
            assert(rf[j] == r1[j]);
            assert(right_col(rf[j].rect) == r.x);
        } else {
            let j = choose|j: int| n1 <= j < rf.len() && #[trigger] right_col(rf[j].rect) == r.x;
        }
    }
    if r.y != y {
        let j = choose|j: int| n1 <= j < rf.len() && #[trigger] bottom_row(rf[j].rect) == r.y;
    }
    if r.x + r.w != x + w {
        let j = choose|j: int| n1 <= j < rf.len() && #[trigger] rf[j].rect.x == right_col(r);
    }
    if r.y + r.h != y + h {
        let j = choose|j: int| n1 <= j < rf.len() && #[trigger] rf[j].rect.y == bottom_row(r);
    }
}

/// After a cut of `(x, y, w, h)` at row `y + split - 1`, the sides of room `i`
/// of the upper part lie on the rectangle's sides or on other rooms' sides.
proof fn lemma_hcut_top(r0: int, r1: Seq<Room>, rf: Seq<Room>, x: int, y: int, w: int, h: int, split: int, i: int)
    requires
        0 <= r0 <= i < r1.len() <= rf.len(),
        forall|k: int| 0 <= k < r1.len() ==> rf[k] == r1[k],
        walls_shared(r1, r0, x, y, w, split),
        r1[i].rect.y + r1[i].rect.h <= y + split,
        x <= r1[i].rect.x,
        r1[i].rect.x + r1[i].rect.w <= x + w,
        1 <= r1[i].rect.w,
        forall|px: int| x <= px < x + w ==> #[trigger] covered_by(rf, r1.len() as int, px, y + split - 1),
        forall|k: int| r1.len() <= k < rf.len() ==> (#[trigger] rf[k]).rect.y >= y + split - 1,
    ensures
        sides_shared(rf, r0, i, x, y, w, h),
{
    let n1 = r1.len() as int;
    let r = rf[i].rect;
    assert(rf[i] == r1[i]);
    assert(sides_shared(r1, r0, i, x, y, w, split));
    if r.x != x {
        let j = choose|j: int| r0 <= j < r1.len() && #[trigger] right_col(r1[j].rect) == r.x;
        assert(rf[j] == r1[j]);
        assert(right_col(rf[j].rect) == r.x);
    }
    if r.y != y {
        let j = choose|j: int| r0 <= j < r1.len() && #[trigger] bottom_row(r1[j].rect) == r.y;
        assert(rf[j] == r1[j]);
        assert(bottom_row(rf[j].rect) == r.y);
    }
    if r.x + r.w != x + w {
        let j = choose|j: int| r0 <= j < r1.len() && #[trigger] r1[j].rect.x == right_col(r);
        assert(rf[j] == r1[j]);
        assert(rf[j].rect.x == right_col(r));
    }
    if r.y + r.h != y + h {
        if r.y + r.h == y + split {
            assert(covered_by(rf, n1, r.x as int, y + split - 1));
            let j = choose|j: int| n1 <= j < rf.len() && in_rect(#[trigger] rf[j].rect, r.x as int, y + split - 1);
            assert(rf[j].rect.y == bottom_row(r));
        } else {
            let j = choose|j: int| r0 <= j < r1.len() && #[trigger] r1[j].rect.y == bottom_row(r);
            assert(rf[j] == r1[j]);
            assert(rf[j].rect.y == bottom_row(r));
        }
    }
}

/// After a cut of `(x, y, w, h)` at row `y + split - 1`, the sides of room `i`
/// of the lower part lie on the rectangle's sides or on other rooms' sides.
proof fn lemma_hcut_bottom(r0: int, r1: Seq<Room>, rf: Seq<Room>, x: int, y: int, w: int, h: int, split: int, i: int)
    requires
        0 <= r0 <= r1.len() <= i < rf.len(),
        forall|k: int| 0 <= k < r1.len() ==> rf[k] == r1[k],
        walls_shared(rf, r1.len() as int, x, y + split - 1, w, h - split + 1),
        x <= rf[i].rect.x,
        rf[i].rect.x + rf[i].rect.w <= x + w,
        1 <= rf[i].rect.w,
        forall|px: int| x <= px < x + w ==> #[trigger] covered_by(r1, r0, px, y + split - 1),
        forall|k: int| r0 <= k < r1.len() ==> (#[trigger] r1[k]).rect.y + r1[k].rect.h <= y + split,
    ensures
        sides_shared(rf, r0, i, x, y, w, h),
{
    let n1 = r1.len() as int;
    let r = rf[i].rect;
    assert(sides_shared(rf, n1, i, x, y + split - 1, w, h - split + 1));
    if r.y != y {
        if r.y == y + split - 1 {
            assert(covered_by(r1, r0, r.x as int, y + split - 1));
            let j = choose|j: int| r0 <= j < r1.len() && in_rect(#[trigger] r1[j].rect, r.x as int, y + split - 1);
            assert(rf[j] == r1[j]);
            assert(bottom_row(rf[j].rect) == r.y);
        } else {
            let j = choose|j: int| n1 <= j < rf.len() && #[trigger] bottom_row(rf[j].rect) == r.y;
        }
    }
    if r.x != x {
        let j = choose|j: int| n1 <= j < rf.len() && #[trigger] right_col(rf[j].rect) == r.x;
    }
    if r.x + r.w != x + w {
        let j = choose|j: int| n1 <= j < rf.len() && #[trigger] rf[j].rect.x == right_col(r);
    }
    if r.y + r.h != y + h {
        let j = choose|j: int| n1 <= j < rf.len() && #[trigger] rf[j].rect.y == bottom_row(r);
    }
}

/// Some room of `rooms` from place `from` on holds `(px, py)`.
pub open spec fn covered_by(rooms: Seq<Room>, from: int, px: int, py: int) -> bool {
    exists|i: int| from <= i < rooms.len() && in_rect(#[trigger] rooms[i].rect, px, py)
}

/// Whether the interior of `ext` overlaps that of any rectangle of `rects`.
fn overlaps_any(rects: &Vec<Rect>, ext: &Rect) -> (b: bool)
    requires
        forall|i: int|
            0 <= i < rects@.len() ==> (#[trigger] rects@[i]).x + rects@[i].w <= isize::MAX
                && rects@[i].y + rects@[i].h <= isize::MAX,
        ext.x + ext.w <= isize::MAX,
        ext.y + ext.h <= isize::MAX,
    ensures
        b == exists|i: int| 0 <= i < rects@.len() && interiors_overlap(rects@[i], *ext),
{
    let mut i: usize = 0;
    while i < rects.len()
        invariant
            i <= rects@.len(),
            forall|j: int| 0 <= j < i ==> !interiors_overlap(rects@[j], *ext),
            forall|j: int|
                0 <= j < rects@.len() ==> (#[trigger] rects@[j]).x + rects@[j].w <= isize::MAX
                    && rects@[j].y + rects@[j].h <= isize::MAX,
            ext.x + ext.w <= isize::MAX,
            ext.y + ext.h <= isize::MAX,
        decreases rects@.len() - i,
    {
        if World::overlaps_interior(&rects[i], ext) {
            return true;
        }
        i += 1;
    }
    false
}


// ---------------------------------------------------------------------------
// Doors
// ---------------------------------------------------------------------------

/// The column where the outlines of `a` and `b` meet side by side, if they do.
pub open spec fn shared_col(a: Rect, b: Rect) -> Option<int> {
    if a.x + a.w - 1 == b.x {
        Some(a.x + a.w - 1)
    } else if b.x + b.w - 1 == a.x {
        Some(a.x as int)
    } else {
        None
    }
}

/// The row where the outlines of `a` and `b` meet one above the other, if they do.
pub open spec fn shared_row(a: Rect, b: Rect) -> Option<int> {
    if a.y + a.h - 1 == b.y {
        Some(a.y + a.h - 1)
    } else if b.y + b.h - 1 == a.y {
        Some(a.y as int)
    } else {
        None
    }
}

/// `v - 1`, but not below zero.
pub open spec fn sat_dec(v: int) -> int {
    if v >= 1 {
        v - 1
    } else {
        0
    }
}

/// The distance between two offsets.
pub open spec fn gap(a: int, b: int) -> int {
    if a >= b {
        a - b
    } else {
        b - a
    }
}

/// No door of `placed` (axis, line, offset) on the same wall line lies closer
/// than `spacing` to offset `off`.
pub open spec fn far_enough_spec(
    placed: Seq<(bool, usize, usize)>,
    axis: bool,
    pos: int,
    off: int,
    spacing: int,
) -> bool {
    forall|i: int|
        0 <= i < placed.len() && placed[i].0 == axis && placed[i].1 == pos ==> gap(
            placed[i].2 as int,
            off,
        ) >= spacing
}

/// The offsets `lo`, `lo + 1`, ..., `hi - 1`.
pub open spec fn span(lo: int, hi: int) -> Seq<usize> {
    Seq::new((hi - lo) as nat, |i: int| (lo + i) as usize)
}

impl World {
    /// The number of columns (for a vertical wall line) or rows (otherwise).
    pub open spec fn extent(&self, vertical: bool) -> int {
        if vertical {
            self.width as int
        } else {
            self.height as int
        }
    }

    /// The tile at offset `t` of wall line `line` (a column when `vertical`, a
    /// row otherwise) has floor on both sides across the line.
    pub open spec fn floor_across(&self, vertical: bool, line: int, t: int) -> bool {
        if vertical {
            self.tile(line - 1, t) == TILE_FLOOR && self.tile(line + 1, t) == TILE_FLOOR
        } else {
            self.tile(t, line - 1) == TILE_FLOOR && self.tile(t, line + 1) == TILE_FLOOR
        }
    }

    /// Offsets `lo..hi` of the wall line, in order, where a door would join floor
    /// to floor and keep `spacing` from the doors of `placed`.
    pub open spec fn line_cands(
        &self,
        vertical: bool,
        line: int,
        lo: int,
        hi: int,
        placed: Seq<(bool, usize, usize)>,
        spacing: int,
    ) -> Seq<usize> {
        span(lo, hi).filter(
            |t: usize|
                self.floor_across(vertical, line, t as int) && far_enough_spec(
                    placed,
                    vertical,
                    line,
                    t as int,
                    spacing,
                ),
        )
    }

    /// The middle candidate on the wall line `line` between offsets `lo` and
    /// `hi`, as `(x, y, vertical)`, if the line is shared, inside the grid, and
    /// has candidates.
    pub open spec fn spot_on(
        &self,
        vertical: bool,
        line: Option<int>,
        lo: int,
        hi: int,
        placed: Seq<(bool, usize, usize)>,
        spacing: int,
    ) -> Option<(usize, usize, bool)> {
        match line {
            Some(l) => {
                if hi > lo && l > 0 && l + 1 < self.extent(vertical) {
                    let c = self.line_cands(vertical, l, lo, hi, placed, spacing);
                    if c.len() > 0 {
                        let t = c[(c.len() / 2) as int];
                        if vertical {
                            Some((l as usize, t, true))
                        } else {
                            Some((t, l as usize, false))
                        }
                    } else {
                        None
                    }
                } else {
                    None
                }
            },
            None => None,
        }
    }

    /// Where a door between the rooms `a` and `b` goes: on the column they share
    /// if that has a candidate, else on the row they share; strictly inside the
    /// overlap of their sides.
    pub open spec fn door_spot(
        &self,
        a: Rect,
        b: Rect,
        placed: Seq<(bool, usize, usize)>,
        spacing: int,
    ) -> Option<(usize, usize, bool)> {
        let v = self.spot_on(
            true,
            shared_col(a, b),
            max_int(a.y as int, b.y as int) + 1,
            sat_dec(min_int(a.y + a.h, b.y + b.h)),
            placed,
            spacing,
        );
        if v is Some {
            v
        } else {
            self.spot_on(
                false,
                shared_row(a, b),
                max_int(a.x as int, b.x as int) + 1,
                sat_dec(min_int(a.x + a.w, b.x + b.w)),
                placed,
                spacing,
            )
        }
    }

    /// `(x, y)` lies on the grid and joins floor to floor: across a column
    /// (floor left and right) or across a row (floor above and below).
    pub open spec fn doorway(&self, x: int, y: int) -> bool {
        &&& self.on_map(x, y)
        &&& ((0 < x && x + 1 < self.width && self.floor_across(true, x, y)) || (0 < y && y + 1
            < self.height && self.floor_across(false, y, x)))
    }
}

/// No door of `placed` on the wall line `(axis, pos)` lies within `spacing` of
/// offset `off`.
pub fn far_enough(
    placed: &Vec<(bool, usize, usize)>,
    axis: bool,
    pos: usize,
    off: usize,
    spacing: usize,
) -> (b: bool)
    ensures
        b == far_enough_spec(placed@, axis, pos as int, off as int, spacing as int),
{
    let mut i: usize = 0;
    while i < placed.len()
        invariant
            i <= placed@.len(),
            forall|j: int|
                0 <= j < i && (#[trigger] placed@[j]).0 == axis && placed@[j].1 == pos ==> gap(
                    placed@[j].2 as int,
                    off as int,
                ) >= spacing,
        decreases placed@.len() - i,
    {
        let (a, p, o) = placed[i];
        if a == axis && p == pos {
            let d = if o >= off {
                o - off
            } else {
                off - o
            };
            if d < spacing {
                return false;
            }
        }
        i += 1;
    }
    true
}

/// A door of `placed` on the wall line `(axis, pos)` lies within
/// `MIN_DOOR_SPACING` of offset `off`.
pub fn too_close(placed: &Vec<(bool, usize, usize)>, axis: bool, pos: usize, off: usize) -> (b:
    bool)
    ensures
        b == !far_enough_spec(placed@, axis, pos as int, off as int, MIN_DOOR_SPACING as int),
{
    !far_enough(placed, axis, pos, off, MIN_DOOR_SPACING)
}

impl World {
    /// The offsets `lo..hi` of a wall line, in order, where a door would join
    /// floor to floor and keep `spacing` from the doors of `placed`.
    fn door_candidates(
        &self,
        vertical: bool,
        line: usize,
        lo: usize,
        hi: usize,
        placed: &Vec<(bool, usize, usize)>,
        spacing: usize,
    ) -> (cands: Vec<usize>)
        requires
            self.wf(),
            0 < line,
            line + 1 < self.extent(vertical),
            lo <= hi,
            hi <= self.extent(!vertical),
        ensures
            cands@ == self.line_cands(
                vertical,
                line as int,
                lo as int,
                hi as int,
                placed@,
                spacing as int,
            ),
    {
        let mut cands: Vec<usize> = Vec::new();
        let mut t = lo;
        proof {
            reveal(Seq::filter);
            assert(span(lo as int, lo as int) =~= Seq::<usize>::empty());
        }
        while t < hi
            invariant
                self.wf(),
                0 < line,
                line + 1 < self.extent(vertical),
                lo <= t <= hi,
                hi <= self.extent(!vertical),
                cands@ == self.line_cands(
                    vertical,
                    line as int,
                    lo as int,
                    t as int,
                    placed@,
                    spacing as int,
                ),
            decreases hi - t,
        {
            let sides = if vertical {
                self.map[t][line - 1] == TILE_FLOOR && self.map[t][line + 1] == TILE_FLOOR
            } else {
                self.map[line - 1][t] == TILE_FLOOR && self.map[line + 1][t] == TILE_FLOOR
            };
            if sides && far_enough(placed, vertical, line, t, spacing) {
                cands.push(t);
            }
            proof {
                reveal(Seq::filter);
                assert(span(lo as int, t + 1).drop_last() =~= span(lo as int, t as int));
            }
            t += 1;
        }
        cands
    }

    /// Where a door between rooms `a` and `b` goes, avoiding the doors of
    /// `placed` by `spacing`: the middle candidate of the column they share, else
    /// of the row they share.
    pub fn find_door_pos_avoiding(
        &self,
        a: &Rect,
        b: &Rect,
        placed: &Vec<(bool, usize, usize)>,
        spacing: usize,
    ) -> (spot: Option<(usize, usize, bool)>)
        requires
            self.wf(),
            rect_inside(*a, self.width as int, self.height as int),
            rect_inside(*b, self.width as int, self.height as int),
            a.w >= 1,
            a.h >= 1,
            b.w >= 1,
            b.h >= 1,
        ensures
            spot == self.door_spot(*a, *b, placed@, spacing as int),
            spot matches Some((x, y, _)) ==> self.doorway(x as int, y as int),
            spot matches Some((x, y, _)) ==> on_rect_border(*a, x as int, y as int)
                && on_rect_border(*b, x as int, y as int),
    {
        let vshared = if a.x + a.w - 1 == b.x {
            Some(a.x + a.w - 1)
        } else if b.x + b.w - 1 == a.x {
            Some(a.x)
        } else {
            None
        };
        if let Some(col) = vshared {
            let y0 = a.y.max(b.y) + 1;
            let y1 = (a.y + a.h).min(b.y + b.h).saturating_sub(1);
            if y1 > y0 && col > 0 && col + 1 < self.width {
                let cands = self.door_candidates(true, col, y0, y1, placed, spacing);
                if cands.len() > 0 {
                    let pick = cands[cands.len() / 2];
                    proof {
                        self.lemma_cand_doorway(true, col as int, y0 as int, y1 as int, placed@, spacing as int, (cands.len() / 2) as int);
                    }
                    return Some((col, pick, true));
                }
            }
        }
        let hshared = if a.y + a.h - 1 == b.y {
            Some(a.y + a.h - 1)
        } else if b.y + b.h - 1 == a.y {
            Some(a.y)
        } else {
            None
        };
        if let Some(row) = hshared {
            let x0 = a.x.max(b.x) + 1;
            let x1 = (a.x + a.w).min(b.x + b.w).saturating_sub(1);
            if x1 > x0 && row > 0 && row + 1 < self.height {
                let cands = self.door_candidates(false, row, x0, x1, placed, spacing);
                if cands.len() > 0 {
                    let pick = cands[cands.len() / 2];
                    proof {
                        self.lemma_cand_doorway(false, row as int, x0 as int, x1 as int, placed@, spacing as int, (cands.len() / 2) as int);
                    }
                    return Some((pick, row, false));
                }
            }
        }
        None
    }

    /// Where a door between rooms `a` and `b` goes: the middle tile, joining
    /// floor to floor, of the column they share, else of the row they share.
    /// This is the placement that avoids no earlier door.
    pub fn find_door_pos(&self, a: &Rect, b: &Rect) -> (spot: Option<(usize, usize, bool)>)
        requires
            self.wf(),
            rect_inside(*a, self.width as int, self.height as int),
            rect_inside(*b, self.width as int, self.height as int),
            a.w >= 1,
            a.h >= 1,
            b.w >= 1,
            b.h >= 1,
        ensures
            spot == self.door_spot(*a, *b, Seq::empty(), 0),
            spot matches Some((x, y, _)) ==> self.doorway(x as int, y as int),
            spot matches Some((x, y, _)) ==> on_rect_border(*a, x as int, y as int)
                && on_rect_border(*b, x as int, y as int),
    {
        let none: Vec<(bool, usize, usize)> = Vec::new();
        self.find_door_pos_avoiding(a, b, &none, 0)
    }

    proof fn lemma_cand_doorway(
        &self,
        vertical: bool,
        line: int,
        lo: int,
        hi: int,
        placed: Seq<(bool, usize, usize)>,
        spacing: int,
        k: int,
    )
        requires
            0 < line,
            line + 1 < self.extent(vertical),
            0 <= lo < hi <= self.extent(!vertical),
            0 <= k < self.line_cands(vertical, line, lo, hi, placed, spacing).len(),
        ensures
            ({
                let t = self.line_cands(vertical, line, lo, hi, placed, spacing)[k] as int;
                &&& lo <= t < hi
                &&& if vertical {
                    self.doorway(line, t)
                } else {
                    self.doorway(t, line)
                }
            }),
    {
        let pred = |t: usize|
            self.floor_across(vertical, line, t as int) && far_enough_spec(
                placed,
                vertical,
                line,
                t as int,
                spacing,
            );
        let c = span(lo, hi).filter(pred);
        lemma_filter_within(span(lo, hi), pred);
        span(lo, hi).lemma_filter_pred(pred, k);
        assert(span(lo, hi).contains(c[k]));
        assert(pred(c[k]));
    }
}

/// Every entry of `s.filter(pred)` is an entry of `s`.
proof fn lemma_filter_within<A>(s: Seq<A>, pred: spec_fn(A) -> bool)
    ensures
        forall|i: int| 0 <= i < s.filter(pred).len() ==> s.contains(#[trigger] s.filter(pred)[i]),
    decreases s.len(),
{
    reveal(Seq::filter);
    if s.len() > 0 {
        let sub = s.drop_last().filter(pred);
        lemma_filter_within(s.drop_last(), pred);
        assert forall|i: int| 0 <= i < s.filter(pred).len() implies s.contains(
            #[trigger] s.filter(pred)[i],
        ) by {
            if i < sub.len() {
                assert(s.filter(pred)[i] == sub[i]);
                assert(s.drop_last().contains(sub[i]));
                let j = choose|j: int| 0 <= j < s.drop_last().len() && s.drop_last()[j] == sub[i];
                assert(s[j] == sub[i]);
            } else {
                assert(s.filter(pred)[i] == s.last());
                assert(s[s.len() - 1] == s.last());
            }
        }
    }
}


// ---------------------------------------------------------------------------
// Connecting the rooms
// ---------------------------------------------------------------------------

/// How many of `0..n` the set lacks.
pub open spec fn unvisited(s: Set<usize>, n: int) -> nat
    decreases n,
{
    if n <= 0 {
        0
    } else {
        unvisited(s, n - 1) + if s.contains((n - 1) as usize) {
            0nat
        } else {
            1nat
        }
    }
}

/// Reaching a room not reached yet, among the first `n`, leaves one fewer.
pub proof fn lemma_unvisited_insert(s: Set<usize>, n: int, v: usize)
    requires
        0 <= n <= usize::MAX,
        !s.contains(v),
    ensures
        v < n ==> unvisited(s.insert(v), n) + 1 == unvisited(s, n),
        v >= n ==> unvisited(s.insert(v), n) == unvisited(s, n),
    decreases n,
{
    if n > 0 {
        lemma_unvisited_insert(s, n - 1, v);
        assert(s.insert(v).contains((n - 1) as usize) == (s.contains((n - 1) as usize) || v == n
            - 1));
    }
}

proof fn lemma_unvisited_none(n: int)
    requires
        0 <= n,
    ensures
        unvisited(Set::<usize>::empty(), n) == n,
    decreases n,
{
    if n > 0 {
        lemma_unvisited_none(n - 1);
    }
}

/// `(c, r)` lies on the outlines of two different rooms of `rooms`.
pub open spec fn between_rooms(rooms: Seq<Room>, c: int, r: int) -> bool {
    exists|u: int, v: int|
        #![trigger on_rect_border(rooms[u].rect, c, r), on_rect_border(rooms[v].rect, c, r)]
        0 <= u < rooms.len() && 0 <= v < rooms.len() && u != v && on_rect_border(rooms[u].rect, c, r)
            && on_rect_border(rooms[v].rect, c, r)
}

impl World {
    /// Rooms `u` and `v` are different and a door of the grid lies on the
    /// outlines of both.
    pub open spec fn door_between(&self, rooms: Seq<Room>, u: int, v: int) -> bool {
        &&& u != v
        &&& exists|c: int, r: int|
            #[trigger] within(self.width, self.height, c, r) && on_rect_border(rooms[u].rect, c, r)
                && on_rect_border(rooms[v].rect, c, r) && self.tile(c, r) == TILE_DOOR
    }

    /// `path` is a walk through rooms of `rooms`, each step through a door.
    pub open spec fn door_walk(&self, rooms: Seq<Room>, path: Seq<int>) -> bool {
        &&& path.len() >= 1
        &&& forall|k: int| 0 <= k < path.len() ==> 0 <= #[trigger] path[k] < rooms.len()
        &&& forall|k: int|
            0 <= k < path.len() - 1 ==> #[trigger] self.door_between(rooms, path[k], path[k + 1])
    }

    /// Room `v` can be reached from room `u` through doors.
    pub open spec fn reachable(&self, rooms: Seq<Room>, u: int, v: int) -> bool {
        exists|path: Seq<int>|
            #[trigger] self.door_walk(rooms, path) && path[0] == u && path.last() == v
    }

    /// Every door of this grid is a door of `other`, a grid of the same size.
    pub open spec fn keeps_doors(&self, other: &World) -> bool {
        &&& other.width == self.width
        &&& other.height == self.height
        &&& forall|c: int, r: int|
            #[trigger] within(self.width, self.height, c, r) && self.tile(c, r) == TILE_DOOR
                ==> other.tile(c, r) == TILE_DOOR
    }
}

impl World {
    /// `path` is a walk through rooms of `rooms`, each step between two rooms
    /// that share a wall with a spot for a door.
    pub open spec fn link_walk(&self, rooms: Seq<Room>, path: Seq<int>) -> bool {
        &&& path.len() >= 1
        &&& forall|k: int| 0 <= k < path.len() ==> 0 <= #[trigger] path[k] < rooms.len()
        &&& forall|k: int|
            0 <= k < path.len() - 1 ==> #[trigger] self.linked(rooms, path[k], path[k + 1])
    }

    /// Room `v` can be reached from room `u` through shared walls with spots
    /// for doors.
    pub open spec fn link_reach(&self, rooms: Seq<Room>, u: int, v: int) -> bool {
        exists|path: Seq<int>|
            #[trigger] self.link_walk(rooms, path) && path[0] == u && path.last() == v
    }

    /// Room `r` is the lowest-numbered room of the rooms it can be reached
    /// from through shared walls with spots for doors.
    pub open spec fn first_of_group(&self, rooms: Seq<Room>, r: int) -> bool {
        forall|u: int| 0 <= u < r ==> !#[trigger] self.link_reach(rooms, u, r)
    }
}

proof fn lemma_link_refl(w: World, rooms: Seq<Room>, u: int)
    requires
        0 <= u < rooms.len(),
    ensures
        w.link_reach(rooms, u, u),
{
    let p = seq![u];
    assert(w.link_walk(rooms, p));
}

proof fn lemma_link_step(w: World, rooms: Seq<Room>, a: int, u: int, v: int)
    requires
        w.link_reach(rooms, a, u),
        w.linked(rooms, u, v),
        0 <= v < rooms.len(),
    ensures
        w.link_reach(rooms, a, v),
{
    let p = choose|p: Seq<int>| #[trigger] w.link_walk(rooms, p) && p[0] == a && p.last() == u;
    let q = p.push(v);
    assert forall|k: int| 0 <= k < q.len() - 1 implies #[trigger] w.linked(rooms, q[k], q[k + 1]) by {
        if k < p.len() - 1 {
            assert(q[k] == p[k] && q[k + 1] == p[k + 1]);
        } else {
            assert(q[k] == u && q[k + 1] == v);
        }
    }
    assert(w.link_walk(rooms, q));
}

proof fn lemma_reach_refl(w: World, rooms: Seq<Room>, u: int)
    requires
        0 <= u < rooms.len(),
    ensures
        w.reachable(rooms, u, u),
{
    let p = seq![u];
    assert(w.door_walk(rooms, p));
}

proof fn lemma_reach_step(w: World, rooms: Seq<Room>, a: int, u: int, v: int)
    requires
        w.reachable(rooms, a, u),
        w.door_between(rooms, u, v),
        0 <= v < rooms.len(),
    ensures
        w.reachable(rooms, a, v),
{
    let p = choose|p: Seq<int>| #[trigger] w.door_walk(rooms, p) && p[0] == a && p.last() == u;
    let q = p.push(v);
    assert forall|k: int| 0 <= k < q.len() - 1 implies #[trigger] w.door_between(rooms, q[k], q[k + 1]) by {
        if k < p.len() - 1 {
            assert(q[k] == p[k] && q[k + 1] == p[k + 1]);
        } else {
            assert(q[k] == u && q[k + 1] == v);
        }
    }
    assert(w.door_walk(rooms, q));
}

proof fn lemma_door_between_sym(w: World, rooms: Seq<Room>, u: int, v: int)
    requires
        w.door_between(rooms, u, v),
    ensures
        w.door_between(rooms, v, u),
{
    let (c, r) = choose|c: int, r: int|
        #[trigger] within(w.width, w.height, c, r) && on_rect_border(rooms[u].rect, c, r)
            && on_rect_border(rooms[v].rect, c, r) && w.tile(c, r) == TILE_DOOR;
    assert(within(w.width, w.height, c, r));
}

proof fn lemma_reach_sym(w: World, rooms: Seq<Room>, a: int, b: int)
    requires
        w.reachable(rooms, a, b),
    ensures
        w.reachable(rooms, b, a),
{
    let p = choose|p: Seq<int>| #[trigger] w.door_walk(rooms, p) && p[0] == a && p.last() == b;
    let q = p.reverse();
    assert forall|k: int| 0 <= k < q.len() implies 0 <= #[trigger] q[k] < rooms.len() by {
        assert(q[k] == p[p.len() - 1 - k]);
    }
    assert forall|k: int| 0 <= k < q.len() - 1 implies #[trigger] w.door_between(rooms, q[k], q[k + 1]) by {
        let j = p.len() - 2 - k;
        assert(q[k] == p[j + 1] && q[k + 1] == p[j]);
        assert(w.door_between(rooms, p[j], p[j + 1]));
        lemma_door_between_sym(w, rooms, p[j], p[j + 1]);
    }
    assert(w.door_walk(rooms, q));
    assert(q[0] == b && q.last() == a);
}

proof fn lemma_reach_trans(w: World, rooms: Seq<Room>, a: int, b: int, c: int)
    requires
        w.reachable(rooms, a, b),
        w.reachable(rooms, b, c),
    ensures
        w.reachable(rooms, a, c),
{
    let p = choose|p: Seq<int>| #[trigger] w.door_walk(rooms, p) && p[0] == a && p.last() == b;
    let q = choose|q: Seq<int>| #[trigger] w.door_walk(rooms, q) && q[0] == b && q.last() == c;
    let t = p + q.drop_first();
    assert forall|k: int| 0 <= k < t.len() implies 0 <= #[trigger] t[k] < rooms.len() by {
        if k < p.len() {
            assert(t[k] == p[k]);
        } else {
            assert(t[k] == q[k - p.len() + 1]);
        }
    }
    assert forall|k: int| 0 <= k < t.len() - 1 implies #[trigger] w.door_between(rooms, t[k], t[k + 1]) by {
        if k < p.len() - 1 {
            assert(t[k] == p[k] && t[k + 1] == p[k + 1]);
        } else if k == p.len() - 1 {
            assert(t[k] == b && t[k + 1] == q[1]);
            assert(q[0] == b);
            assert(w.door_between(rooms, q[0], q[1]));
        } else {
            let j = k - p.len() + 1;
            assert(t[k] == q[j] && t[k + 1] == q[j + 1]);
            assert(w.door_between(rooms, q[j], q[j + 1]));
        }
    }
    assert(w.door_walk(rooms, t));
    if q.len() == 1 {
        assert(t =~= p);
    }
    assert(t.last() == c);
}

proof fn lemma_reach_kept(w: World, w2: World, rooms: Seq<Room>, a: int, b: int)
    requires
        w.reachable(rooms, a, b),
        w.keeps_doors(&w2),
    ensures
        w2.reachable(rooms, a, b),
{
    let p = choose|p: Seq<int>| #[trigger] w.door_walk(rooms, p) && p[0] == a && p.last() == b;
    assert forall|k: int| 0 <= k < p.len() - 1 implies #[trigger] w2.door_between(rooms, p[k], p[k + 1]) by {
        assert(w.door_between(rooms, p[k], p[k + 1]));
        let (c, r) = choose|c: int, r: int|
            #[trigger] within(w.width, w.height, c, r) && on_rect_border(rooms[p[k]].rect, c, r)
                && on_rect_border(rooms[p[k + 1]].rect, c, r) && w.tile(c, r) == TILE_DOOR;
        assert(within(w2.width, w2.height, c, r));
    }
    assert(w2.door_walk(rooms, p));
}

/// Rooms joined in the wall plan by a chain of rooms, each sharing a wall
/// with a spot for a door with the next, can be reached from one another
/// through the doors of a grid that joins the rooms: reachability covers whole
/// groups of rooms, not only neighbours.
pub proof fn lemma_joined_chain_reachable(
    grid: World,
    plan: World,
    fp: Seq<Rect>,
    rooms: Seq<Room>,
    chain: Seq<int>,
)
    requires
        grid.joins_rooms(plan, fp, rooms),
        chain.len() >= 1,
        forall|k: int| 0 <= k < chain.len() ==> 0 <= #[trigger] chain[k] < rooms.len(),
        forall|k: int|
            0 <= k < chain.len() - 1 ==> #[trigger] plan.linked(rooms, chain[k], chain[k + 1]),
    ensures
        grid.reachable(rooms, chain[0], chain.last()),
        grid.reachable(rooms, chain.last(), chain[0]),
    decreases chain.len(),
{
    if chain.len() == 1 {
        lemma_reach_refl(grid, rooms, chain[0]);
    } else {
        let front = chain.drop_last();
        assert forall|k: int| 0 <= k < front.len() - 1 implies #[trigger] plan.linked(
            rooms,
            front[k],
            front[k + 1],
        ) by {
            assert(plan.linked(rooms, chain[k], chain[k + 1]));
        }
        lemma_joined_chain_reachable(grid, plan, fp, rooms, front);
        let k = chain.len() - 2;
        assert(plan.linked(rooms, chain[k], chain[k + 1]));
        let u = chain[k];
        let v = chain.last();
        assert(front.last() == u);
        assert(grid.reachable(rooms, u, v));
        lemma_reach_trans(grid, rooms, chain[0], u, v);
    }
    lemma_reach_sym(grid, rooms, chain[0], chain.last());
}

/// Filtering with two predicates that agree on the elements gives the same.
proof fn lemma_filter_agree<A>(s: Seq<A>, p: spec_fn(A) -> bool, q: spec_fn(A) -> bool)
    requires
        forall|i: int| 0 <= i < s.len() ==> p(s[i]) == q(s[i]),
    ensures
        s.filter(p) == s.filter(q),
    decreases s.len(),
{
    reveal(Seq::filter);
    if s.len() > 0 {
        lemma_filter_agree(s.drop_last(), p, q);
    }
}

impl World {
    /// `other` is a grid of the same size with floor at exactly the same tiles.
    pub open spec fn same_floor(&self, other: &World) -> bool {
        &&& other.width == self.width
        &&& other.height == self.height
        &&& forall|c: int, r: int|
            #[trigger] within(self.width, self.height, c, r) ==> (self.tile(c, r) == TILE_FLOOR
                <==> other.tile(c, r) == TILE_FLOOR)
    }
}

/// Where doors go depends only on where the floor is.
proof fn lemma_spot_on_same(
    w1: World,
    w2: World,
    vertical: bool,
    line: Option<int>,
    lo: int,
    hi: int,
    placed: Seq<(bool, usize, usize)>,
    spacing: int,
)
    requires
        w1.same_floor(&w2),
        0 <= lo,
        hi <= w1.extent(!vertical),
    ensures
        w1.spot_on(vertical, line, lo, hi, placed, spacing) == w2.spot_on(
            vertical,
            line,
            lo,
            hi,
            placed,
            spacing,
        ),
{
    if let Some(l) = line {
        if hi > lo && l > 0 && l + 1 < w1.extent(vertical) {
            let sp = span(lo, hi);
            let p1 = |t: usize|
                w1.floor_across(vertical, l, t as int) && far_enough_spec(
                    placed,
                    vertical,
                    l,
                    t as int,
                    spacing,
                );
            let p2 = |t: usize|
                w2.floor_across(vertical, l, t as int) && far_enough_spec(
                    placed,
                    vertical,
                    l,
                    t as int,
                    spacing,
                );
            assert forall|i: int| 0 <= i < sp.len() implies p1(sp[i]) == p2(sp[i]) by {
                let t = sp[i] as int;
                assert(t == lo + i);
                if vertical {
                    assert(within(w1.width, w1.height, l - 1, t));
                    assert(within(w1.width, w1.height, l + 1, t));
                } else {
                    assert(within(w1.width, w1.height, t, l - 1));
                    assert(within(w1.width, w1.height, t, l + 1));
                }
            }
            lemma_filter_agree(sp, p1, p2);
            assert(w1.line_cands(vertical, l, lo, hi, placed, spacing) == sp.filter(p1));
            assert(w2.line_cands(vertical, l, lo, hi, placed, spacing) == sp.filter(p2));
        }
    }
}

proof fn lemma_door_spot_same(
    w1: World,
    w2: World,
    a: Rect,
    b: Rect,
    placed: Seq<(bool, usize, usize)>,
    spacing: int,
)
    requires
        w1.same_floor(&w2),
        rect_inside(a, w1.width as int, w1.height as int),
        rect_inside(b, w1.width as int, w1.height as int),
    ensures
        w1.door_spot(a, b, placed, spacing) == w2.door_spot(a, b, placed, spacing),
{
    lemma_spot_on_same(
        w1,
        w2,
        true,
        shared_col(a, b),
        max_int(a.y as int, b.y as int) + 1,
        sat_dec(min_int(a.y + a.h, b.y + b.h)),
        placed,
        spacing,
    );
    lemma_spot_on_same(
        w1,
        w2,
        false,
        shared_row(a, b),
        max_int(a.x as int, b.x as int) + 1,
        sat_dec(min_int(a.x + a.w, b.x + b.w)),
        placed,
        spacing,
    );
}

/// A state of joining the rooms with doors: the next room to start a search
/// from, the rooms reached, the queue of rooms to expand, the room being
/// expanded (`-1` for none), the next room number to look at for it, the doors
/// placed so far as `(vertical, line, offset)`, and the doors put, in order.
pub type JoinState = (
    int,
    Set<usize>,
    Seq<usize>,
    int,
    int,
    Seq<(bool, usize, usize)>,
    Seq<(usize, usize, bool)>,
);

/// Joining starts from room 0 with nothing reached and no door.
pub open spec fn join_start() -> JoinState {
    (0, Set::empty(), Seq::empty(), -1, 0, Seq::empty(), Seq::empty())
}

/// How much work a joining state has left to do on its current room.
pub open spec fn join_cur_left(n: int, s: JoinState) -> nat {
    if s.3 >= 0 {
        if s.4 <= n {
            (n - s.4 + 1) as nat
        } else {
            1
        }
    } else {
        0
    }
}

/// How many search starts are left.
pub open spec fn join_starts_left(n: int, s: JoinState) -> nat {
    if s.0 < n {
        (n - s.0) as nat
    } else {
        0
    }
}

/// The doors of `ds` hold the position `(c, r)`.
pub open spec fn door_listed(ds: Seq<(usize, usize, bool)>, c: int, r: int) -> bool {
    exists|i: int| 0 <= i < ds.len() && ds[i].0 == c && ds[i].1 == r
}

impl World {
    /// Joining is over: no room being expanded, an empty queue, no start left.
    pub open spec fn join_over(&self, rooms: Seq<Room>, s: JoinState) -> bool {
        ||| (s.3 < 0 && s.2.len() == 0 && s.0 >= rooms.len())
        ||| rooms.len() > usize::MAX
        ||| s.0 < 0
    }

    /// One move of the breadth-first join. While a room `u` is expanded, room
    /// number `k` is looked at: when it shares a wall with a spot for a door
    /// with `u` and is not reached yet, it is reached, queued, and gets the
    /// door `door_choice` gives for that spot and the doors so far. After the
    /// last number, the expansion ends; then the next queued room is expanded;
    /// with an empty queue, the next room not reached yet starts a new search.
    pub open spec fn join_step(&self, rooms: Seq<Room>, s: JoinState) -> JoinState {
        let n = rooms.len() as int;
        let cur = s.3;
        let k = s.4;
        if cur >= 0 {
            if k < n {
                if 0 <= k && 0 <= cur < n && self.linked(rooms, cur, k) && !s.1.contains(
                    k as usize,
                ) {
                    let d = self.door_choice(
                        rooms[cur].rect,
                        rooms[k].rect,
                        s.5,
                        self.pair_spot(rooms, cur, k),
                    );
                    (
                        s.0,
                        s.1.insert(k as usize),
                        s.2.push(k as usize),
                        cur,
                        k + 1,
                        s.5.push(placed_entry(d)),
                        s.6.push(d),
                    )
                } else {
                    (s.0, s.1, s.2, cur, k + 1, s.5, s.6)
                }
            } else {
                (s.0, s.1, s.2, -1, 0, s.5, s.6)
            }
        } else if s.2.len() > 0 {
            (s.0, s.1, s.2.drop_first(), s.2[0] as int, 0, s.5, s.6)
        } else if s.1.contains(s.0 as usize) {
            (s.0 + 1, s.1, s.2, -1, 0, s.5, s.6)
        } else {
            (s.0 + 1, s.1.insert(s.0 as usize), seq![s.0 as usize], -1, 0, s.5, s.6)
        }
    }

    /// The state where joining from `s` ends.
    pub open spec fn join_run(&self, rooms: Seq<Room>, s: JoinState) -> JoinState
        decreases unvisited(s.1, rooms.len() as int), join_starts_left(rooms.len() as int, s), s.2.len(),
            join_cur_left(rooms.len() as int, s),
    {
        if self.join_over(rooms, s) {
            s
        } else {
            let n = rooms.len() as int;
            proof {
                if s.3 >= 0 && 0 <= s.4 < n && 0 <= s.3 < n && self.linked(rooms, s.3, s.4)
                    && !s.1.contains(s.4 as usize) {
                    lemma_unvisited_insert(s.1, n, s.4 as usize);
                }
                if s.3 < 0 && s.2.len() == 0 && !s.1.contains(s.0 as usize) {
                    lemma_unvisited_insert(s.1, n, s.0 as usize);
                }
            }
            self.join_run(rooms, self.join_step(rooms, s))
        }
    }

    /// The doors that joining the rooms puts, in order.
    pub open spec fn joining_doors(&self, rooms: Seq<Room>) -> Seq<(usize, usize, bool)> {
        self.join_run(rooms, join_start()).6
    }
}

/// Looking at room numbers that share no wall with a door spot with the room
/// being expanded changes nothing.
proof fn lemma_join_skip(w: World, rooms: Seq<Room>, s: JoinState, k2: int)
    requires
        !w.join_over(rooms, s),
        s.3 >= 0,
        0 <= s.4 <= k2 <= rooms.len(),
        forall|j: int| s.4 <= j < k2 ==> !#[trigger] w.linked(rooms, s.3, j),
    ensures
        w.join_run(rooms, s) == w.join_run(rooms, (s.0, s.1, s.2, s.3, k2, s.5, s.6)),
    decreases k2 - s.4,
{
    if s.4 < k2 {
        let t = w.join_step(rooms, s);
        assert(!w.linked(rooms, s.3, s.4));
        assert(t == (s.0, s.1, s.2, s.3, s.4 + 1, s.5, s.6));
        lemma_join_skip(w, rooms, t, k2);
    } else {
        assert(s == (s.0, s.1, s.2, s.3, k2, s.5, s.6));
    }
}

/// The room that position `kk` of the list `adj[u]` names, or `n` past its end.
pub open spec fn link_at(adj: Seq<Vec<(usize, (usize, usize, bool))>>, u: int, kk: int, n: int) -> int {
    if kk < adj[u]@.len() {
        adj[u]@[kk].0 as int
    } else {
        n
    }
}

impl World {
    /// `adj` lists for each room, in increasing order, exactly the rooms that
    /// share a wall with a spot for a door with it.
    pub open spec fn links_listed(&self, adj: Seq<Vec<(usize, (usize, usize, bool))>>, rooms: Seq<Room>) -> bool {
        &&& forall|u: int, k1: int, k2: int|
            0 <= u < adj.len() && 0 <= k1 < k2 < adj[u]@.len() ==> adj[u]@[k1].0 < adj[u]@[k2].0
        &&& forall|u: int, v: int|
            0 <= u < rooms.len() && 0 <= v < rooms.len() && #[trigger] self.linked(rooms, u, v)
                ==> adj_has(adj, u, v)
    }

    /// `other` is this grid with wall turned into door at the doors of `ds`.
    pub open spec fn with_doors(&self, other: &World, ds: Seq<(usize, usize, bool)>) -> bool {
        &&& self.same_size(other)
        &&& forall|c: int, r: int|
            #[trigger] within(other.width, other.height, c, r) ==> other.tile(c, r) == if self.tile(
                c,
                r,
            ) == TILE_WALL && door_listed(ds, c, r) {
                TILE_DOOR
            } else {
                self.tile(c, r)
            }
    }
}

/// Doors opened at the same list of spots in the same grid give the same grid:
/// as `connect_rooms` opens the doors `joining_doors(rooms)`, a function of the
/// grid and the rooms alone, two calls on equal grids with equal rooms leave
/// equal grids, tile by tile, whatever order a map would be walked in.
pub proof fn lemma_doors_determined(w: World, a: World, b: World, ds: Seq<(usize, usize, bool)>)
    requires
        w.with_doors(&a, ds),
        w.with_doors(&b, ds),
    ensures
        a.width == b.width,
        a.height == b.height,
        forall|c: int, r: int| #[trigger] within(a.width, a.height, c, r) ==> a.tile(c, r) == b.tile(c, r),
{
    assert forall|c: int, r: int| #[trigger] within(a.width, a.height, c, r) implies a.tile(c, r) == b.tile(
        c,
        r,
    ) by {
        assert(within(b.width, b.height, c, r));
    }
}

/// Between two neighbouring entries of a list of `links_listed`, no room
/// shares a wall with a spot for a door with `u`.
proof fn lemma_no_link_between(
    w: World,
    adj: Seq<Vec<(usize, (usize, usize, bool))>>,
    rooms: Seq<Room>,
    u: int,
    kk: int,
    j: int,
)
    requires
        w.links_listed(adj, rooms),
        adj.len() == rooms.len(),
        0 <= u < rooms.len(),
        0 <= kk <= adj[u]@.len(),
        forall|k: int| 0 <= k < adj[u]@.len() ==> (#[trigger] adj[u]@[k]).0 < rooms.len(),
        0 <= j < link_at(adj, u, kk, rooms.len() as int),
        kk > 0 ==> adj[u]@[kk - 1].0 < j,
    ensures
        !w.linked(rooms, u, j),
{
    if w.linked(rooms, u, j) {
        assert(j < rooms.len()) by {
            if kk < adj[u]@.len() {
                assert(adj[u]@[kk].0 < rooms.len());
            }
        }
        assert(adj_has(adj, u, j));
        let k2 = choose|k2: int| 0 <= k2 < adj[u]@.len() && #[trigger] adj[u]@[k2].0 == j;
        if k2 < kk {
            if k2 < kk - 1 {
                assert(adj[u]@[k2].0 < adj[u]@[kk - 1].0);
            }
        } else {
            if k2 > kk {
                assert(adj[u]@[kk].0 < adj[u]@[k2].0);
            }
        }
    }
}

/// After looking at the room of entry `kk - 1` of the list of room `u`, the
/// join passes over the room numbers up to the next entry.
proof fn lemma_join_advance(
    w: World,
    adj: Seq<Vec<(usize, (usize, usize, bool))>>,
    rooms: Seq<Room>,
    s: JoinState,
    kk: int,
)
    requires
        w.links_listed(adj, rooms),
        adj.len() == rooms.len(),
        !w.join_over(rooms, s),
        0 <= s.3 < rooms.len(),
        forall|k: int| 0 <= k < adj[s.3]@.len() ==> w.link_ok(rooms, s.3, #[trigger] adj[s.3]@[k]),
        1 <= kk <= adj[s.3]@.len(),
        s.4 == adj[s.3]@[kk - 1].0 + 1,
    ensures
        w.join_run(rooms, s) == w.join_run(
            rooms,
            (s.0, s.1, s.2, s.3, link_at(adj, s.3, kk, rooms.len() as int), s.5, s.6),
        ),
{
    let u = s.3;
    let n = rooms.len() as int;
    assert forall|k: int| 0 <= k < adj[u]@.len() implies (#[trigger] adj[u]@[k]).0 < rooms.len() by {
        assert(w.link_ok(rooms, u, adj[u]@[k]));
    }
    assert forall|j: int| s.4 <= j < link_at(adj, u, kk, n) implies !#[trigger] w.linked(rooms, u, j) by {
        lemma_no_link_between(w, adj, rooms, u, kk, j);
    }
    if kk < adj[u]@.len() {
        assert(adj[u]@[kk - 1].0 < adj[u]@[kk].0);
    }
    assert(adj[u]@[kk - 1].0 < rooms.len());
    lemma_join_skip(w, rooms, s, link_at(adj, u, kk, n));
}

/// Every room lies inside the grid and is at least one tile across.
pub open spec fn rooms_inside(rooms: Seq<Room>, width: int, height: int) -> bool {
    forall|i: int|
        0 <= i < rooms.len() ==> {
            let r = (#[trigger] rooms[i]).rect;
            &&& rect_inside(r, width, height)
            &&& r.w >= 1
            &&& r.h >= 1
        }
}

/// The adjacency lists list room `v` among the neighbours of room `u`.
pub open spec fn adj_has(adj: Seq<Vec<(usize, (usize, usize, bool))>>, u: int, v: int) -> bool {
    exists|k: int| 0 <= k < adj[u]@.len() && (#[trigger] adj[u]@[k]).0 == v
}

/// Every neighbour of room `x` is in the set.
pub open spec fn closed(adj: Seq<Vec<(usize, (usize, usize, bool))>>, vis: Set<usize>, x: int) -> bool {
    forall|k: int| 0 <= k < adj[x]@.len() ==> vis.contains((#[trigger] adj[x]@[k]).0)
}

/// Every neighbour of room `x` in `adj` has the root of `x`.
pub open spec fn same_root(adj: Seq<Vec<(usize, (usize, usize, bool))>>, root: Seq<int>, x: int) -> bool {
    forall|k: int| 0 <= k < adj[x]@.len() ==> root[(#[trigger] adj[x]@[k]).0 as int] == root[x]
}

/// Appending `e` to list `i` keeps every listing and adds `e.0` to list `i`.
proof fn lemma_adj_push(
    a0: Seq<Vec<(usize, (usize, usize, bool))>>,
    a1: Seq<Vec<(usize, (usize, usize, bool))>>,
    i: int,
    e: (usize, (usize, usize, bool)),
)
    requires
        0 <= i < a0.len(),
        a1.len() == a0.len(),
        a1[i]@ == a0[i]@.push(e),
        forall|u: int| 0 <= u < a0.len() && u != i ==> (#[trigger] a1[u])@ == a0[u]@,
    ensures
        forall|u: int, v: int| 0 <= u < a0.len() && adj_has(a0, u, v) ==> adj_has(a1, u, v),
        adj_has(a1, i, e.0 as int),
        forall|u: int, k: int|
            0 <= u < a0.len() && 0 <= k < a0[u]@.len() ==> (#[trigger] a1[u]@[k]) == a0[u]@[k],
        forall|u: int| 0 <= u < a0.len() && u != i ==> (#[trigger] a1[u]@.len()) == a0[u]@.len(),
        a1[i]@.len() == a0[i]@.len() + 1,
        a1[i]@[a0[i]@.len() as int] == e,
{
    assert forall|u: int, v: int| 0 <= u < a0.len() && adj_has(a0, u, v) implies adj_has(a1, u, v) by {
        let k = choose|k: int| 0 <= k < a0[u]@.len() && (#[trigger] a0[u]@[k]).0 == v;
        if u == i {
            assert(a1[u]@[k] == a0[u]@[k]);
        } else {
            assert(a1[u]@ == a0[u]@);
            assert(a1[u]@[k] == a0[u]@[k]);
        }
    }
    assert(a1[i]@[a0[i]@.len() as int] == e);
    assert forall|u: int, k: int|
        0 <= u < a0.len() && 0 <= k < a0[u]@.len() implies (#[trigger] a1[u]@[k]) == a0[u]@[k] by {
        if u != i {
            assert(a1[u]@ == a0[u]@);
        }
    }
}

/// Visiting room `v` from the queue's point of view: the queue gains `v`, the
/// visited set gains `v`.
proof fn lemma_bfs_visit(
    adj: Seq<Vec<(usize, (usize, usize, bool))>>,
    vis0: Set<usize>,
    vis1: Set<usize>,
    q0: Seq<usize>,
    q1: Seq<usize>,
    u: usize,
    v: usize,
)
    requires
        vis1 == vis0.insert(v),
        q1 == q0.push(v),
        !vis0.contains(v),
        q0.no_duplicates(),
        forall|k: int| 0 <= k < q0.len() ==> vis0.contains(#[trigger] q0[k]),
    ensures
        q1.no_duplicates(),
        forall|k: int| 0 <= k < q1.len() ==> vis1.contains(#[trigger] q1[k]),
        forall|x: int| #[trigger] closed(adj, vis0, x) ==> closed(adj, vis1, x),
        forall|x: usize| #[trigger] q1.contains(x) <==> (q0.contains(x) || x == v),
{
    assert forall|x: int| #[trigger] closed(adj, vis0, x) implies closed(adj, vis1, x) by {
        assert forall|k: int| 0 <= k < adj[x]@.len() implies vis1.contains(
            (#[trigger] adj[x]@[k]).0,
        ) by {
            assert(vis0.contains(adj[x]@[k].0));
        }
    }
    assert forall|k: int| 0 <= k < q1.len() implies vis1.contains(#[trigger] q1[k]) by {
        if k < q0.len() {
            assert(q1[k] == q0[k]);
        }
    }
    assert forall|x: usize| #[trigger] q1.contains(x) <==> (q0.contains(x) || x == v) by {
        if q1.contains(x) {
            let k = choose|k: int| 0 <= k < q1.len() && q1[k] == x;
            if k < q0.len() {
                assert(q0[k] == x);
            }
        }
        if q0.contains(x) {
            let k = choose|k: int| 0 <= k < q0.len() && q0[k] == x;
            assert(q1[k] == x);
        }
        if x == v {
            assert(q1[q0.len() as int] == v);
        }
    }
    assert forall|a: int, b: int| 0 <= a < q1.len() && 0 <= b < q1.len() && a != b implies q1[a]
        != q1[b] by {
        if a < q0.len() && b < q0.len() {
            assert(q0[a] != q0[b]);
        } else if a < q0.len() {
            assert(vis0.contains(q0[a]));
        } else if b < q0.len() {
            assert(vis0.contains(q0[b]));
        }
    }
}

impl World {
    /// `other` is this grid with some wall tiles turned into doors, each joining
    /// floor to floor; nothing else differs.
    pub open spec fn doors_added(&self, other: &World) -> bool {
        &&& self.same_size(other)
        &&& forall|c: int, r: int|
            #[trigger] within(other.width, other.height, c, r) ==> other.tile(c, r) == self.tile(c, r)
                || (self.tile(c, r) == TILE_WALL && other.tile(c, r) == TILE_DOOR && self.doorway(
                c,
                r,
            ))
    }

    /// `s` is a finite set of positions that holds every tile of the grid
    /// where `other` differs from this grid.
    pub open spec fn changes_within(&self, other: &World, s: Set<(int, int)>) -> bool {
        &&& s.finite()
        &&& forall|c: int, r: int|
            #[trigger] within(other.width, other.height, c, r) && other.tile(c, r) != self.tile(c, r)
                ==> s.contains((c, r))
    }

    /// Every tile of the outline of `r` on the grid is wall or door.
    pub open spec fn outline_walled(&self, r: Rect) -> bool {
        forall|x: int, y: int|
            #[trigger] within(self.width, self.height, x, y) && on_rect_border(r, x, y) ==> (
            self.tile(x, y) == TILE_WALL || self.tile(x, y) == TILE_DOOR)
    }

    /// Some tile of the outline of `r` is a door.
    pub open spec fn door_on(&self, r: Rect) -> bool {
        exists|x: int, y: int|
            within(self.width, self.height, x, y) && on_rect_border(r, x, y) && #[trigger] self.tile(
                x,
                y,
            ) == TILE_DOOR
    }

    /// Room `r` has a door on its outline, if its outline was walled in `start`.
    pub open spec fn entered(&self, start: &World, r: Rect) -> bool {
        start.outline_walled(r) ==> self.door_on(r)
    }

    /// Rooms `u` and `v` share a wall with a spot for a door.
    pub open spec fn linked(&self, rooms: Seq<Room>, u: int, v: int) -> bool {
        &&& u != v
        &&& ((u < v && self.door_spot(rooms[u].rect, rooms[v].rect, Seq::empty(), 0) is Some) || (v
            < u && self.door_spot(rooms[v].rect, rooms[u].rect, Seq::empty(), 0) is Some))
    }

    /// Room `v` shares a wall with a spot for a door with some other room.
    pub open spec fn has_link(&self, rooms: Seq<Room>, v: int) -> bool {
        exists|u: int| 0 <= u < rooms.len() && #[trigger] self.linked(rooms, u, v)
    }

    /// `e` is an adjacency entry of room `u`: another room, and a doorway on the
    /// outline of both rooms.
    pub open spec fn link_ok(&self, rooms: Seq<Room>, u: int, e: (usize, (usize, usize, bool))) -> bool {
        &&& e.0 < rooms.len()
        &&& e.0 != u
        &&& self.doorway(e.1.0 as int, e.1.1 as int)
        &&& on_rect_border(rooms[u].rect, e.1.0 as int, e.1.1 as int)
        &&& on_rect_border(rooms[e.0 as int].rect, e.1.0 as int, e.1.1 as int)
        &&& self.linked(rooms, u, e.0 as int)
        &&& e.1 == self.pair_spot(rooms, u, e.0 as int)
    }

    /// The spot that `find_door_pos` finds for rooms `u` and `v`, taken with the
    /// lower-numbered room first.
    pub open spec fn pair_spot(&self, rooms: Seq<Room>, u: int, v: int) -> (usize, usize, bool) {
        if u < v {
            self.door_spot(rooms[u].rect, rooms[v].rect, Seq::empty(), 0)->0
        } else {
            self.door_spot(rooms[v].rect, rooms[u].rect, Seq::empty(), 0)->0
        }
    }

    /// `(c, r)` lies on the outlines of two rooms of `rooms` that share a wall
    /// with a spot for a door.
    pub open spec fn between_linked(&self, rooms: Seq<Room>, c: int, r: int) -> bool {
        exists|u: int, v: int|
            #![trigger on_rect_border(rooms[u].rect, c, r), on_rect_border(rooms[v].rect, c, r)]
            0 <= u < rooms.len() && 0 <= v < rooms.len() && self.linked(rooms, u, v)
                && on_rect_border(rooms[u].rect, c, r) && on_rect_border(rooms[v].rect, c, r)
    }

    /// A door put at `(x, y)` on the outlines of rooms `u` and `v` enters both;
    /// doors already there stay.
    proof fn lemma_link_entered(
        &self,
        start: &World,
        before: &World,
        rooms: Seq<Room>,
        u: int,
        v: int,
        x: int,
        y: int,
    )
        requires
            start.wf(),
            start.doors_added(before),
            before.doors_added(self),
            within(start.width, start.height, x, y),
            on_rect_border(rooms[u].rect, x, y),
            on_rect_border(rooms[v].rect, x, y),
            self.tile(x, y) == if before.tile(x, y) == TILE_WALL {
                TILE_DOOR
            } else {
                before.tile(x, y)
            },
        ensures
            self.entered(start, rooms[u].rect),
            self.entered(start, rooms[v].rect),
            forall|r: Rect| #[trigger] before.entered(start, r) ==> self.entered(start, r),
    {
        assert(within(before.width, before.height, x, y));
        assert(within(self.width, self.height, x, y));
        if start.outline_walled(rooms[u].rect) || start.outline_walled(rooms[v].rect) {
            assert(within(start.width, start.height, x, y) && on_rect_border(rooms[u].rect, x, y));
            assert(self.tile(x, y) == TILE_DOOR);
        }
        assert forall|r: Rect| #[trigger] before.entered(start, r) implies self.entered(start, r) by {
            if start.outline_walled(r) {
                let (a, b) = choose|a: int, b: int|
                    within(before.width, before.height, a, b) && on_rect_border(r, a, b)
                        && #[trigger] before.tile(a, b) == TILE_DOOR;
                assert(within(self.width, self.height, a, b));
                assert(self.tile(a, b) == TILE_DOOR);
            }
        }
    }

    /// Adding doors keeps every floor tile, so it keeps every doorway.
    pub proof fn lemma_doors_added_doorway(&self, other: &World, x: int, y: int)
        requires
            self.wf(),
            self.doors_added(other),
        ensures
            self.doorway(x, y) <==> other.doorway(x, y),
    {
        assert(within(other.width, other.height, x - 1, y) ==> (self.tile(x - 1, y) == TILE_FLOOR
            <==> other.tile(x - 1, y) == TILE_FLOOR));
        assert(within(other.width, other.height, x + 1, y) ==> (self.tile(x + 1, y) == TILE_FLOOR
            <==> other.tile(x + 1, y) == TILE_FLOOR));
        assert(within(other.width, other.height, x, y - 1) ==> (self.tile(x, y - 1) == TILE_FLOOR
            <==> other.tile(x, y - 1) == TILE_FLOOR));
        assert(within(other.width, other.height, x, y + 1) ==> (self.tile(x, y + 1) == TILE_FLOOR
            <==> other.tile(x, y + 1) == TILE_FLOOR));
    }

    /// Adding doors twice is adding doors: each new door still replaces a wall
    /// and joins floor to floor in the grid it started from.
    pub proof fn lemma_doors_added_trans(&self, b: &World, c: &World)
        requires
            self.wf(),
            self.doors_added(b),
            b.doors_added(c),
        ensures
            self.doors_added(c),
    {
        assert forall|x: int, y: int| #[trigger] within(c.width, c.height, x, y) implies c.tile(
            x,
            y,
        ) == self.tile(x, y) || (self.tile(x, y) == TILE_WALL && c.tile(x, y) == TILE_DOOR
            && self.doorway(x, y)) by {
            assert(within(b.width, b.height, x, y));
            self.lemma_doors_added_doorway(b, x, y);
        }
    }

    proof fn lemma_doors_added_refl(&self)
        requires
            self.wf(),
        ensures
            self.doors_added(self),
    {
    }

    /// Turns the tile at `(x, y)` into a door if it is a wall.
    fn put_door(&mut self, x: usize, y: usize)
        requires
            old(self).wf(),
            old(self).doorway(x as int, y as int),
        ensures
            old(self).doors_added(final(self)),
            forall|c: int, r: int|
                #[trigger] within(final(self).width, final(self).height, c, r) ==> final(self).tile(c, r) == if c == x && r == y && old(self).tile(c, r) == TILE_WALL {
                    TILE_DOOR
                } else {
                    old(self).tile(c, r)
                },
    {
        if self.map[y][x] == TILE_WALL {
            self.map[y][x] = TILE_DOOR;
        }
    }

    /// The door-adjacency of the rooms: `adj[u]` lists, in increasing room
    /// order, each room `v` that shares a wall with room `u`, with the spot
    /// where `find_door_pos` puts their door.
    fn room_links(&self, rooms: &[Room]) -> (adj: Vec<Vec<(usize, (usize, usize, bool))>>)
        requires
            self.wf(),
            rooms_inside(rooms@, self.width as int, self.height as int),
        ensures
            adj@.len() == rooms@.len(),
            forall|u: int, k: int|
                0 <= u < adj@.len() && 0 <= k < adj@[u]@.len() ==> self.link_ok(
                    rooms@,
                    u,
                    #[trigger] adj@[u]@[k],
                ),
            forall|u: int, k1: int, k2: int|
                0 <= u < adj@.len() && 0 <= k1 < k2 < adj@[u]@.len() ==> adj@[u]@[k1].0
                    < adj@[u]@[k2].0,
            forall|u: int, k: int|
                0 <= u < adj@.len() && 0 <= k < adj@[u]@.len() ==> adj_has(
                    adj@,
                    (#[trigger] adj@[u]@[k]).0 as int,
                    u,
                ),
            forall|a: int, b: int|
                #![trigger self.door_spot(rooms@[a].rect, rooms@[b].rect, Seq::empty(), 0)]
                0 <= a < b < rooms@.len() && self.door_spot(
                    rooms@[a].rect,
                    rooms@[b].rect,
                    Seq::empty(),
                    0,
                ) is Some ==> adj_has(adj@, a, b) && adj_has(adj@, b, a),
    {
        let n = rooms.len();
        let mut adj: Vec<Vec<(usize, (usize, usize, bool))>> = Vec::new();
        for i in 0..n
            invariant
                adj@.len() == i,
                forall|u: int| 0 <= u < i ==> (#[trigger] adj@[u])@.len() == 0,
        {
            adj.push(Vec::new());
        }
        for i in 0..n
            invariant
                n == rooms@.len(),
                self.wf(),
                rooms_inside(rooms@, self.width as int, self.height as int),
                adj@.len() == n,
                forall|u: int, k: int|
                    0 <= u < n && 0 <= k < adj@[u]@.len() ==> self.link_ok(
                        rooms@,
                        u,
                        #[trigger] adj@[u]@[k],
                    ),
                forall|u: int, k1: int, k2: int|
                    0 <= u < n && 0 <= k1 < k2 < adj@[u]@.len() ==> adj@[u]@[k1].0 < adj@[u]@[k2].0,
                forall|u: int, k: int|
                    i <= u < n && 0 <= k < adj@[u]@.len() ==> adj@[u]@[k].0 < i,
                forall|u: int, k: int|
                    0 <= u < n && 0 <= k < adj@[u]@.len() ==> adj_has(
                        adj@,
                        (#[trigger] adj@[u]@[k]).0 as int,
                        u,
                    ),
                forall|a: int, b: int|
                    #![trigger self.door_spot(rooms@[a].rect, rooms@[b].rect, Seq::empty(), 0)]
                    0 <= a < b < n && a < i && self.door_spot(
                        rooms@[a].rect,
                        rooms@[b].rect,
                        Seq::empty(),
                        0,
                    ) is Some ==> adj_has(adj@, a, b) && adj_has(adj@, b, a),
        {
            for j in i + 1..n
                invariant
                    n == rooms@.len(),
                    i < n,
                    self.wf(),
                    rooms_inside(rooms@, self.width as int, self.height as int),
                    adj@.len() == n,
                    forall|u: int, k: int|
                        0 <= u < n && 0 <= k < adj@[u]@.len() ==> self.link_ok(
                            rooms@,
                            u,
                            #[trigger] adj@[u]@[k],
                        ),
                    forall|u: int, k1: int, k2: int|
                        0 <= u < n && 0 <= k1 < k2 < adj@[u]@.len() ==> adj@[u]@[k1].0
                            < adj@[u]@[k2].0,
                    forall|u: int, k: int|
                        j <= u < n && 0 <= k < adj@[u]@.len() ==> adj@[u]@[k].0 < i,
                    forall|u: int, k: int|
                        i < u < j && 0 <= k < adj@[u]@.len() ==> adj@[u]@[k].0 <= i,
                    forall|k: int| 0 <= k < adj@[i as int]@.len() ==> adj@[i as int]@[k].0 < j,
                    forall|u: int, k: int|
                        0 <= u < n && 0 <= k < adj@[u]@.len() ==> adj_has(
                            adj@,
                            (#[trigger] adj@[u]@[k]).0 as int,
                            u,
                        ),
                    forall|a: int, b: int|
                        #![trigger self.door_spot(rooms@[a].rect, rooms@[b].rect, Seq::empty(), 0)]
                        0 <= a < b < n && (a < i || (a == i && b < j)) && self.door_spot(
                            rooms@[a].rect,
                            rooms@[b].rect,
                            Seq::empty(),
                            0,
                        ) is Some ==> adj_has(adj@, a, b) && adj_has(adj@, b, a),
            {
                assert(rooms@[i as int].rect == rooms[i as int].rect);
                if let Some(pos) = self.find_door_pos(&rooms[i].rect, &rooms[j].rect) {
                    let ghost a0 = adj@;
                    adj[i].push((j, pos));
                    let ghost a1 = adj@;
                    proof {
                        lemma_adj_push(a0, a1, i as int, (j, pos));
                    }
                    adj[j].push((i, pos));
                    proof {
                        lemma_adj_push(a1, adj@, j as int, (i, pos));
                        assert forall|u: int, k: int|
                            0 <= u < n && 0 <= k < adj@[u]@.len() implies adj_has(
                            adj@,
                            (#[trigger] adj@[u]@[k]).0 as int,
                            u,
                        ) by {
                            if u == i && k == a0[u]@.len() {
                                assert(adj@[u]@[k] == (j, pos));
                            } else if u == j && k == a0[u]@.len() {
                                assert(adj@[u]@[k] == (i, pos));
                            } else {
                                assert(adj@[u]@[k] == a0[u]@[k]);
                                assert(adj_has(a0, a0[u]@[k].0 as int, u));
                            }
                        }
                        assert forall|u: int, k: int|
                            0 <= u < n && 0 <= k < adj@[u]@.len() implies self.link_ok(
                            rooms@,
                            u,
                            #[trigger] adj@[u]@[k],
                        ) by {
                            if u == i && k == a0[u]@.len() {
                            } else if u == j && k == a0[u]@.len() {
                            } else {
                                assert(adj@[u]@[k] == a0[u]@[k]);
                            }
                        }
                    }
                }
            }
        }
        adj
    }

    /// The door that joins two rooms with outlines `a` and `b`, given the spot
    /// `spot` found for them and the doors `placed` so far: that spot, unless a
    /// door of `placed` on the same wall line stands within `MIN_DOOR_SPACING`
    /// of it and the shared wall has a spot that keeps the spacing, which is
    /// then taken instead.
    pub open spec fn door_choice(
        &self,
        a: Rect,
        b: Rect,
        placed: Seq<(bool, usize, usize)>,
        spot: (usize, usize, bool),
    ) -> (usize, usize, bool) {
        let e = placed_entry(spot);
        if !far_enough_spec(placed, e.0, e.1 as int, e.2 as int, MIN_DOOR_SPACING as int)
            && self.door_spot(a, b, placed, MIN_DOOR_SPACING as int) is Some {
            self.door_spot(a, b, placed, MIN_DOOR_SPACING as int)->0
        } else {
            spot
        }
    }

    /// Puts the door that joins two rooms with outlines `a` and `b`: at
    /// `door_choice(a, b, placed, spot)`, turning wall there into door, and
    /// records it in `placed`. Returns where it went.
    pub fn link_room(
        &mut self,
        a: &Rect,
        b: &Rect,
        placed: &mut Vec<(bool, usize, usize)>,
        spot: (usize, usize, bool),
    ) -> (d: (usize, usize, bool))
        requires
            old(self).wf(),
            rect_inside(*a, old(self).width as int, old(self).height as int),
            rect_inside(*b, old(self).width as int, old(self).height as int),
            a.w >= 1,
            a.h >= 1,
            b.w >= 1,
            b.h >= 1,
            old(self).doorway(spot.0 as int, spot.1 as int),
            on_rect_border(*a, spot.0 as int, spot.1 as int),
            on_rect_border(*b, spot.0 as int, spot.1 as int),
        ensures
            d == old(self).door_choice(*a, *b, old(placed)@, spot),
            final(placed)@ == old(placed)@.push(placed_entry(d)),
            old(self).doorway(d.0 as int, d.1 as int),
            on_rect_border(*a, d.0 as int, d.1 as int),
            on_rect_border(*b, d.0 as int, d.1 as int),
            old(self).doors_added(final(self)),
            forall|c: int, r: int|
                #[trigger] within(final(self).width, final(self).height, c, r) ==> final(self).tile(c, r) == if c == d.0 && r == d.1 && old(self).tile(c, r) == TILE_WALL {
                    TILE_DOOR
                } else {
                    old(self).tile(c, r)
                },
    {
        let (px, py, vert) = spot;
        let pos = if vert {
            px
        } else {
            py
        };
        let off = if vert {
            py
        } else {
            px
        };
        let mut d = spot;
        if too_close(placed, vert, pos, off) {
            if let Some(alt) = self.find_door_pos_avoiding(a, b, placed, MIN_DOOR_SPACING) {
                d = alt;
            }
        }
        self.put_door(d.0, d.1);
        let dpos = if d.2 {
            d.0
        } else {
            d.1
        };
        let doff = if d.2 {
            d.1
        } else {
            d.0
        };
        placed.push((d.2, dpos, doff));
        d
    }

    /// Joins the rooms with doors, room by room in breadth-first order from the
    /// lowest-numbered room not reached yet: each newly reached room gets one door
    /// on the wall it shares with the room it is reached from. When that door
    /// would stand within `MIN_DOOR_SPACING` of an earlier door on the same wall
    /// line, another spot of that wall that keeps the spacing is taken, if any.
    /// The grid afterwards is exactly the grid before with wall turned into
    /// door at the doors `joining_doors` lists (see `join_step`), so equal
    /// grids and rooms give equal results.
    /// Afterwards every room that shares a wall with another room, and whose
    /// outline was all wall or door, has a door on its outline; every tile
    /// changed lies on the outlines of two rooms that share a wall with a spot
    /// for a door, and the tiles changed are at most as many as the rooms less
    /// the groups of rooms joined through such walls (one door per edge of a
    /// spanning forest). When every room's outline was all wall or door, any
    /// two rooms that share a wall with a spot for a door can be reached from
    /// each other through doors.
    #[verifier::rlimit(80)]
    #[verifier::spinoff_prover]
    pub fn connect_rooms(&mut self, rooms: &[Room])
        requires
            old(self).wf(),
            rooms_inside(rooms@, old(self).width as int, old(self).height as int),
        ensures
            old(self).with_doors(final(self), old(self).joining_doors(rooms@)),
            old(self).doors_added(final(self)),
            forall|v: int|
                0 <= v < rooms@.len() && #[trigger] old(self).has_link(rooms@, v)
                    && old(self).outline_walled(rooms@[v].rect) ==> final(self).door_on(
                    rooms@[v].rect,
                ),
            forall|c: int, r: int|
                #[trigger] within(final(self).width, final(self).height, c, r) && final(self).tile(c, r)
                    != old(self).tile(c, r) ==> old(self).between_linked(rooms@, c, r),
            exists|s: Set<(int, int)>, t: Set<int>|
                #![trigger old(self).changes_within(final(self), s), t.len()]
                old(self).changes_within(final(self), s) && t.finite() && (forall|r: int|
                    0 <= r < rooms@.len() && #[trigger] old(self).first_of_group(rooms@, r)
                        ==> t.contains(r)) && s.len() + t.len() <= rooms@.len(),
            (forall|w: int| 0 <= w < rooms@.len() ==> old(self).outline_walled(#[trigger] rooms@[w].rect))
                ==> forall|u: int, v: int|
                0 <= u < rooms@.len() && 0 <= v < rooms@.len() && #[trigger] old(self).linked(
                    rooms@,
                    u,
                    v,
                ) ==> final(self).reachable(rooms@, u, v),
    {
        let n = rooms.len();
        let adj = self.room_links(rooms);

        // placed: the doors set so far, as (vertical, line, offset along it).
        let mut placed: Vec<(bool, usize, usize)> = Vec::new();
        let mut visited: HashSet<usize> = HashSet::new();
        let ghost mut doors: Set<(int, int)> = Set::empty();
        // root[v]: the room from which the search that reached room v started.
        let ghost mut root: Seq<int> = Seq::new(n as nat, |i: int| i);
        // doors_put: the doors put so far, in order.
        let ghost mut doors_put: Seq<(usize, usize, bool)> = Seq::empty();
        let ghost fin = old(self).join_run(rooms@, join_start());
        proof {
            assert forall|u: int, v: int|
                0 <= u < rooms@.len() && 0 <= v < rooms@.len() && #[trigger] old(self).linked(rooms@, u, v)
                    implies adj_has(adj@, u, v) by {
                if u < v {
                    assert(adj_has(adj@, u, v));
                } else {
                    assert(adj_has(adj@, v, u) && adj_has(adj@, u, v));
                }
            }
            assert(old(self).with_doors(self, doors_put));
        }
        // starts: the rooms each search started from.
        let ghost mut starts: Set<int> = Set::empty();
        let ghost walled_all = (forall|w: int| 0 <= w < n ==> old(self).outline_walled(#[trigger] rooms@[w].rect));
        proof {
            self.lemma_doors_added_refl();
            lemma_unvisited_none(n as int);
            assert(visited@ == Set::<usize>::empty());
        }
        for start in 0..n
            invariant
                n == rooms@.len(),
                old(self).wf(),
                old(self).doors_added(self),
                doors.finite(),
                forall|c: int, r: int|
                    #[trigger] within(self.width, self.height, c, r) && self.tile(c, r) != old(
                        self,
                    ).tile(c, r) ==> doors.contains((c, r)) && old(self).between_linked(rooms@, c, r),
                doors.len() + unvisited(visited@, n as int) + 1 <= n || (doors.len() == 0
                    && unvisited(visited@, n as int) == n),
                rooms_inside(rooms@, self.width as int, self.height as int),
                adj@.len() == n,
                forall|u: int, k: int|
                    0 <= u < n && 0 <= k < adj@[u]@.len() ==> old(self).link_ok(
                        rooms@,
                        u,
                        #[trigger] adj@[u]@[k],
                    ),
                forall|u: int, k: int|
                    0 <= u < n && 0 <= k < adj@[u]@.len() ==> adj_has(
                        adj@,
                        (#[trigger] adj@[u]@[k]).0 as int,
                        u,
                    ),
                forall|v: usize| visited@.contains(v) ==> v < n,
                forall|v: usize| v < start ==> #[trigger] visited@.contains(v),
                forall|v: usize| #[trigger] visited@.contains(v) ==> closed(adj@, visited@, v as int),
                forall|v: usize|
                    #[trigger] visited@.contains(v) && adj@[v as int]@.len() > 0
                        ==> self.entered(old(self), rooms@[v as int].rect),
                starts.finite(),
                forall|r: int| #[trigger] starts.contains(r) ==> 0 <= r < start,
                doors.len() + starts.len() + unvisited(visited@, n as int) <= n,
                forall|r: int|
                    0 <= r < start && #[trigger] old(self).first_of_group(rooms@, r) ==> starts.contains(r),
                forall|v: usize|
                    #[trigger] visited@.contains(v) ==> root[v as int] < start && old(self).link_reach(
                        rooms@,
                        root[v as int],
                        v as int,
                    ),
                old(self).links_listed(adj@, rooms@),
                old(self).with_doors(self, doors_put),
                fin == old(self).join_run(rooms@, join_start()),
                old(self).join_run(rooms@, (start as int, visited@, Seq::empty(), -1, 0, placed@, doors_put)) == fin,
                root.len() == n,
                forall|v: usize| v < n && !visited@.contains(v) ==> root[v as int] == v,
                forall|v: usize| #[trigger] visited@.contains(v) ==> same_root(adj@, root, v as int),
                walled_all ==> forall|v: usize|
                    #[trigger] visited@.contains(v) ==> self.reachable(rooms@, root[v as int], v as int),
                walled_all == (forall|w: int| 0 <= w < n ==> old(self).outline_walled(#[trigger] rooms@[w].rect)),
        {
            proof {
                let s0 = (start as int, visited@, Seq::<usize>::empty(), -1int, 0int, placed@, doors_put);
                assert(!old(self).join_over(rooms@, s0));
                assert(old(self).join_run(rooms@, s0) == old(self).join_run(rooms@, old(self).join_step(rooms@, s0)));
                if visited@.contains(start) {
                    assert(old(self).join_step(rooms@, s0) == (start + 1, visited@, Seq::<usize>::empty(), -1int, 0int, placed@, doors_put));
                }
            }
            if !visited.contains(&start) {
                proof {
                    assert forall|k: int| 0 <= k < adj@[start as int]@.len() implies !visited@.contains(
                        (#[trigger] adj@[start as int]@[k]).0,
                    ) by {
                        let w = adj@[start as int]@[k].0;
                        if visited@.contains(w) {
                            assert(adj_has(adj@, w as int, start as int));
                            let k2 = choose|k2: int|
                                0 <= k2 < adj@[w as int]@.len() && #[trigger] adj@[w as int]@[k2].0
                                    == start;
                            assert(closed(adj@, visited@, w as int));
                            assert(visited@.contains(adj@[w as int]@[k2].0));
                        }
                    }
                }
                let mut q: VecDeque<usize> = VecDeque::new();
                let ghost q_empty = q@;
                q.push_back(start);
                proof {
                    lemma_unvisited_insert(visited@, n as int, start);
                }
                let ghost vis0 = visited@;
                visited.insert(start);
                proof {
                    assert(unvisited(visited@, n as int) + 1 == unvisited(vis0, n as int));
                }
                proof {
                    lemma_bfs_visit(adj@, vis0, visited@, q_empty, q@, start, start);
                    assert(q@ =~= seq![start]);
                    assert(old(self).join_step(rooms@, (start as int, vis0, Seq::<usize>::empty(), -1int, 0int, placed@, doors_put))
                        == (start + 1, visited@, q@, -1int, 0int, placed@, doors_put));
                    assert forall|v: usize|
                        #[trigger] visited@.contains(v) && !q@.contains(v) implies closed(
                        adj@,
                        visited@,
                        v as int,
                    ) && (adj@[v as int]@.len() > 0 ==> self.entered(old(self), rooms@[v as int].rect)) by {
                        assert(vis0.contains(v));
                    }
                    assert(root[start as int] == start);
                    assert(q@[0] == start);
                    let s0 = starts;
                    starts = starts.insert(start as int);
                    assert(!s0.contains(start as int));
                    lemma_link_refl(*old(self), rooms@, start as int);
                    assert forall|w: usize| #[trigger] visited@.contains(w) implies root[w as int] <= start
                        && old(self).link_reach(rooms@, root[w as int], w as int) by {
                        if w != start {
                            assert(vis0.contains(w));
                        }
                    }
                    assert forall|v: usize|
                        #[trigger] visited@.contains(v) && root[v as int] != start implies !q@.contains(v)
                        && closed(adj@, visited@, v as int) && same_root(adj@, root, v as int) by {
                        assert(vis0.contains(v));
                        if q@.contains(v) {
                            let kq = choose|kq: int| 0 <= kq < q@.len() && q@[kq] == v;
                            assert(q@[kq] == start);
                        }
                        assert(closed(adj@, vis0, v as int));
                        assert forall|k3: int| 0 <= k3 < adj@[v as int]@.len() implies visited@.contains(
                            (#[trigger] adj@[v as int]@[k3]).0) by {
                            assert(vis0.contains(adj@[v as int]@[k3].0));
                        }
                    }
                    assert forall|v: usize|
                        #[trigger] visited@.contains(v) && !q@.contains(v) implies same_root(adj@, root, v as int) by {
                        if v == start {
                            assert(q@.contains(start)) by {
                                assert(q@[0] == start);
                            }
                        }
                        assert(vis0.contains(v));
                    }
                    if walled_all {
                        assert forall|v: usize| #[trigger] visited@.contains(v) implies self.reachable(
                            rooms@,
                            root[v as int],
                            v as int,
                        ) by {
                            if v == start {
                                lemma_reach_refl(*self, rooms@, start as int);
                            } else {
                                assert(vis0.contains(v));
                            }
                        }
                    }
                }
                loop
                    invariant
                        n == rooms@.len(),
                        start < n,
                        old(self).wf(),
                        old(self).doors_added(self),
                        doors.finite(),
                        forall|c: int, r: int|
                            #[trigger] within(self.width, self.height, c, r) && self.tile(c, r) != old(
                                self,
                            ).tile(c, r) ==> doors.contains((c, r)) && old(self).between_linked(rooms@, c, r),
                        doors.len() + unvisited(visited@, n as int) + 1 <= n,
                        rooms_inside(rooms@, self.width as int, self.height as int),
                        adj@.len() == n,
                        forall|u: int, k: int|
                            0 <= u < n && 0 <= k < adj@[u]@.len() ==> old(self).link_ok(
                                rooms@,
                                u,
                                #[trigger] adj@[u]@[k],
                            ),
                        forall|u: int, k: int|
                            0 <= u < n && 0 <= k < adj@[u]@.len() ==> adj_has(
                                adj@,
                                (#[trigger] adj@[u]@[k]).0 as int,
                                u,
                            ),
                        forall|v: usize| visited@.contains(v) ==> v < n,
                        forall|v: usize| v <= start ==> #[trigger] visited@.contains(v),
                        forall|k: int| 0 <= k < q@.len() ==> visited@.contains(#[trigger] q@[k]),
                        q@.no_duplicates(),
                        forall|v: usize|
                            #[trigger] visited@.contains(v) && !q@.contains(v) ==> closed(
                                adj@,
                                visited@,
                                v as int,
                            ),
                        forall|v: usize|
                            #[trigger] visited@.contains(v) && !q@.contains(v) && adj@[v as int]@.len()
                                > 0 ==> self.entered(old(self), rooms@[v as int].rect),
                        forall|k: int|
                            0 <= k < q@.len() ==> self.entered(
                                old(self),
                                rooms@[(#[trigger] q@[k]) as int].rect,
                            ) || (q@.len() == 1 && forall|k2: int|
                                0 <= k2 < adj@[q@[k] as int]@.len() ==> !visited@.contains(
                                    (#[trigger] adj@[q@[k] as int]@[k2]).0,
                                )),
                        old(self).links_listed(adj@, rooms@),
                        old(self).with_doors(self, doors_put),
                        fin == old(self).join_run(rooms@, join_start()),
                        old(self).join_run(rooms@, (start + 1, visited@, q@, -1, 0, placed@, doors_put)) == fin,
                        root.len() == n,
                        forall|v: usize| v < n && !visited@.contains(v) ==> root[v as int] == v,
                        forall|v: usize|
                            #[trigger] visited@.contains(v) && root[v as int] != start ==> !q@.contains(v)
                                && closed(adj@, visited@, v as int) && same_root(adj@, root, v as int),
                        forall|v: usize|
                            #[trigger] visited@.contains(v) && !q@.contains(v) ==> same_root(
                                adj@,
                                root,
                                v as int,
                            ),
                        starts.finite(),
                        forall|r: int| #[trigger] starts.contains(r) ==> 0 <= r <= start,
                        doors.len() + starts.len() + unvisited(visited@, n as int) <= n,
                        forall|r: int|
                            0 <= r <= start && #[trigger] old(self).first_of_group(rooms@, r) ==> starts.contains(r),
                        forall|v: usize|
                            #[trigger] visited@.contains(v) ==> root[v as int] <= start && old(
                                self,
                            ).link_reach(rooms@, root[v as int], v as int),
                        forall|k: int| 0 <= k < q@.len() ==> root[(#[trigger] q@[k]) as int] == start,
                        walled_all ==> forall|v: usize|
                            #[trigger] visited@.contains(v) ==> self.reachable(rooms@, root[v as int], v as int),
                        walled_all == (forall|w: int| 0 <= w < n ==> old(self).outline_walled(#[trigger] rooms@[w].rect)),
                    ensures
                        q@.len() == 0,
                    decreases unvisited(visited@, n as int), q@.len(),
                {
                    let ghost q_before = q@;
                    let u = match q.pop_front() {
                        Some(u) => u,
                        None => {
                            break;
                        },
                    };
                    proof {
                        assert(q_before[0] == u);
                        assert forall|k: int| 0 <= k < q@.len() implies q@[k] != u by {
                            assert(q@[k] == q_before[k + 1]);
                        }
                        assert forall|x: usize| q_before.contains(x) implies x == u || q@.contains(x) by {
                            let k = choose|k: int| 0 <= k < q_before.len() && q_before[k] == x;
                            if k > 0 {
                                assert(q@[k - 1] == x);
                            }
                        }
                    }
                    proof {
                        let sh = (start + 1, visited@, q_before, -1int, 0int, placed@, doors_put);
                        assert(!old(self).join_over(rooms@, sh));
                        assert(q@ =~= q_before.drop_first());
                        let sp = (start + 1, visited@, q@, u as int, 0int, placed@, doors_put);
                        assert(old(self).join_step(rooms@, sh) == sp);
                        assert(forall|kk: int| 0 <= kk < adj@[u as int]@.len() ==> old(self).link_ok(rooms@, u as int, #[trigger] adj@[u as int]@[kk]));
                        assert forall|j: int| 0 <= j < link_at(adj@, u as int, 0, n as int) implies !#[trigger] old(self).linked(rooms@, u as int, j) by {
                            lemma_no_link_between(*old(self), adj@, rooms@, u as int, 0, j);
                        }
                        lemma_join_skip(*old(self), rooms@, sp, link_at(adj@, u as int, 0, n as int));
                    }
                    let ghost vis_pop = visited@;
                    let ghost u0 = unvisited(visited@, n as int);
                    let ghost q0 = q@.len();
                    let ghost first = q_before.len() == 1;
                    let mut k: usize = 0;
                    // adj[u] is in increasing room order (shown while it was
                    // built), the order in which the neighbours are taken.
                    while k < adj[u].len()
                        invariant
                            n == rooms@.len(),
                            u < n,
                            old(self).wf(),
                            old(self).doors_added(self),
                            doors.finite(),
                            forall|c: int, r: int|
                                #[trigger] within(self.width, self.height, c, r) && self.tile(c, r) != old(
                                    self,
                                ).tile(c, r) ==> doors.contains((c, r)) && old(self).between_linked(rooms@, c, r),
                            doors.len() + unvisited(visited@, n as int) + 1 <= n,
                            rooms_inside(rooms@, self.width as int, self.height as int),
                            adj@.len() == n,
                            forall|uu: int, kk: int|
                                0 <= uu < n && 0 <= kk < adj@[uu]@.len() ==> old(self).link_ok(
                                    rooms@,
                                    uu,
                                    #[trigger] adj@[uu]@[kk],
                                ),
                            forall|uu: int, kk: int|
                                0 <= uu < n && 0 <= kk < adj@[uu]@.len() ==> adj_has(
                                    adj@,
                                    (#[trigger] adj@[uu]@[kk]).0 as int,
                                    uu,
                                ),
                            forall|v: usize| visited@.contains(v) ==> v < n,
                            forall|kk: int| 0 <= kk < q@.len() ==> #[trigger] q@[kk] < n,
                            unvisited(visited@, n as int) + q@.len() == u0 + q0,
                            unvisited(visited@, n as int) <= u0,
                            visited@.contains(u),
                            forall|x: usize| #[trigger] vis_pop.contains(x) ==> visited@.contains(x),
                            forall|kk: int| 0 <= kk < q@.len() ==> visited@.contains(#[trigger] q@[kk]),
                            q@.no_duplicates(),
                            !q@.contains(u),
                            forall|v: usize|
                                #[trigger] visited@.contains(v) && !q@.contains(v) && v != u ==> closed(
                                    adj@,
                                    visited@,
                                    v as int,
                                ),
                            forall|kk: int|
                                0 <= kk < k ==> visited@.contains((#[trigger] adj@[u as int]@[kk]).0),
                            forall|v: usize|
                                #[trigger] visited@.contains(v) && !q@.contains(v) && v != u
                                    && adj@[v as int]@.len() > 0 ==> self.entered(
                                    old(self),
                                    rooms@[v as int].rect,
                                ),
                            forall|kk: int|
                                0 <= kk < q@.len() ==> self.entered(
                                    old(self),
                                    rooms@[(#[trigger] q@[kk]) as int].rect,
                                ),
                            self.entered(old(self), rooms@[u as int].rect) || (k == 0 && forall|
                                k2: int,
                            |
                                0 <= k2 < adj@[u as int]@.len() ==> !visited@.contains(
                                    (#[trigger] adj@[u as int]@[k2]).0,
                                )),
                            old(self).links_listed(adj@, rooms@),
                            old(self).with_doors(self, doors_put),
                            fin == old(self).join_run(rooms@, join_start()),
                            old(self).join_run(rooms@, (start + 1, visited@, q@, u as int, link_at(adj@, u as int, k as int, n as int), placed@, doors_put)) == fin,
                            k > 0 ==> adj@[u as int]@[k - 1].0 < link_at(adj@, u as int, k as int, n as int),
                            root.len() == n,
                            forall|v: usize| v < n && !visited@.contains(v) ==> root[v as int] == v,
                            forall|v: usize|
                                #[trigger] visited@.contains(v) && root[v as int] != start ==> !q@.contains(
                                    v,
                                ) && v != u && closed(adj@, visited@, v as int) && same_root(
                                    adj@,
                                    root,
                                    v as int,
                                ),
                            forall|v: usize|
                                #[trigger] visited@.contains(v) && !q@.contains(v) && v != u ==> same_root(
                                    adj@,
                                    root,
                                    v as int,
                                ),
                            starts.finite(),
                            forall|r: int| #[trigger] starts.contains(r) ==> 0 <= r <= start,
                            doors.len() + starts.len() + unvisited(visited@, n as int) <= n,
                            forall|r: int|
                                0 <= r <= start && #[trigger] old(self).first_of_group(rooms@, r)
                                    ==> starts.contains(r),
                            forall|v: usize|
                                #[trigger] visited@.contains(v) ==> root[v as int] <= start && old(
                                    self,
                                ).link_reach(rooms@, root[v as int], v as int),
                            forall|v: usize| v < start ==> #[trigger] visited@.contains(v),
                            forall|kk: int| 0 <= kk < q@.len() ==> root[(#[trigger] q@[kk]) as int] == start,
                            root[u as int] == start,
                            forall|kk: int|
                                0 <= kk < k ==> root[(#[trigger] adj@[u as int]@[kk]).0 as int] == root[u as int],
                            walled_all ==> forall|v: usize|
                                #[trigger] visited@.contains(v) ==> self.reachable(rooms@, root[v as int], v as int),
                            walled_all == (forall|w: int| 0 <= w < n ==> old(self).outline_walled(#[trigger] rooms@[w].rect)),
                        decreases adj@[u as int]@.len() - k,
                    {
                        let (v, (px, py, vert)) = adj[u][k];
                        let ghost kk0 = k as int;
                        assert(old(self).link_ok(rooms@, u as int, adj@[u as int]@[kk0]));
                        k += 1;
                        if visited.contains(&v) {
                            proof {
                                if root[v as int] != start {
                                    assert(adj@[u as int]@[kk0].0 == v);
                                    assert(adj_has(adj@, (adj@[u as int]@[kk0]).0 as int, u as int));
                                    assert(adj_has(adj@, v as int, u as int));
                                    let k2 = choose|k2: int|
                                        0 <= k2 < adj@[v as int]@.len() && #[trigger] adj@[v as int]@[k2].0
                                            == u;
                                    assert(same_root(adj@, root, v as int));
                                    assert(root[adj@[v as int]@[k2].0 as int] == root[v as int]);
                                }
                                let sv = (start + 1, visited@, q@, u as int, v as int, placed@, doors_put);
                                assert(!old(self).join_over(rooms@, sv));
                                let sn = (start + 1, visited@, q@, u as int, v + 1, placed@, doors_put);
                                assert(old(self).join_step(rooms@, sv) == sn);
                                lemma_join_advance(*old(self), adj@, rooms@, sn, k as int);
                            }
                            continue;
                        }
                        let ghost vis0 = visited@;
                        let ghost qq0 = q@;
                        let ghost before = *self;
                        assert(rooms@[u as int].rect == rooms[u as int].rect);
                        proof {
                            old(self).lemma_doors_added_doorway(self, px as int, py as int);
                        }
                        let ghost placed0 = placed@;
                        let ghost dp0 = doors_put;
                        let d = self.link_room(&rooms[u].rect, &rooms[v].rect, &mut placed, (px, py, vert));
                        proof {
                            assert(old(self).same_floor(&before)) by {
                                assert forall|c: int, r: int| #[trigger] within(old(self).width, old(self).height, c, r) implies (old(self).tile(c, r) == TILE_FLOOR
                                    <==> before.tile(c, r) == TILE_FLOOR) by {
                                    assert(within(before.width, before.height, c, r));
                                }
                            }
                            assert(rooms_inside(rooms@, old(self).width as int, old(self).height as int));
                            assert(rect_inside(rooms@[u as int].rect, old(self).width as int, old(self).height as int));
                            assert(rect_inside(rooms@[v as int].rect, old(self).width as int, old(self).height as int));
                            lemma_door_spot_same(*old(self), before, rooms@[u as int].rect, rooms@[v as int].rect, placed0, MIN_DOOR_SPACING as int);
                            assert(adj@[u as int]@[kk0].1 == (px, py, vert));
                            assert(old(self).pair_spot(rooms@, u as int, v as int) == (px, py, vert));
                            assert(d == old(self).door_choice(rooms@[u as int].rect, rooms@[v as int].rect, placed0, old(self).pair_spot(rooms@, u as int, v as int)));
                            doors_put = doors_put.push(d);
                            assert(old(self).with_doors(self, doors_put)) by {
                                assert forall|c: int, r: int| #[trigger] within(self.width, self.height, c, r) implies self.tile(c, r) == if old(self).tile(c, r) == TILE_WALL && door_listed(doors_put, c, r) {
                                    TILE_DOOR
                                } else {
                                    old(self).tile(c, r)
                                } by {
                                    assert(within(before.width, before.height, c, r));
                                    if c == d.0 && r == d.1 {
                                        assert(doors_put[dp0.len() as int] == d);
                                    } else {
                                        if door_listed(doors_put, c, r) {
                                            let i = choose|i: int| 0 <= i < doors_put.len() && doors_put[i].0 == c && doors_put[i].1 == r;
                                            assert(i < dp0.len());
                                            assert(dp0[i] == doors_put[i]);
                                        }
                                        if door_listed(dp0, c, r) {
                                            let i = choose|i: int| 0 <= i < dp0.len() && dp0[i].0 == c && dp0[i].1 == r;
                                            assert(doors_put[i] == dp0[i]);
                                        }
                                    }
                                }
                            }
                        }
                        proof {
                            old(self).lemma_doors_added_trans(&before, self);
                            self.lemma_link_entered(old(self), &before, rooms@, u as int, v as int, d.0 as int, d.1 as int);
                            let pt = (d.0 as int, d.1 as int);
                            let d0 = doors;
                            doors = doors.insert(pt);
                            assert(doors.len() <= d0.len() + 1) by {
                                if d0.contains(pt) {
                                    assert(doors =~= d0);
                                }
                            }
                            assert(old(self).between_linked(rooms@, d.0 as int, d.1 as int)) by {
                                assert(old(self).link_ok(rooms@, u as int, adj@[u as int]@[kk0]));
                                assert(on_rect_border(rooms@[u as int].rect, d.0 as int, d.1 as int));
                                assert(on_rect_border(rooms@[v as int].rect, d.0 as int, d.1 as int));
                            }
                            assert forall|c: int, r: int|
                                #[trigger] within(self.width, self.height, c, r) && self.tile(c, r)
                                    != old(self).tile(c, r) implies doors.contains((c, r))
                                && old(self).between_linked(rooms@, c, r) by {
                                assert(within(before.width, before.height, c, r));
                                if !(c == d.0 && r == d.1) {
                                    assert(self.tile(c, r) == before.tile(c, r));
                                    assert(d0.contains((c, r)));
                                }
                            }
                        }
                        proof {
                            lemma_unvisited_insert(visited@, n as int, v);
                        }
                        visited.insert(v);
                        q.push_back(v);
                        proof {
                            lemma_bfs_visit(adj@, vis0, visited@, qq0, q@, u, v);
                            let sv = (start + 1, vis0, qq0, u as int, v as int, placed0, dp0);
                            assert(!old(self).join_over(rooms@, sv));
                            assert(old(self).linked(rooms@, u as int, v as int));
                            let sn = (start + 1, visited@, q@, u as int, v + 1, placed@, doors_put);
                            assert(old(self).join_step(rooms@, sv) == sn);
                            lemma_join_advance(*old(self), adj@, rooms@, sn, k as int);
                            let r0 = root;
                            root = root.update(v as int, r0[u as int]);
                            assert(old(self).link_ok(rooms@, u as int, adj@[u as int]@[kk0]));
                            assert(old(self).linked(rooms@, u as int, v as int));
                            assert(vis0.contains(u));
                            lemma_link_step(*old(self), rooms@, r0[u as int], u as int, v as int);
                            assert forall|w: usize| #[trigger] visited@.contains(w) implies root[w as int] <= start
                                && old(self).link_reach(rooms@, root[w as int], w as int) by {
                                if w != v {
                                    assert(vis0.contains(w));
                                }
                            }
                            assert forall|w: usize|
                                #[trigger] visited@.contains(w) && !q@.contains(w) && w != u implies same_root(
                                adj@,
                                root,
                                w as int,
                            ) by {
                                assert(vis0.contains(w) && !qq0.contains(w));
                                assert(same_root(adj@, r0, w as int));
                                assert(closed(adj@, vis0, w as int));
                                assert forall|k3: int| 0 <= k3 < adj@[w as int]@.len() implies root[(
                                #[trigger] adj@[w as int]@[k3]).0 as int] == root[w as int] by {
                                    assert(vis0.contains(adj@[w as int]@[k3].0));
                                }
                            }
                            assert forall|w: usize|
                                #[trigger] visited@.contains(w) && root[w as int] != start implies !q@.contains(w)
                                && w != u && closed(adj@, visited@, w as int) && same_root(adj@, root, w as int) by {
                                assert(w != v);
                                assert(vis0.contains(w));
                                assert(r0[w as int] != start);
                                assert(!qq0.contains(w));
                                assert(closed(adj@, vis0, w as int));
                                assert forall|k3: int| 0 <= k3 < adj@[w as int]@.len() implies visited@.contains(
                                    (#[trigger] adj@[w as int]@[k3]).0) by {
                                    assert(vis0.contains(adj@[w as int]@[k3].0));
                                }
                                assert forall|k3: int| 0 <= k3 < adj@[w as int]@.len() implies root[(
                                #[trigger] adj@[w as int]@[k3]).0 as int] == root[w as int] by {
                                    assert(vis0.contains(adj@[w as int]@[k3].0));
                                }
                            }
                            assert forall|kk: int| 0 <= kk < q@.len() implies root[(#[trigger] q@[kk]) as int]
                                == start by {
                                if kk < qq0.len() {
                                    assert(q@[kk] == qq0[kk]);
                                    assert(visited@.contains(q@[kk]));
                                }
                            }
                            if walled_all {
                                assert(before.keeps_doors(self)) by {
                                    assert forall|c: int, rr: int|
                                        #[trigger] within(before.width, before.height, c, rr) && before.tile(c, rr)
                                            == TILE_DOOR implies self.tile(c, rr) == TILE_DOOR by {
                                        assert(within(self.width, self.height, c, rr));
                                    }
                                }
                                assert(within(self.width, self.height, d.0 as int, d.1 as int));
                                assert(old(self).outline_walled(rooms@[u as int].rect));
                                assert(within(old(self).width, old(self).height, d.0 as int, d.1 as int));
                                assert(within(before.width, before.height, d.0 as int, d.1 as int));
                                assert(self.tile(d.0 as int, d.1 as int) == TILE_DOOR);
                                assert(self.door_between(rooms@, u as int, v as int));
                                assert forall|w: usize| #[trigger] visited@.contains(w) implies self.reachable(
                                    rooms@,
                                    root[w as int],
                                    w as int,
                                ) by {
                                    if w == v {
                                        assert(vis0.contains(u));
                                        lemma_reach_kept(before, *self, rooms@, r0[u as int], u as int);
                                        lemma_reach_step(*self, rooms@, r0[u as int], u as int, v as int);
                                    } else {
                                        assert(vis0.contains(w));
                                        lemma_reach_kept(before, *self, rooms@, r0[w as int], w as int);
                                    }
                                }
                            }
                        }
                    }
                    proof {
                        assert forall|v: usize| v <= start implies #[trigger] visited@.contains(v) by {
                            assert(vis_pop.contains(v));
                        }
                        let se = (start + 1, visited@, q@, u as int, n as int, placed@, doors_put);
                        assert(!old(self).join_over(rooms@, se));
                        assert(old(self).join_step(rooms@, se) == (start + 1, visited@, q@, -1int, 0int, placed@, doors_put));
                    }
                }
                proof {
                    assert(q@ =~= Seq::<usize>::empty());
                }
            }
        }
        proof {
            assert forall|v: int|
                0 <= v < rooms@.len() && #[trigger] old(self).has_link(rooms@, v)
                    && old(self).outline_walled(rooms@[v].rect) implies self.door_on(
                rooms@[v].rect,
            ) by {
                let u = choose|u: int|
                    0 <= u < rooms@.len() && #[trigger] old(self).linked(rooms@, u, v);
                if u < v {
                    assert(adj_has(adj@, v, u));
                } else {
                    assert(adj_has(adj@, v, u));
                }
                assert(visited@.contains(v as usize));
            }
            assert(old(self).changes_within(self, doors));
            let se = (n as int, visited@, Seq::<usize>::empty(), -1int, 0int, placed@, doors_put);
            assert(old(self).join_over(rooms@, se));
            assert(fin == se);
            assert(old(self).joining_doors(rooms@) == doors_put);
            if walled_all {
                assert forall|u: int, v: int|
                    0 <= u < rooms@.len() && 0 <= v < rooms@.len() && #[trigger] old(self).linked(
                        rooms@,
                        u,
                        v,
                    ) implies self.reachable(rooms@, u, v) by {
                    if u < v {
                        assert(adj_has(adj@, v, u));
                    } else {
                        assert(adj_has(adj@, v, u));
                    }
                    let k2 = choose|k2: int| 0 <= k2 < adj@[v]@.len() && #[trigger] adj@[v]@[k2].0 == u;
                    assert(visited@.contains(v as usize));
                    assert(visited@.contains(u as usize));
                    assert(same_root(adj@, root, v));
                    assert(root[adj@[v]@[k2].0 as int] == root[v]);
                    assert(self.reachable(rooms@, root[u], u));
                    assert(self.reachable(rooms@, root[v], v));
                    lemma_reach_sym(*self, rooms@, root[u], u);
                    lemma_reach_trans(*self, rooms@, u, root[u], v);
                }
            }
        }
    }
}

// ---------------------------------------------------------------------------
// Entrance and hub
// ---------------------------------------------------------------------------

/// The entry of the list of placed doors for a door at `d`: whether its wall
/// line is vertical, the line, and the offset along it.
pub open spec fn placed_entry(d: (usize, usize, bool)) -> (bool, usize, usize) {
    if d.2 {
        (true, d.0, d.1)
    } else {
        (false, d.1, d.0)
    }
}

/// `(x, y)` lies in some rectangle of the footprint.
pub open spec fn in_footprint(fp: Seq<Rect>, x: int, y: int) -> bool {
    exists|i: int| 0 <= i < fp.len() && in_rect(fp[i], x, y)
}

/// The list holds the position `(x, y)`.
pub open spec fn holds_pos(s: Seq<(usize, usize)>, x: int, y: int) -> bool {
    exists|k: int| 0 <= k < s.len() && s[k].0 == x && s[k].1 == y
}

/// The area of a room.
pub open spec fn area(r: Room) -> int {
    r.rect.w * r.rect.h
}

/// Room `h` is the hub: it has the largest area, and no later room has as much.
pub open spec fn is_hub(rooms: Seq<Room>, h: int) -> bool {
    &&& 0 <= h < rooms.len()
    &&& forall|j: int| 0 <= j < rooms.len() ==> area(#[trigger] rooms[j]) <= area(rooms[h])
    &&& forall|j: int| h < j < rooms.len() ==> area(#[trigger] rooms[j]) < area(rooms[h])
}

impl World {
    /// Column `x` of the top side of `r` (not a corner) is a wall with open
    /// ground outside the footprint above it and floor below it.
    pub open spec fn top_entrance(&self, r: Rect, fp: Seq<Rect>, x: int) -> bool {
        &&& r.x + 1 <= x < r.x + r.w - 1
        &&& r.y > 0
        &&& self.tile(x, r.y as int) == TILE_WALL
        &&& !in_footprint(fp, x, r.y - 1)
        &&& self.tile(x, r.y + 1) == TILE_FLOOR
    }

    /// The same on the bottom side of `r`.
    pub open spec fn bottom_entrance(&self, r: Rect, fp: Seq<Rect>, x: int) -> bool {
        let by = r.y + r.h - 1;
        &&& r.x + 1 <= x < r.x + r.w - 1
        &&& by + 1 < self.height
        &&& self.tile(x, by) == TILE_WALL
        &&& !in_footprint(fp, x, by + 1)
        &&& self.tile(x, by - 1) == TILE_FLOOR
    }

    /// Row `y` of the left side of `r` (not a corner) is a wall with open ground
    /// outside the footprint to its left and floor to its right.
    pub open spec fn left_entrance(&self, r: Rect, fp: Seq<Rect>, y: int) -> bool {
        &&& r.y + 1 <= y < r.y + r.h - 1
        &&& r.x > 0
        &&& self.tile(r.x as int, y) == TILE_WALL
        &&& !in_footprint(fp, r.x - 1, y)
        &&& self.tile(r.x + 1, y) == TILE_FLOOR
    }

    /// The same on the right side of `r`.
    pub open spec fn right_entrance(&self, r: Rect, fp: Seq<Rect>, y: int) -> bool {
        let rx = r.x + r.w - 1;
        &&& r.y + 1 <= y < r.y + r.h - 1
        &&& rx + 1 < self.width
        &&& self.tile(rx, y) == TILE_WALL
        &&& !in_footprint(fp, rx + 1, y)
        &&& self.tile(rx - 1, y) == TILE_FLOOR
    }

    /// `(x, y)` is a spot for the outer entrance on a side of `r`.
    pub open spec fn entrance_on(&self, r: Rect, fp: Seq<Rect>, x: int, y: int) -> bool {
        ||| (y == r.y && self.top_entrance(r, fp, x))
        ||| (y == r.y + r.h - 1 && self.bottom_entrance(r, fp, x))
        ||| (x == r.x && self.left_entrance(r, fp, y))
        ||| (x == r.x + r.w - 1 && self.right_entrance(r, fp, y))
    }

    /// `(x, y)` is a spot for the outer entrance: a wall tile on the side of a
    /// footprint rectangle that leads from floor to ground outside the footprint.
    pub open spec fn entrance_spot(&self, fp: Seq<Rect>, x: int, y: int) -> bool {
        exists|i: int| 0 <= i < fp.len() && #[trigger] self.entrance_on(fp[i], fp, x, y)
    }

    /// `other` is this grid with only the tile at `(x, y)` set to `t`.
    pub open spec fn set_only(&self, other: &World, x: int, y: int, t: char) -> bool {
        &&& self.same_size(other)
        &&& forall|c: int, r: int|
            #[trigger] within(other.width, other.height, c, r) ==> other.tile(c, r) == if c == x
                && r == y {
                t
            } else {
                self.tile(c, r)
            }
    }
}

/// Whether `(x, y)` lies in some rectangle of the footprint.
fn inside_footprint(footprint: &[Rect], x: usize, y: usize) -> (b: bool)
    requires
        forall|i: int|
            0 <= i < footprint@.len() ==> (#[trigger] footprint@[i]).x + footprint@[i].w
                <= usize::MAX && footprint@[i].y + footprint@[i].h <= usize::MAX,
    ensures
        b == in_footprint(footprint@, x as int, y as int),
{
    let mut i: usize = 0;
    while i < footprint.len()
        invariant
            i <= footprint@.len(),
            forall|j: int| 0 <= j < i ==> !in_rect(#[trigger] footprint@[j], x as int, y as int),
            forall|j: int|
                0 <= j < footprint@.len() ==> (#[trigger] footprint@[j]).x + footprint@[j].w
                    <= usize::MAX && footprint@[j].y + footprint@[j].h <= usize::MAX,
        decreases footprint@.len() - i,
    {
        let r = footprint[i];
        if x >= r.x && x < r.x + r.w && y >= r.y && y < r.y + r.h {
            assert(in_rect(footprint@[i as int], x as int, y as int));
            return true;
        }
        i += 1;
    }
    false
}

/// Every rectangle of the footprint lies inside the grid and is at least two
/// tiles across.
pub open spec fn footprint_inside(fp: Seq<Rect>, width: int, height: int) -> bool {
    forall|i: int|
        0 <= i < fp.len() ==> {
            let r = #[trigger] fp[i];
            &&& rect_inside(r, width, height)
            &&& r.w >= 2
            &&& r.h >= 2
        }
}

impl World {
    /// Opens one door, picked at random, in the outer wall of the footprint:
    /// a wall tile on a side of a footprint rectangle (not a corner) with floor
    /// inside and ground outside the footprint. Leaves the grid as it is when
    /// there is no such tile.
    pub fn place_outer_entrance(&mut self, footprint: &[Rect])
        requires
            old(self).wf(),
            footprint_inside(footprint@, old(self).width as int, old(self).height as int),
        ensures
            old(self).same_size(final(self)),
            (exists|x: int, y: int| old(self).entrance_spot(footprint@, x, y)) ==> exists|
                x: int,
                y: int,
            |
                old(self).entrance_spot(footprint@, x, y) && #[trigger] old(self).set_only(
                    final(self),
                    x,
                    y,
                    TILE_DOOR,
                ),
            !(exists|x: int, y: int| old(self).entrance_spot(footprint@, x, y)) ==> *final(self)
                == *old(self),
    {
        let ghost fp = footprint@;
        let mut cands: Vec<(usize, usize)> = Vec::new();
        let mut i: usize = 0;
        while i < footprint.len()
            invariant
                *self == *old(self),
                self.wf(),
                fp == footprint@,
                footprint_inside(fp, self.width as int, self.height as int),
                i <= fp.len(),
                forall|k: int|
                    0 <= k < cands@.len() ==> self.entrance_spot(
                        fp,
                        (#[trigger] cands@[k]).0 as int,
                        cands@[k].1 as int,
                    ),
                forall|j: int, x: int, y: int|
                    0 <= j < i && #[trigger] self.entrance_on(fp[j], fp, x, y) ==> holds_pos(
                        cands@,
                        x,
                        y,
                    ),
            decreases fp.len() - i,
        {
            let r = footprint[i];
            assert(fp[i as int] == r);
            let ghost c0 = cands@;
            for x in r.x + 1..r.x + r.w - 1
                invariant
                    *self == *old(self),
                    self.wf(),
                    fp == footprint@,
                    footprint_inside(fp, self.width as int, self.height as int),
                    i < fp.len(),
                    r == fp[i as int],
                    forall|k: int|
                        0 <= k < cands@.len() ==> self.entrance_spot(
                            fp,
                            (#[trigger] cands@[k]).0 as int,
                            cands@[k].1 as int,
                        ),
                    forall|k: int| 0 <= k < c0.len() ==> cands@[k] == c0[k],
                    c0.len() <= cands@.len(),
                    forall|xx: int|
                        r.x + 1 <= xx < x && #[trigger] self.top_entrance(r, fp, xx) ==> holds_pos(
                            cands@,
                            xx,
                            r.y as int,
                        ),
                    forall|xx: int|
                        r.x + 1 <= xx < x && #[trigger] self.bottom_entrance(r, fp, xx)
                            ==> holds_pos(cands@, xx, r.y + r.h - 1),
            {
                let ghost pc = cands@;
                if r.y > 0 && self.map[r.y][x] == TILE_WALL && !inside_footprint(
                    footprint,
                    x,
                    r.y - 1,
                ) && self.map[r.y + 1][x] == TILE_FLOOR {
                    assert(self.entrance_on(fp[i as int], fp, x as int, r.y as int));
                    cands.push((x, r.y));
                    assert(cands@[cands@.len() - 1] == (x, r.y));
                }
                let ghost p1 = cands@;
                proof {
                    lemma_holds_prefix(pc, p1);
                }
                let by = r.y + r.h - 1;
                if by + 1 < self.height && self.map[by][x] == TILE_WALL && !inside_footprint(
                    footprint,
                    x,
                    by + 1,
                ) && self.map[by - 1][x] == TILE_FLOOR {
                    assert(self.entrance_on(fp[i as int], fp, x as int, by as int));
                    cands.push((x, by));
                    assert(cands@[cands@.len() - 1] == (x, by));
                }
                proof {
                    lemma_holds_prefix(p1, cands@);
                    assert(self.top_entrance(r, fp, x as int) ==> holds_pos(p1, x as int, r.y as int));
                    assert(self.bottom_entrance(r, fp, x as int) ==> holds_pos(cands@, x as int, by as int));
                }
            }
            let ghost c1 = cands@;
            for y in r.y + 1..r.y + r.h - 1
                invariant
                    *self == *old(self),
                    self.wf(),
                    fp == footprint@,
                    footprint_inside(fp, self.width as int, self.height as int),
                    i < fp.len(),
                    r == fp[i as int],
                    forall|k: int|
                        0 <= k < cands@.len() ==> self.entrance_spot(
                            fp,
                            (#[trigger] cands@[k]).0 as int,
                            cands@[k].1 as int,
                        ),
                    forall|k: int| 0 <= k < c1.len() ==> cands@[k] == c1[k],
                    c1.len() <= cands@.len(),
                    forall|yy: int|
                        r.y + 1 <= yy < y && #[trigger] self.left_entrance(r, fp, yy) ==> holds_pos(
                            cands@,
                            r.x as int,
                            yy,
                        ),
                    forall|yy: int|
                        r.y + 1 <= yy < y && #[trigger] self.right_entrance(r, fp, yy)
                            ==> holds_pos(cands@, r.x + r.w - 1, yy),
            {
                let ghost pc = cands@;
                if r.x > 0 && self.map[y][r.x] == TILE_WALL && !inside_footprint(
                    footprint,
                    r.x - 1,
                    y,
                ) && self.map[y][r.x + 1] == TILE_FLOOR {
                    assert(self.entrance_on(fp[i as int], fp, r.x as int, y as int));
                    cands.push((r.x, y));
                    assert(cands@[cands@.len() - 1] == (r.x, y));
                }
                let ghost p1 = cands@;
                proof {
                    lemma_holds_prefix(pc, p1);
                }
                let rx = r.x + r.w - 1;
                if rx + 1 < self.width && self.map[y][rx] == TILE_WALL && !inside_footprint(
                    footprint,
                    rx + 1,
                    y,
                ) && self.map[y][rx - 1] == TILE_FLOOR {
                    assert(self.entrance_on(fp[i as int], fp, rx as int, y as int));
                    cands.push((rx, y));
                    assert(cands@[cands@.len() - 1] == (rx, y));
                }
                proof {
                    lemma_holds_prefix(p1, cands@);
                    assert(self.left_entrance(r, fp, y as int) ==> holds_pos(p1, r.x as int, y as int));
                    assert(self.right_entrance(r, fp, y as int) ==> holds_pos(cands@, rx as int, y as int));
                }
            }
            i += 1;
        }
        if cands.len() == 0 {
            proof {
                assert forall|x: int, y: int| !old(self).entrance_spot(fp, x, y) by {
                    if old(self).entrance_spot(fp, x, y) {
                        let j = choose|j: int| 0 <= j < fp.len() && #[trigger] old(self).entrance_on(fp[j], fp, x, y);
                        assert(holds_pos(cands@, x, y));
                    }
                }
            }
            return;
        }
        let idx = pick_index(cands.len(), random_usize());
        let (x, y) = cands[idx];
        assert(self.entrance_spot(fp, x as int, y as int));
        proof {
            let j = choose|j: int| 0 <= j < fp.len() && #[trigger] self.entrance_on(fp[j], fp, x as int, y as int);
            assert(rect_inside(fp[j], self.width as int, self.height as int));
        }
        self.map[y][x] = TILE_DOOR;
        assert(old(self).set_only(self, x as int, y as int, TILE_DOOR));
    }
}

impl World {
    /// Marks the centre of the hub, the room of largest area (the last such room
    /// on a tie), with `TILE_HUB`; nothing happens without rooms or when the
    /// centre lies off the grid.
    pub fn place_hub(&mut self, rooms: &[Room])
        requires
            old(self).wf(),
            forall|i: int|
                0 <= i < rooms@.len() ==> {
                    let r = (#[trigger] rooms@[i]).rect;
                    &&& r.w * r.h <= usize::MAX
                    &&& r.x + r.w <= usize::MAX
                    &&& r.y + r.h <= usize::MAX
                },
        ensures
            rooms@.len() == 0 ==> *final(self) == *old(self),
            rooms@.len() > 0 ==> exists|h: int| is_hub(rooms@, h),
            forall|h: int|
                #[trigger] is_hub(rooms@, h) ==> {
                    let r = rooms@[h].rect;
                    let cx = r.x + r.w / 2;
                    let cy = r.y + r.h / 2;
                    &&& old(self).same_size(final(self))
                    &&& forall|c: int, rr: int|
                        #[trigger] within(final(self).width, final(self).height, c, rr) ==> final(self).tile(c, rr) == if c == cx && rr == cy {
                            TILE_HUB
                        } else {
                            old(self).tile(c, rr)
                        }
                },
    {
        if rooms.len() == 0 {
            return;
        }
        let mut best: usize = 0;
        let mut best_area: usize = rooms[0].rect.w * rooms[0].rect.h;
        let mut i: usize = 1;
        while i < rooms.len()
            invariant
                1 <= i <= rooms@.len(),
                best < i,
                best_area == area(rooms@[best as int]),
                forall|j: int|
                    0 <= j < rooms@.len() ==> {
                        let r = (#[trigger] rooms@[j]).rect;
                        &&& r.w * r.h <= usize::MAX
                        &&& r.x + r.w <= usize::MAX
                        &&& r.y + r.h <= usize::MAX
                    },
                forall|j: int| 0 <= j < i ==> area(#[trigger] rooms@[j]) <= best_area,
                forall|j: int| best < j < i ==> area(#[trigger] rooms@[j]) < best_area,
            decreases rooms@.len() - i,
        {
            let a = rooms[i].rect.w * rooms[i].rect.h;
            if a >= best_area {
                best = i;
                best_area = a;
            }
            i += 1;
        }
        assert(is_hub(rooms@, best as int));
        let hub = &rooms[best];
        let cx = hub.rect.x + hub.rect.w / 2;
        let cy = hub.rect.y + hub.rect.h / 2;
        self.safe_set_tile(cx, cy, TILE_HUB);
        proof {
            assert forall|h: int| #[trigger] is_hub(rooms@, h) implies h == best as int by {
                if h < best {
                    assert(area(rooms@[best as int]) < area(rooms@[h]));
                } else if h > best {
                    assert(area(rooms@[h]) < area(rooms@[best as int]));
                }
            }
        }
    }
}

/// Two different places out of `len`, from two random draws: the first is
/// `r1 % len`; the second is `r2 % (len - 1)`, moved one place up when it is
/// not below the first, so that it skips the first.
pub fn pick_two(len: usize, r1: usize, r2: usize) -> (p: (usize, usize))
    requires
        len >= 2,
    ensures
        p.0 == r1 % len,
        p.1 == if (r2 as int) % (len - 1) >= p.0 {
            (r2 as int) % (len - 1) + 1
        } else {
            (r2 as int) % (len - 1)
        },
        p.0 < len,
        p.1 < len,
        p.0 != p.1,
{
    let i = r1 % len;
    let j = r2 % (len - 1);
    if j >= i {
        (i, j + 1)
    } else {
        (i, j)
    }
}

impl World {
    /// `(x, y)` may hold an exit: a floor tile of the grid outside the footprint.
    pub open spec fn exit_spot(&self, fp: Seq<Rect>, x: int, y: int) -> bool {
        &&& within(self.width, self.height, x, y)
        &&& self.tile(x, y) == TILE_FLOOR
        &&& !in_footprint(fp, x, y)
    }

    /// There are two different places that may hold an exit.
    pub open spec fn two_exit_spots(&self, fp: Seq<Rect>) -> bool {
        exists|ax: int, ay: int, bx: int, by: int|
            #![trigger self.exit_spot(fp, ax, ay), self.exit_spot(fp, bx, by)]
            (ax != bx || ay != by) && self.exit_spot(fp, ax, ay) && self.exit_spot(fp, bx, by)
    }

    /// `other` is this grid with exits at the two different places `(ax, ay)`
    /// and `(bx, by)`, both of them exit spots here, and nothing else changed.
    pub open spec fn exits_at(
        &self,
        other: &World,
        fp: Seq<Rect>,
        ax: int,
        ay: int,
        bx: int,
        by: int,
    ) -> bool {
        &&& ax != bx || ay != by
        &&& self.exit_spot(fp, ax, ay)
        &&& self.exit_spot(fp, bx, by)
        &&& self.same_size(other)
        &&& forall|c: int, r: int|
            #[trigger] within(other.width, other.height, c, r) ==> other.tile(c, r) == if (c == ax
                && r == ay) || (c == bx && r == by) {
                TILE_EXIT
            } else {
                self.tile(c, r)
            }
    }

    /// Places the two exits at random on floor tiles outside the footprint,
    /// two different tiles picked by `pick_two` among all such tiles in
    /// reading order. Leaves the grid as it is when there are fewer than two.
    pub fn place_exits(&mut self, footprint: &[Rect])
        requires
            old(self).wf(),
            footprint_inside(footprint@, old(self).width as int, old(self).height as int),
        ensures
            old(self).two_exit_spots(footprint@) ==> exists|ax: int, ay: int, bx: int, by: int|
                #[trigger] old(self).exits_at(final(self), footprint@, ax, ay, bx, by),
            !old(self).two_exit_spots(footprint@) ==> *final(self) == *old(self),
    {
        let ghost fp = footprint@;
        let mut cands: Vec<(usize, usize)> = Vec::new();
        for y in 0..self.height
            invariant
                *self == *old(self),
                self.wf(),
                fp == footprint@,
                footprint_inside(fp, self.width as int, self.height as int),
                forall|k: int|
                    0 <= k < cands@.len() ==> self.exit_spot(
                        fp,
                        (#[trigger] cands@[k]).0 as int,
                        cands@[k].1 as int,
                    ),
                forall|xx: int, yy: int|
                    yy < y && #[trigger] self.exit_spot(fp, xx, yy) ==> holds_pos(cands@, xx, yy),
                forall|k: int| 0 <= k < cands@.len() ==> (#[trigger] cands@[k]).1 < y,
                forall|k1: int, k2: int|
                    0 <= k1 < k2 < cands@.len() ==> #[trigger] cands@[k1] != #[trigger] cands@[k2],
        {
            for x in 0..self.width
                invariant
                    *self == *old(self),
                    self.wf(),
                    fp == footprint@,
                    footprint_inside(fp, self.width as int, self.height as int),
                    y < self.height,
                    forall|k: int|
                        0 <= k < cands@.len() ==> self.exit_spot(
                            fp,
                            (#[trigger] cands@[k]).0 as int,
                            cands@[k].1 as int,
                        ),
                    forall|xx: int, yy: int|
                        (yy < y || (yy == y && xx < x)) && #[trigger] self.exit_spot(fp, xx, yy)
                            ==> holds_pos(cands@, xx, yy),
                    forall|k: int|
                        0 <= k < cands@.len() ==> (#[trigger] cands@[k]).1 < y || (cands@[k].1 == y
                            && cands@[k].0 < x),
                    forall|k1: int, k2: int|
                        0 <= k1 < k2 < cands@.len() ==> #[trigger] cands@[k1] != #[trigger] cands@[k2],
            {
                let ghost pc = cands@;
                assert(forall|i: int|
                    0 <= i < footprint@.len() ==> (#[trigger] footprint@[i]).x + footprint@[i].w
                        <= usize::MAX && footprint@[i].y + footprint@[i].h <= usize::MAX);
                if self.map[y][x] == TILE_FLOOR && !inside_footprint(footprint, x, y) {
                    cands.push((x, y));
                    assert(cands@[cands@.len() - 1] == (x, y));
                }
                proof {
                    lemma_holds_prefix(pc, cands@);
                }
            }
        }
        if cands.len() < 2 {
            proof {
                if old(self).two_exit_spots(fp) {
                    let (ax, ay, bx, by) = choose|ax: int, ay: int, bx: int, by: int|
                        (ax != bx || ay != by) && #[trigger] old(self).exit_spot(fp, ax, ay)
                            && #[trigger] old(self).exit_spot(fp, bx, by);
                    assert(holds_pos(cands@, ax, ay));
                    assert(holds_pos(cands@, bx, by));
                    let ka = choose|k: int| 0 <= k < cands@.len() && cands@[k].0 == ax && cands@[k].1 == ay;
                    let kb = choose|k: int| 0 <= k < cands@.len() && cands@[k].0 == bx && cands@[k].1 == by;
                    assert(ka != kb);
                }
            }
            return;
        }
        let (i, j) = pick_two(cands.len(), random_usize(), random_usize());
        let (ax, ay) = cands[i];
        let (bx, by) = cands[j];
        assert(self.exit_spot(fp, ax as int, ay as int));
        assert(self.exit_spot(fp, bx as int, by as int));
        proof {
            let t = cands@;
            if ax == bx && ay == by {
                assert(t[i as int] == t[j as int]);
            }
        }
        self.map[ay][ax] = TILE_EXIT;
        self.map[by][bx] = TILE_EXIT;
        assert(old(self).exits_at(self, fp, ax as int, ay as int, bx as int, by as int));
    }
}

/// `(c, r)` lies on the outline of the rectangle `rect`.
pub open spec fn on_rect_border(rect: Rect, c: int, r: int) -> bool {
    on_border(rect.x as int, rect.y as int, rect.w as int, rect.h as int, c, r)
}

/// `(c, r)` lies on the outline of one of the first `n` rectangles of `fp`.
pub open spec fn on_outline(fp: Seq<Rect>, n: int, c: int, r: int) -> bool {
    exists|i: int| 0 <= i < n && i < fp.len() && #[trigger] on_rect_border(fp[i], c, r)
}

/// `a` lies inside `b`.
pub open spec fn rect_within(a: Rect, b: Rect) -> bool {
    b.x <= a.x && a.x + a.w <= b.x + b.w && b.y <= a.y && a.y + a.h <= b.y + b.h
}

/// The rectangle lies inside some rectangle of the footprint.
pub open spec fn in_some_rect(fp: Seq<Rect>, a: Rect) -> bool {
    exists|k: int| 0 <= k < fp.len() && #[trigger] rect_within(a, fp[k])
}

/// The footprint as `gen_footprint` draws it: rectangles at least seven tiles
/// a side, no two sharing more than an outline.
pub open spec fn footprint_shape(fp: Seq<Rect>) -> bool {
    &&& forall|i: int| 0 <= i < fp.len() ==> 7 <= (#[trigger] fp[i]).w && 7 <= fp[i].h
    &&& forall|i: int, j: int| 0 <= i < j < fp.len() ==> !interiors_overlap(fp[i], fp[j])
}

/// The centre of a room at least `MIN_DIM` across lies inside the footprint
/// rectangle holding the room, and on the outline of no footprint rectangle.
proof fn lemma_centre_clear(fp: Seq<Rect>, room: Rect, k: int)
    requires
        footprint_shape(fp),
        0 <= k < fp.len(),
        rect_within(room, fp[k]),
        room.w >= MIN_DIM,
        room.h >= MIN_DIM,
    ensures
        in_footprint(fp, room.x + room.w / 2, room.y + room.h / 2),
        !on_outline(fp, fp.len() as int, room.x + room.w / 2, room.y + room.h / 2),
{
    let cx = room.x + room.w / 2;
    let cy = room.y + room.h / 2;
    assert(in_rect(fp[k], cx, cy));
    assert forall|j: int| 0 <= j < fp.len() implies !#[trigger] on_rect_border(fp[j], cx, cy) by {
        if j != k && in_rect(fp[j], cx, cy) {
            if j < k {
                assert(!interiors_overlap(fp[j], fp[k]));
            } else {
                assert(!interiors_overlap(fp[k], fp[j]));
            }
        }
    }
}

/// `(c, r)` lies on the outline of one of the first `n` rooms.
pub open spec fn on_room_outline(rooms: Seq<Room>, n: int, c: int, r: int) -> bool {
    exists|i: int| 0 <= i < n && i < rooms.len() && #[trigger] on_rect_border(rooms[i].rect, c, r)
}

/// The rooms cut the footprint: each lies inside a footprint rectangle, and
/// every tile of the footprint lies in some room.
pub open spec fn rooms_tile(fp: Seq<Rect>, rooms: Seq<Room>) -> bool {
    &&& forall|i: int| 0 <= i < rooms.len() ==> in_some_rect(fp, #[trigger] rooms[i].rect)
    &&& forall|c: int, r: int| #[trigger] in_footprint(fp, c, r) ==> covered_by(rooms, 0, c, r)
}

/// A footprint that the draws may give on a grid of `width` by `height`: the
/// core's place, the number of wings and 40 tries of wing draws
/// (`footprint_of`).
pub open spec fn footprint_drawn(width: int, height: int, fp: Seq<Rect>) -> bool {
    exists|hx: int, hy: int, td: int, tries: Seq<(usize, usize, usize, usize)>|
        #[trigger] footprint_of(width, height, hx, hy, td, tries) == fp && tries.len() == 40
}

/// No wing fits beside the core at `(5, 5)` on the standard grid: trying
/// wings leaves the core alone.
proof fn lemma_no_wing_on_standard_core(target: int, placed: int, tries: Seq<(usize, usize, usize, usize)>)
    ensures
        grow_wings(
            seq![Rect { x: 5, y: 5, w: 10, h: 10 }],
            MAP_WIDTH as int,
            MAP_HEIGHT as int,
            target,
            placed,
            tries,
        ) == seq![Rect { x: 5, y: 5, w: 10, h: 10 }],
    decreases tries.len(),
{
    let core = seq![Rect { x: 5, y: 5, w: 10, h: 10 }];
    if tries.len() > 0 && placed < target {
        let t = tries[0];
        let pick = t.0 as int;
        assert(pick % 1 == 0);
        assert(core[pick % (core.len() as int)] == core[0]);
        let ew = 7 + t.2 as int % 4;
        let eh = 7 + t.3 as int % 4;
        assert(7 <= ew <= 10 && 7 <= eh <= 10);
        assert(wing_for_draws(core, MAP_WIDTH as int, MAP_HEIGHT as int, pick, t.1 as int, t.2 as int, t.3 as int) is None);
        lemma_no_wing_on_standard_core(target, placed, tries.drop_first());
    }
}

/// On the standard grid every footprint that the draws may give is the 10 by
/// 10 core at `(5, 5)` alone: no wing fits there.
pub proof fn lemma_standard_footprint_is_core(fp: Seq<Rect>)
    requires
        footprint_drawn(MAP_WIDTH as int, MAP_HEIGHT as int, fp),
    ensures
        fp == seq![Rect { x: 5, y: 5, w: 10, h: 10 }],
{
    let (hx, hy, td, tries) = choose|hx: int, hy: int, td: int, tries: Seq<(usize, usize, usize, usize)>|
        #[trigger] footprint_of(MAP_WIDTH as int, MAP_HEIGHT as int, hx, hy, td, tries) == fp
            && tries.len() == 40;
    assert(core_span(MAP_WIDTH as int) == 1);
    assert(hx % 1 == 0 && hy % 1 == 0);
    assert(seq![Rect { x: (5 + hx % core_span(MAP_WIDTH as int)) as usize, y: (5 + hy % core_span(MAP_HEIGHT as int)) as usize, w: 10, h: 10 }]
        == seq![Rect { x: 5, y: 5, w: 10, h: 10 }]);
    lemma_no_wing_on_standard_core(1 + td % 3, 0, tries);
}

/// The rooms of `part` from place `lo` on are cut from the rectangle `r` as
/// `recursive_slice` cuts: each lies inside `r`, is `MIN_DIM` to
/// `2 * MIN_DIM - 2` tiles a side and numbered by its place; their interiors do
/// not overlap, together they cover `r`, and they share their outlines.
pub open spec fn cut_into(r: Rect, part: Seq<Room>, lo: int) -> bool {
    &&& 0 <= lo < part.len()
    &&& forall|i: int|
        lo <= i < part.len() ==> {
            let q = (#[trigger] part[i]).rect;
            &&& r.x <= q.x
            &&& q.x + q.w <= r.x + r.w
            &&& r.y <= q.y
            &&& q.y + q.h <= r.y + r.h
            &&& MIN_DIM <= q.w < MIN_DIM * 2 - 1
            &&& MIN_DIM <= q.h < MIN_DIM * 2 - 1
            &&& part[i].id == i
        }
    &&& forall|i: int, j: int|
        lo <= i < j < part.len() ==> !interiors_overlap(part[i].rect, part[j].rect)
    &&& forall|px: int, py: int| #[trigger] in_rect(r, px, py) ==> covered_by(part, lo, px, py)
    &&& walls_shared(part, lo, r.x as int, r.y as int, r.w as int, r.h as int)
}

/// Footprint rectangle `k` was cut into the rooms from place `b[k]` to place
/// `b[k + 1]` of `rooms`, which came after those of the rectangles before it.
pub open spec fn cut_at(fp: Seq<Rect>, rooms: Seq<Room>, b: Seq<int>, k: int) -> bool {
    &&& 0 <= b[k] < b[k + 1] <= rooms.len()
    &&& cut_into(fp[k], rooms.subrange(0, b[k + 1]), b[k])
}

/// The rooms are the footprint's rectangles cut in turn, each into a run of
/// rooms that follows the run of the one before.
pub open spec fn sliced_from(fp: Seq<Rect>, rooms: Seq<Room>) -> bool {
    exists|b: Seq<int>|
        {
            &&& b.len() == fp.len() + 1
            &&& b[0] == 0
            &&& b[fp.len() as int] == rooms.len()
            &&& forall|k: int| 0 <= k < fp.len() ==> #[trigger] cut_at(fp, rooms, b, k)
        }
}

/// Cutting one more rectangle keeps the cuts of those before.
proof fn lemma_cuts_grow(fp: Seq<Rect>, before: Seq<Room>, after: Seq<Room>, b: Seq<int>, k: int)
    requires
        0 <= k < fp.len(),
        b.len() == k + 1,
        b[k] == before.len(),
        after.len() > before.len(),
        after.subrange(0, before.len() as int) == before,
        forall|j: int| 0 <= j < k ==> #[trigger] cut_at(fp, before, b, j),
        cut_into(fp[k], after, before.len() as int),
    ensures
        forall|j: int| 0 <= j < k + 1 ==> #[trigger] cut_at(fp, after, b.push(after.len() as int), j),
{
    let nb = b.push(after.len() as int);
    assert forall|j: int| 0 <= j < k + 1 implies #[trigger] cut_at(fp, after, nb, j) by {
        if j < k {
            assert(cut_at(fp, before, b, j));
            assert(nb[j] == b[j] && nb[j + 1] == b[j + 1]);
            let e = b[j + 1];
            assert forall|i: int| 0 <= i < e implies after[i] == before[i] by {
                assert(after.subrange(0, before.len() as int)[i] == after[i]);
            }
            assert(after.subrange(0, e) =~= before.subrange(0, e));
        } else {
            assert(nb[j] == before.len() && nb[j + 1] == after.len());
            assert(after.subrange(0, after.len() as int) =~= after);
        }
    }
}

/// Rectangles inside two rectangles whose interiors do not overlap have
/// interiors that do not overlap either.
proof fn lemma_within_apart(a: Rect, ea: Rect, b: Rect, eb: Rect)
    requires
        rect_within(a, ea),
        rect_within(b, eb),
        !interiors_overlap(ea, eb),
    ensures
        !interiors_overlap(a, b),
{
}

/// The centre of a room at least `MIN_DIM` across lies on the outline of no
/// room whose interior does not overlap it and that is at least `MIN_DIM`
/// across, nor on its own.
proof fn lemma_centre_off_rooms(rooms: Seq<Room>, h: int)
    requires
        0 <= h < rooms.len(),
        forall|i: int|
            0 <= i < rooms.len() ==> (#[trigger] rooms[i]).rect.w >= MIN_DIM && rooms[i].rect.h
                >= MIN_DIM,
        forall|i: int, j: int|
            0 <= i < j < rooms.len() ==> !interiors_overlap(rooms[i].rect, rooms[j].rect),
    ensures
        !on_room_outline(
            rooms,
            rooms.len() as int,
            rooms[h].rect.x + rooms[h].rect.w / 2,
            rooms[h].rect.y + rooms[h].rect.h / 2,
        ),
{
    let hr = rooms[h].rect;
    let cx = hr.x + hr.w / 2;
    let cy = hr.y + hr.h / 2;
    assert forall|v: int| 0 <= v < rooms.len() implies !#[trigger] on_rect_border(rooms[v].rect, cx, cy) by {
        let vr = rooms[v].rect;
        if v != h && on_rect_border(vr, cx, cy) {
            assert(interiors_overlap(hr, vr));
            if h < v {
                assert(!interiors_overlap(rooms[h].rect, rooms[v].rect));
            } else {
                assert(!interiors_overlap(rooms[v].rect, rooms[h].rect));
                assert(interiors_overlap(vr, hr));
            }
        }
    }
}

/// A room of at least `MIN_DIM` a side that holds `(x, y)` on its outline,
/// lies inside a footprint rectangle, and does not reach the tile `(ox, oy)`
/// outside the footprint next to `(x, y)`, has its side through `(x, y)` on the
/// line of `(x, y)`; when the tile `(ix, iy)` on the other side is not on its
/// outline either, `(x, y)` is not at a corner of it.
proof fn lemma_room_at_side(fp: Seq<Rect>, room: Rect, x: int, y: int, ox: int, oy: int, ix: int, iy: int)
    requires
        in_some_rect(fp, room),
        room.w >= MIN_DIM,
        room.h >= MIN_DIM,
        on_rect_border(room, x, y),
        !in_footprint(fp, ox, oy),
        (ox == x && oy == y - 1 && ix == x && iy == y + 1) || (ox == x && oy == y + 1 && ix == x
            && iy == y - 1) || (oy == y && ox == x - 1 && iy == y && ix == x + 1) || (oy == y && ox
            == x + 1 && iy == y && ix == x - 1),
        !on_rect_border(room, ix, iy),
    ensures
        room.x < x < room.x + room.w - 1 || room.y < y < room.y + room.h - 1,
        ox == x ==> room.x < x < room.x + room.w - 1,
        oy == y ==> room.y < y < room.y + room.h - 1,
        oy == y - 1 ==> room.y == y,
        oy == y + 1 ==> room.y + room.h - 1 == y,
        ox == x - 1 ==> room.x == x,
        ox == x + 1 ==> room.x + room.w - 1 == x,
{
    let k = choose|k: int| 0 <= k < fp.len() && #[trigger] rect_within(room, fp[k]);
    if in_rect(room, ox, oy) {
        assert(in_rect(fp[k], ox, oy));
    }
}

/// No tile that the wall plan offers for the outer entrance lies on the
/// outlines of two different rooms: there the rooms would overlap.
proof fn lemma_entrance_not_between(plan: World, fp: Seq<Rect>, rooms: Seq<Room>, x: int, y: int)
    requires
        plan.wall_plan(fp, rooms),
        rooms_tile(fp, rooms),
        forall|i: int|
            0 <= i < rooms.len() ==> (#[trigger] rooms[i]).rect.w >= MIN_DIM && rooms[i].rect.h
                >= MIN_DIM,
        forall|i: int, j: int|
            0 <= i < j < rooms.len() ==> !interiors_overlap(rooms[i].rect, rooms[j].rect),
        footprint_inside(fp, plan.width as int, plan.height as int),
        plan.entrance_spot(fp, x, y),
    ensures
        !between_rooms(rooms, x, y),
{
    let i = choose|i: int| 0 <= i < fp.len() && #[trigger] plan.entrance_on(fp[i], fp, x, y);
    let r = fp[i];
    if between_rooms(rooms, x, y) {
        let (u, v) = choose|u: int, v: int|
            0 <= u < rooms.len() && 0 <= v < rooms.len() && u != v && #[trigger] on_rect_border(
                rooms[u].rect,
                x,
                y,
            ) && #[trigger] on_rect_border(rooms[v].rect, x, y);
        let ru = rooms[u].rect;
        let rv = rooms[v].rect;
        assert(in_some_rect(fp, ru));
        assert(in_some_rect(fp, rv));
        assert(rect_inside(r, plan.width as int, plan.height as int) && r.w >= 2 && r.h >= 2);
        let (ox, oy, ix, iy) = if y == r.y && plan.top_entrance(r, fp, x) {
            (x, y - 1, x, y + 1)
        } else if y == r.y + r.h - 1 && plan.bottom_entrance(r, fp, x) {
            (x, y + 1, x, y - 1)
        } else if x == r.x && plan.left_entrance(r, fp, y) {
            (x - 1, y, x + 1, y)
        } else {
            (x + 1, y, x - 1, y)
        };
        assert(within(plan.width, plan.height, ix, iy));
        assert(plan.tile(ix, iy) == TILE_FLOOR);
        assert(!on_room_outline(rooms, rooms.len() as int, ix, iy));
        assert(!on_rect_border(ru, ix, iy));
        assert(!on_rect_border(rv, ix, iy));
        lemma_room_at_side(fp, ru, x, y, ox, oy, ix, iy);
        lemma_room_at_side(fp, rv, x, y, ox, oy, ix, iy);
        assert(interiors_overlap(ru, rv));
        if u < v {
            assert(!interiors_overlap(rooms[u].rect, rooms[v].rect));
        } else {
            assert(!interiors_overlap(rooms[v].rect, rooms[u].rect));
            assert(interiors_overlap(rv, ru));
        }
    }
}

/// A spot for the outer entrance lies on the grid.
proof fn lemma_spot_within(w: World, fp: Seq<Rect>, x: int, y: int)
    requires
        footprint_inside(fp, w.width as int, w.height as int),
        w.entrance_spot(fp, x, y),
    ensures
        within(w.width, w.height, x, y),
{
    let i = choose|i: int| 0 <= i < fp.len() && #[trigger] w.entrance_on(fp[i], fp, x, y);
    assert(rect_inside(fp[i], w.width as int, w.height as int));
}

/// Doors put between rooms leave the spots for the outer entrance of the wall
/// plan as they are: `joined` offers the same spots, each still wall.
proof fn lemma_same_spots(walled: World, joined: World, fp: Seq<Rect>, rooms: Seq<Room>)
    requires
        walled.wall_plan(fp, rooms),
        rooms_tile(fp, rooms),
        forall|i: int|
            0 <= i < rooms.len() ==> (#[trigger] rooms[i]).rect.w >= MIN_DIM && rooms[i].rect.h
                >= MIN_DIM,
        forall|i: int, j: int|
            0 <= i < j < rooms.len() ==> !interiors_overlap(rooms[i].rect, rooms[j].rect),
        footprint_inside(fp, walled.width as int, walled.height as int),
        walled.doors_added(&joined),
        forall|c: int, r: int|
            #[trigger] within(joined.width, joined.height, c, r) && joined.tile(c, r) != walled.tile(
                c,
                r,
            ) ==> walled.between_linked(rooms, c, r),
    ensures
        forall|x: int, y: int|
            #[trigger] walled.entrance_spot(fp, x, y) ==> joined.entrance_spot(fp, x, y)
                && joined.tile(x, y) == TILE_WALL,
        forall|x: int, y: int|
            #[trigger] joined.entrance_spot(fp, x, y) ==> walled.entrance_spot(fp, x, y),
{
    assert forall|x: int, y: int| #[trigger] walled.entrance_spot(fp, x, y) implies joined.entrance_spot(
        fp,
        x,
        y,
    ) && joined.tile(x, y) == TILE_WALL by {
        lemma_entrance_not_between(walled, fp, rooms, x, y);
        if walled.between_linked(rooms, x, y) {
            let (u, v) = choose|u: int, v: int|
                #![trigger on_rect_border(rooms[u].rect, x, y), on_rect_border(rooms[v].rect, x, y)]
                0 <= u < rooms.len() && 0 <= v < rooms.len() && walled.linked(rooms, u, v)
                    && on_rect_border(rooms[u].rect, x, y) && on_rect_border(rooms[v].rect, x, y);
            assert(between_rooms(rooms, x, y));
        }
        let i = choose|i: int| 0 <= i < fp.len() && #[trigger] walled.entrance_on(fp[i], fp, x, y);
        let r = fp[i];
        assert(rect_inside(r, walled.width as int, walled.height as int) && r.w >= 2 && r.h >= 2);
        assert(within(joined.width, joined.height, x, y));
        assert(joined.tile(x, y) == walled.tile(x, y));
        if y == r.y && walled.top_entrance(r, fp, x) {
            assert(within(joined.width, joined.height, x, y + 1));
            assert(joined.top_entrance(r, fp, x));
        } else if y == r.y + r.h - 1 && walled.bottom_entrance(r, fp, x) {
            assert(within(joined.width, joined.height, x, y - 1));
            assert(joined.bottom_entrance(r, fp, x));
        } else if x == r.x && walled.left_entrance(r, fp, y) {
            assert(within(joined.width, joined.height, x + 1, y));
            assert(joined.left_entrance(r, fp, y));
        } else {
            assert(within(joined.width, joined.height, x - 1, y));
            assert(joined.right_entrance(r, fp, y));
        }
        assert(joined.entrance_on(fp[i], fp, x, y));
    }
    assert forall|x: int, y: int| #[trigger] joined.entrance_spot(fp, x, y) implies walled.entrance_spot(
        fp,
        x,
        y,
    ) by {
        let i = choose|i: int| 0 <= i < fp.len() && #[trigger] joined.entrance_on(fp[i], fp, x, y);
        let r = fp[i];
        assert(rect_inside(r, walled.width as int, walled.height as int) && r.w >= 2 && r.h >= 2);
        assert(within(joined.width, joined.height, x, y));
        if y == r.y && joined.top_entrance(r, fp, x) {
            assert(within(joined.width, joined.height, x, y + 1));
            assert(walled.top_entrance(r, fp, x));
        } else if y == r.y + r.h - 1 && joined.bottom_entrance(r, fp, x) {
            assert(within(joined.width, joined.height, x, y - 1));
            assert(walled.bottom_entrance(r, fp, x));
        } else if x == r.x && joined.left_entrance(r, fp, y) {
            assert(within(joined.width, joined.height, x + 1, y));
            assert(walled.left_entrance(r, fp, y));
        } else {
            assert(within(joined.width, joined.height, x - 1, y));
            assert(walled.right_entrance(r, fp, y));
        }
        assert(walled.entrance_on(fp[i], fp, x, y));
    }
}

impl World {
    /// The grid is the wall plan of the footprint `fp` cut into `rooms`: wall
    /// on the outline of every footprint rectangle and every room, floor
    /// everywhere else.
    pub open spec fn wall_plan(&self, fp: Seq<Rect>, rooms: Seq<Room>) -> bool {
        &&& self.wf()
        &&& forall|c: int, r: int|
            #[trigger] within(self.width, self.height, c, r) ==> self.tile(c, r) == if on_outline(
                fp,
                fp.len() as int,
                c,
                r,
            ) || on_room_outline(rooms, rooms.len() as int, c, r) {
                TILE_WALL
            } else {
                TILE_FLOOR
            }
    }

    /// The grid is the wall plan `plan` of the footprint `fp` cut into `rooms`
    /// but for: the hub mark at `(hx, hy)`, the centre of the hub (the largest
    /// room, see `is_hub`); the two exits at `(ax, ay)` and `(bx, by)`; and wall
    /// turned into door, either at a doorway on the outlines of two rooms that
    /// share a wall with a spot for a door, or at a spot for the outer
    /// entrance.
    pub open spec fn follows_plan(
        &self,
        plan: World,
        fp: Seq<Rect>,
        rooms: Seq<Room>,
        hx: int,
        hy: int,
        ax: int,
        ay: int,
        bx: int,
        by: int,
    ) -> bool {
        &&& exists|h: int|
            #[trigger] is_hub(rooms, h) && hx == rooms[h].rect.x + rooms[h].rect.w / 2 && hy
                == rooms[h].rect.y + rooms[h].rect.h / 2
        &&& forall|c: int, r: int|
            #[trigger] within(self.width, self.height, c, r) ==> if c == hx && r == hy {
                self.tile(c, r) == TILE_HUB
            } else if (c == ax && r == ay) || (c == bx && r == by) {
                self.tile(c, r) == TILE_EXIT
            } else {
                ||| self.tile(c, r) == plan.tile(c, r)
                ||| plan.tile(c, r) == TILE_WALL && self.tile(c, r) == TILE_DOOR && ((plan.doorway(c, r)
                    && plan.between_linked(rooms, c, r)) || plan.entrance_spot(fp, c, r))
            }
    }

    /// Where the wall plan `plan` has spots for the outer entrance (see
    /// `entrance_spot`), exactly one of them is a door here and the others
    /// are wall.
    pub open spec fn one_entrance(&self, plan: World, fp: Seq<Rect>) -> bool {
        (exists|x: int, y: int| plan.entrance_spot(fp, x, y)) ==> exists|x: int, y: int|
            #[trigger] plan.entrance_spot(fp, x, y) && self.tile(x, y) == TILE_DOOR && forall|
                x2: int,
                y2: int,
            |
                #[trigger] plan.entrance_spot(fp, x2, y2) && !(x2 == x && y2 == y) ==> self.tile(
                    x2,
                    y2,
                ) == TILE_WALL
    }

    /// The grid joins the rooms of the wall plan `plan` of the footprint `fp`
    /// cut into `rooms`: every room that shares a wall with a spot for a door
    /// with another room in the plan has a door on its outline here, and any
    /// two such rooms can be reached from each other through doors.
    pub open spec fn joins_rooms(&self, plan: World, fp: Seq<Rect>, rooms: Seq<Room>) -> bool {
        &&& plan.same_size(self)
        &&& plan.wall_plan(fp, rooms)
        &&& rooms_tile(fp, rooms)
        &&& forall|v: int|
            0 <= v < rooms.len() && #[trigger] plan.has_link(rooms, v) ==> self.door_on(
                rooms[v].rect,
            )
        &&& forall|u: int, v: int|
            0 <= u < rooms.len() && 0 <= v < rooms.len() && #[trigger] plan.linked(rooms, u, v)
                ==> self.reachable(rooms, u, v)
    }
}

/// Floor, wall or door: the tiles of a building plan.
pub open spec fn is_plan_tile(c: char) -> bool {
    c == TILE_FLOOR || c == TILE_WALL || c == TILE_DOOR
}

impl World {
    /// Every tile of the grid is floor, wall or door.
    pub open spec fn plan_tiles(&self) -> bool {
        forall|c: int, r: int|
            #[trigger] within(self.width, self.height, c, r) ==> is_plan_tile(self.tile(c, r))
    }

    /// The grid holds a house on the footprint `fp`: open floor everywhere
    /// outside it, and wall or door on the outline of each of its rectangles.
    pub open spec fn house_on(&self, fp: Seq<Rect>) -> bool {
        &&& 1 <= fp.len()
        &&& footprint_inside(fp, self.width as int, self.height as int)
        &&& forall|c: int, r: int|
            #[trigger] within(self.width, self.height, c, r) ==> {
                &&& !in_footprint(fp, c, r) ==> self.tile(c, r) == TILE_FLOOR
                &&& on_outline(fp, fp.len() as int, c, r) ==> (self.tile(c, r) == TILE_WALL
                    || self.tile(c, r) == TILE_DOOR)
            }
    }

    /// The grid holds a house on the footprint `fp`, with the hub mark at
    /// `(hx, hy)` inside the footprint and the two exits at the different
    /// tiles `(ax, ay)` and `(bx, by)` outside it: every other tile is floor,
    /// wall or door; outside the footprint lies open floor; the outline of
    /// every footprint rectangle is wall or door.
    pub open spec fn laid_out(
        &self,
        fp: Seq<Rect>,
        hx: int,
        hy: int,
        ax: int,
        ay: int,
        bx: int,
        by: int,
    ) -> bool {
        &&& 1 <= fp.len()
        &&& footprint_inside(fp, self.width as int, self.height as int)
        &&& within(self.width, self.height, hx, hy)
        &&& in_footprint(fp, hx, hy)
        &&& within(self.width, self.height, ax, ay)
        &&& within(self.width, self.height, bx, by)
        &&& ax != bx || ay != by
        &&& !in_footprint(fp, ax, ay)
        &&& !in_footprint(fp, bx, by)
        &&& forall|c: int, r: int|
            #[trigger] within(self.width, self.height, c, r) ==> {
                let exit = (c == ax && r == ay) || (c == bx && r == by);
                &&& c == hx && r == hy ==> self.tile(c, r) == TILE_HUB
                &&& exit ==> self.tile(c, r) == TILE_EXIT
                &&& !(c == hx && r == hy) && !exit ==> is_plan_tile(self.tile(c, r))
                &&& !in_footprint(fp, c, r) && !exit ==> self.tile(c, r) == TILE_FLOOR
                &&& on_outline(fp, fp.len() as int, c, r) ==> (self.tile(c, r) == TILE_WALL
                    || self.tile(c, r) == TILE_DOOR)
            }
    }

    /// Generates a building at random: clears the grid to floor, lays out the
    /// footprint, cuts it into rooms, walls the footprint and every room, joins
    /// the rooms with doors, opens one outer entrance, marks the hub and places
    /// the two exits. Afterwards the grid holds floor, wall and door everywhere
    /// but at exactly three tiles: the hub mark inside the footprint and two
    /// exits outside it; outside the footprint lies open floor, and the outline
    /// of every footprint rectangle is wall or door. The rooms cut the
    /// footprint; every room that shares a wall holding a spot for a door with
    /// another room in the wall plan (footprint and room outlines walled, floor
    /// elsewhere) has a door on its outline, and any two such rooms can be
    /// reached from each other through doors; where the plan offers spots for
    /// the outer entrance, exactly one of them is a door. Tile by tile, the grid
    /// is the wall plan but for the hub mark at the centre of the largest room,
    /// the two exits, and wall turned into door at doorways between such rooms
    /// or at the outer entrance (`follows_plan`).
    #[verifier::rlimit(80)]
    #[verifier::spinoff_prover]
    pub fn generate(&mut self)
        requires
            old(self).wf(),
            15 <= old(self).width,
            15 <= old(self).height,
            old(self).allocatable(),
        ensures
            old(self).same_size(final(self)),
            exists|
                fp: Seq<Rect>,
                rooms: Seq<Room>,
                plan: World,
                hx: int,
                hy: int,
                ax: int,
                ay: int,
                bx: int,
                by: int,
            |
                #![trigger final(self).laid_out(fp, hx, hy, ax, ay, bx, by), final(self).joins_rooms(plan, fp, rooms)]
                final(self).laid_out(fp, hx, hy, ax, ay, bx, by) && final(self).joins_rooms(
                    plan,
                    fp,
                    rooms,
                ) && final(self).one_entrance(plan, fp) && footprint_drawn(
                    final(self).width as int,
                    final(self).height as int,
                    fp,
                ) && sliced_from(fp, rooms) && final(self).follows_plan(
                    plan,
                    fp,
                    rooms,
                    hx,
                    hy,
                    ax,
                    ay,
                    bx,
                    by,
                ),
    {
        self.fill_rect(0, 0, self.width, self.height, ' ');
        assert(self.plan_tiles());
        assert(forall|c: int, r: int|
            #[trigger] within(self.width, self.height, c, r) ==> self.tile(c, r) == TILE_FLOOR);

        let footprint = self.gen_footprint();
        let ghost fp = footprint@;
        assert(footprint_inside(fp, self.width as int, self.height as int));
        assert(forall|i: int| 0 <= i < fp.len() ==> (#[trigger] fp[i]).y >= 1);
        assert(footprint_shape(fp));

        let mut rooms: Vec<Room> = Vec::new();
        assert(forall|c: int, r: int| !in_footprint(fp.take(0), c, r));
        let ghost mut bounds: Seq<int> = seq![0int];
        for k in 0..footprint.len()
            invariant
                fp == footprint@,
                bounds.len() == k + 1,
                bounds[0] == 0,
                bounds[k as int] == rooms@.len(),
                forall|j: int| 0 <= j < k ==> #[trigger] cut_at(fp, rooms@, bounds, j),
                footprint_inside(fp, self.width as int, self.height as int),
                footprint_shape(fp),
                self.allocatable(),
                forall|i: int|
                    0 <= i < rooms@.len() ==> {
                        let r = (#[trigger] rooms@[i]).rect;
                        &&& rect_inside(r, self.width as int, self.height as int)
                        &&& MIN_DIM <= r.w < MIN_DIM * 2 - 1
                        &&& MIN_DIM <= r.h < MIN_DIM * 2 - 1
                        &&& in_some_rect(fp, r)
                    },
                k > 0 ==> rooms@.len() > 0,
                forall|i: int|
                    0 <= i < rooms@.len() ==> in_some_rect(fp.take(k as int), #[trigger] rooms@[i].rect),
                forall|i: int, j: int|
                    0 <= i < j < rooms@.len() ==> !interiors_overlap(rooms@[i].rect, rooms@[j].rect),
                forall|c: int, r: int|
                    in_footprint(fp.take(k as int), c, r) ==> #[trigger] covered_by(rooms@, 0, c, r),
        {
            let rect = footprint[k];
            assert(7 <= rect.w && 7 <= rect.h);
            let ghost before = rooms@;
            self.recursive_slice(rect.x, rect.y, rect.w, rect.h, &mut rooms);
            proof {
                assert(min_int(rect.w as int, MIN_DIM as int) == MIN_DIM);
                assert(min_int(rect.h as int, MIN_DIM as int) == MIN_DIM);
                assert(cut_into(fp[k as int], rooms@, before.len() as int));
                lemma_cuts_grow(fp, before, rooms@, bounds, k as int);
                bounds = bounds.push(rooms@.len() as int);
            }
            assert forall|i: int| 0 <= i < rooms@.len() implies {
                let r = (#[trigger] rooms@[i]).rect;
                &&& rect_inside(r, self.width as int, self.height as int)
                &&& MIN_DIM <= r.w < MIN_DIM * 2 - 1
                &&& MIN_DIM <= r.h < MIN_DIM * 2 - 1
                &&& in_some_rect(fp, r)
            } by {
                if i < before.len() {
                    assert(rooms@.subrange(0, before.len() as int)[i] == rooms@[i]);
                } else {
                    assert(rect_within(rooms@[i].rect, fp[k as int]));
                }
            }
            proof {
                let t = rooms@;
                let bl = before.len() as int;
                let kk1 = k + 1;
                assert forall|i: int| 0 <= i < t.len() implies in_some_rect(
                    fp.take(kk1 as int),
                    #[trigger] t[i].rect,
                ) by {
                    if i < bl {
                        assert(t.subrange(0, bl)[i] == t[i]);
                        assert(in_some_rect(fp.take(k as int), before[i].rect));
                        let kk = choose|kk: int|
                            0 <= kk < fp.take(k as int).len() && #[trigger] rect_within(
                                before[i].rect,
                                fp.take(k as int)[kk],
                            );
                        assert(fp.take(kk1 as int)[kk] == fp.take(k as int)[kk]);
                        assert(rect_within(t[i].rect, fp.take(kk1 as int)[kk]));
                    } else {
                        assert(fp.take(kk1 as int)[k as int] == fp[k as int]);
                        assert(rect_within(t[i].rect, fp.take(kk1 as int)[k as int]));
                    }
                }
                assert forall|i: int, j: int| 0 <= i < j < t.len() implies !interiors_overlap(
                    t[i].rect,
                    t[j].rect,
                ) by {
                    if j < bl {
                        assert(t.subrange(0, bl)[i] == t[i]);
                        assert(t.subrange(0, bl)[j] == t[j]);
                    } else if i < bl {
                        assert(t.subrange(0, bl)[i] == t[i]);
                        assert(in_some_rect(fp.take(k as int), before[i].rect));
                        let kk = choose|kk: int|
                            0 <= kk < fp.take(k as int).len() && #[trigger] rect_within(
                                before[i].rect,
                                fp.take(k as int)[kk],
                            );
                        assert(fp.take(k as int)[kk] == fp[kk]);
                        assert(!interiors_overlap(fp[kk], fp[k as int]));
                        assert(rect_within(t[j].rect, fp[k as int]));
                        lemma_within_apart(t[i].rect, fp[kk], t[j].rect, fp[k as int]);
                    }
                }
                assert forall|c: int, r: int| #[trigger] in_footprint(fp.take(kk1 as int), c, r) implies covered_by(
                    t,
                    0,
                    c,
                    r,
                ) by {
                    let kk = choose|kk: int|
                        0 <= kk < fp.take(kk1 as int).len() && in_rect(fp.take(kk1 as int)[kk], c, r);
                    if kk == k {
                        assert(fp.take(kk1 as int)[kk] == fp[k as int]);
                        assert(covered_by(t, bl, c, r));
                        let ii = choose|ii: int| bl <= ii < t.len() && in_rect(#[trigger] t[ii].rect, c, r);
                        assert(0 <= ii < t.len() && in_rect(t[ii].rect, c, r));
                    } else {
                        assert(kk < k);
                        assert(fp.take(kk1 as int)[kk] == fp.take(k as int)[kk]);
                        assert(in_rect(fp.take(k as int)[kk], c, r));
                        assert(in_footprint(fp.take(k as int), c, r));
                        assert(covered_by(before, 0, c, r));
                        let ii = choose|ii: int| 0 <= ii < before.len() && in_rect(#[trigger] before[ii].rect, c, r);
                        assert(t.subrange(0, bl)[ii] == t[ii]);
                    }
                }
            }
        }

        assert(sliced_from(fp, rooms@)) by {
            assert(bounds.len() == fp.len() + 1);
        }
        for k in 0..footprint.len()
            invariant
                fp == footprint@,
                footprint_inside(fp, self.width as int, self.height as int),
                self.wf(),
                self.plan_tiles(),
                old(self).same_size(self),
                forall|c: int, r: int|
                    #[trigger] within(self.width, self.height, c, r) && !in_footprint(fp, c, r)
                        ==> self.tile(c, r) == TILE_FLOOR,
                forall|c: int, r: int|
                    #[trigger] within(self.width, self.height, c, r) ==> self.tile(c, r) == TILE_FLOOR,
        {
            let r = footprint[k];
            let ghost prev = *self;
            self.fill_rect(r.x, r.y, r.w, r.h, TILE_FLOOR);
            assert forall|c: int, rr: int| #[trigger] within(self.width, self.height, c, rr) implies self.tile(
                c,
                rr,
            ) == TILE_FLOOR by {
                assert(within(prev.width, prev.height, c, rr));
            }
            assert forall|c: int, rr: int|
                #[trigger] within(self.width, self.height, c, rr) && !in_footprint(fp, c, rr)
                    implies self.tile(c, rr) == TILE_FLOOR by {
                assert(within(prev.width, prev.height, c, rr));
                assert(!in_rect(fp[k as int], c, rr));
            }
        }
        for k in 0..footprint.len()
            invariant
                fp == footprint@,
                footprint_inside(fp, self.width as int, self.height as int),
                self.wf(),
                self.plan_tiles(),
                old(self).same_size(self),
                forall|c: int, r: int|
                    #[trigger] within(self.width, self.height, c, r) ==> {
                        &&& !in_footprint(fp, c, r) ==> self.tile(c, r) == TILE_FLOOR
                        &&& on_outline(fp, k as int, c, r) ==> self.tile(c, r) == TILE_WALL
                    },
                forall|c: int, r: int|
                    #[trigger] within(self.width, self.height, c, r) ==> self.tile(c, r) == if on_outline(
                        fp,
                        k as int,
                        c,
                        r,
                    ) {
                        TILE_WALL
                    } else {
                        TILE_FLOOR
                    },
        {
            let r = footprint[k];
            let ghost prev = *self;
            self.draw_rect_border(r.x, r.y, r.w, r.h);
            assert forall|c: int, rr: int| #[trigger] within(self.width, self.height, c, rr) implies self.tile(
                c,
                rr,
            ) == if on_outline(fp, k + 1, c, rr) {
                TILE_WALL
            } else {
                TILE_FLOOR
            } by {
                assert(within(prev.width, prev.height, c, rr));
                if on_rect_border(fp[k as int], c, rr) {
                    assert(on_outline(fp, k + 1, c, rr));
                } else if on_outline(fp, k + 1, c, rr) {
                    let j = choose|j: int|
                        0 <= j < k + 1 && j < fp.len() && #[trigger] on_rect_border(fp[j], c, rr);
                    assert(on_outline(fp, k as int, c, rr));
                } else {
                    assert(!on_outline(fp, k as int, c, rr));
                }
            }
            assert forall|c: int, rr: int|
                #[trigger] within(self.width, self.height, c, rr) implies {
                &&& !in_footprint(fp, c, rr) ==> self.tile(c, rr) == TILE_FLOOR
                &&& on_outline(fp, k + 1, c, rr) ==> self.tile(c, rr) == TILE_WALL
            } by {
                assert(within(prev.width, prev.height, c, rr));
                if on_rect_border(fp[k as int], c, rr) {
                    assert(in_rect(fp[k as int], c, rr));
                }
                if on_outline(fp, k + 1, c, rr) && !on_rect_border(fp[k as int], c, rr) {
                    let j = choose|j: int|
                        0 <= j < k + 1 && j < fp.len() && #[trigger] on_rect_border(fp[j], c, rr);
                    assert(on_outline(fp, k as int, c, rr));
                }
            }
        }
        for k in 0..rooms.len()
            invariant
                fp == footprint@,
                footprint_inside(fp, self.width as int, self.height as int),
                forall|i: int|
                    0 <= i < rooms@.len() ==> {
                        let r = (#[trigger] rooms@[i]).rect;
                        &&& rect_inside(r, self.width as int, self.height as int)
                        &&& MIN_DIM <= r.w < MIN_DIM * 2 - 1
                        &&& MIN_DIM <= r.h < MIN_DIM * 2 - 1
                        &&& in_some_rect(fp, r)
                    },
                self.wf(),
                self.plan_tiles(),
                old(self).same_size(self),
                forall|c: int, r: int|
                    #[trigger] within(self.width, self.height, c, r) ==> {
                        &&& !in_footprint(fp, c, r) ==> self.tile(c, r) == TILE_FLOOR
                        &&& on_outline(fp, fp.len() as int, c, r) ==> self.tile(c, r) == TILE_WALL
                    },
                forall|c: int, r: int|
                    #[trigger] within(self.width, self.height, c, r) ==> self.tile(c, r) == if on_outline(
                        fp,
                        fp.len() as int,
                        c,
                        r,
                    ) || on_room_outline(rooms@, k as int, c, r) {
                        TILE_WALL
                    } else {
                        TILE_FLOOR
                    },
        {
            let r = rooms[k].rect;
            assert(r == rooms@[k as int].rect);
            let ghost prev = *self;
            self.draw_rect_border(r.x, r.y, r.w, r.h);
            assert forall|c: int, rr: int| #[trigger] within(self.width, self.height, c, rr) implies self.tile(
                c,
                rr,
            ) == if on_outline(fp, fp.len() as int, c, rr) || on_room_outline(rooms@, k + 1, c, rr) {
                TILE_WALL
            } else {
                TILE_FLOOR
            } by {
                assert(within(prev.width, prev.height, c, rr));
                if on_rect_border(rooms@[k as int].rect, c, rr) {
                    assert(on_room_outline(rooms@, k + 1, c, rr));
                } else if on_room_outline(rooms@, k + 1, c, rr) {
                    let j = choose|j: int|
                        0 <= j < k + 1 && j < rooms@.len() && #[trigger] on_rect_border(rooms@[j].rect, c, rr);
                    assert(on_room_outline(rooms@, k as int, c, rr));
                } else {
                    assert(!on_room_outline(rooms@, k as int, c, rr));
                }
            }
            let ghost kk = choose|kk: int| 0 <= kk < fp.len() && #[trigger] rect_within(r, fp[kk]);
            assert forall|c: int, rr: int|
                #[trigger] within(self.width, self.height, c, rr) implies {
                &&& !in_footprint(fp, c, rr) ==> self.tile(c, rr) == TILE_FLOOR
                &&& on_outline(fp, fp.len() as int, c, rr) ==> self.tile(c, rr) == TILE_WALL
            } by {
                assert(within(prev.width, prev.height, c, rr));
                if on_rect_border(r, c, rr) {
                    assert(in_rect(fp[kk], c, rr));
                }
            }
        }

        let ghost walled = *self;
        assert forall|w: int| 0 <= w < rooms@.len() implies walled.outline_walled(
            #[trigger] rooms@[w].rect,
        ) by {
            assert forall|x: int, y: int|
                #[trigger] within(walled.width, walled.height, x, y) && on_rect_border(rooms@[w].rect, x, y)
                    implies (walled.tile(x, y) == TILE_WALL || walled.tile(x, y) == TILE_DOOR) by {
                assert(on_room_outline(rooms@, rooms@.len() as int, x, y));
            }
        }
        self.connect_rooms(rooms.as_slice());
        assert(self.plan_tiles() && self.house_on(fp)) by {
            assert forall|c: int, r: int| #[trigger] within(self.width, self.height, c, r) implies is_plan_tile(
                self.tile(c, r),
            ) && (!in_footprint(fp, c, r) ==> self.tile(c, r) == TILE_FLOOR) && (on_outline(
                fp,
                fp.len() as int,
                c,
                r,
            ) ==> (self.tile(c, r) == TILE_WALL || self.tile(c, r) == TILE_DOOR)) by {
                assert(within(walled.width, walled.height, c, r));
            }
        }
        let ghost joined = *self;
        self.place_outer_entrance(footprint.as_slice());
        assert(self.plan_tiles() && self.house_on(fp)) by {
            assert forall|c: int, r: int| #[trigger] within(self.width, self.height, c, r) implies is_plan_tile(
                self.tile(c, r),
            ) && (!in_footprint(fp, c, r) ==> self.tile(c, r) == TILE_FLOOR) && (on_outline(
                fp,
                fp.len() as int,
                c,
                r,
            ) ==> (self.tile(c, r) == TILE_WALL || self.tile(c, r) == TILE_DOOR)) by {
                assert(within(joined.width, joined.height, c, r));
                if exists|x: int, y: int| joined.entrance_spot(fp, x, y) {
                    let (x, y) = choose|x: int, y: int|
                        joined.entrance_spot(fp, x, y) && #[trigger] joined.set_only(
                            self,
                            x,
                            y,
                            TILE_DOOR,
                        );
                    assert(joined.set_only(self, x, y, TILE_DOOR));
                    if c == x && r == y {
                        let i = choose|i: int|
                            0 <= i < fp.len() && #[trigger] joined.entrance_on(fp[i], fp, x, y);
                        assert(joined.tile(x, y) == TILE_WALL);
                    }
                }
            }
        }
        let ghost opened = *self;
        assert(rooms@.len() > 0);
        assert forall|i: int| 0 <= i < rooms@.len() implies (#[trigger] rooms@[i]).rect.w
            * rooms@[i].rect.h <= usize::MAX by {
            let r = rooms@[i].rect;
            assert(r.w * r.h <= 81) by (nonlinear_arith)
                requires
                    r.w < 9,
                    r.h < 9,
            ;
        }
        self.place_hub(rooms.as_slice());
        proof {
            let h = choose|h: int| is_hub(rooms@, h);
            let r = rooms@[h].rect;
            let hx = r.x + r.w / 2;
            let hy = r.y + r.h / 2;
            assert(within(self.width, self.height, hx, hy));
            let kk = choose|kk: int| 0 <= kk < fp.len() && #[trigger] rect_within(r, fp[kk]);
            lemma_centre_clear(fp, r, kk);
            assert forall|c: int, rr: int|
                #[trigger] within(self.width, self.height, c, rr) implies if c == hx && rr == hy {
                self.tile(c, rr) == TILE_HUB
            } else {
                is_plan_tile(self.tile(c, rr))
            } by {
                assert(within(opened.width, opened.height, c, rr));
            }
            assert forall|c: int, rr: int| #[trigger] within(self.width, self.height, c, rr) implies {
                &&& !in_footprint(fp, c, rr) ==> self.tile(c, rr) == TILE_FLOOR
                &&& on_outline(fp, fp.len() as int, c, rr) ==> (self.tile(c, rr) == TILE_WALL
                    || self.tile(c, rr) == TILE_DOOR)
            } by {
                assert(within(opened.width, opened.height, c, rr));
            }
            assert(self.house_on(fp));
            assert(!in_footprint(fp, 0, 0));
            assert(!in_footprint(fp, 1, 0));
            assert(within(self.width, self.height, 0, 0));
            assert(within(self.width, self.height, 1, 0));
            assert(self.exit_spot(fp, 0, 0) && self.exit_spot(fp, 1, 0));
            assert(self.two_exit_spots(fp));
        }
        let ghost hubbed = *self;
        let ghost h = choose|h: int| is_hub(rooms@, h);
        let ghost hx = rooms@[h].rect.x + rooms@[h].rect.w / 2;
        let ghost hy = rooms@[h].rect.y + rooms@[h].rect.h / 2;
        self.place_exits(footprint.as_slice());
        proof {
            let (ax, ay, bx, by) = choose|ax: int, ay: int, bx: int, by: int|
                #[trigger] hubbed.exits_at(self, fp, ax, ay, bx, by);
            assert(hubbed.exits_at(self, fp, ax, ay, bx, by));
            let r = rooms@[h].rect;
            let kk = choose|kk: int| 0 <= kk < fp.len() && #[trigger] rect_within(r, fp[kk]);
            lemma_centre_clear(fp, r, kk);
            assert(within(hubbed.width, hubbed.height, hx, hy));
            assert(hubbed.tile(hx, hy) == TILE_HUB);
            assert forall|c: int, rr: int| #[trigger] within(self.width, self.height, c, rr) implies {
                let exit = (c == ax && rr == ay) || (c == bx && rr == by);
                &&& c == hx && rr == hy ==> self.tile(c, rr) == TILE_HUB
                &&& exit ==> self.tile(c, rr) == TILE_EXIT
                &&& !(c == hx && rr == hy) && !exit ==> is_plan_tile(self.tile(c, rr))
                &&& !in_footprint(fp, c, rr) && !exit ==> self.tile(c, rr) == TILE_FLOOR
                &&& on_outline(fp, fp.len() as int, c, rr) ==> (self.tile(c, rr) == TILE_WALL
                    || self.tile(c, rr) == TILE_DOOR)
            } by {
                assert(within(hubbed.width, hubbed.height, c, rr));
            }
            assert(self.laid_out(fp, hx, hy, ax, ay, bx, by));

            assert(fp.take(fp.len() as int) =~= fp);
            assert(walled.wall_plan(fp, rooms@));
            assert(rooms_tile(fp, rooms@)) by {
                assert forall|c: int, rr: int| #[trigger] in_footprint(fp, c, rr) implies covered_by(
                    rooms@,
                    0,
                    c,
                    rr,
                ) by {
                    assert(in_footprint(fp.take(fp.len() as int), c, rr));
                }
            }
            lemma_centre_off_rooms(rooms@, h);
            assert(within(walled.width, walled.height, hx, hy));
            assert(walled.tile(hx, hy) == TILE_FLOOR);
            assert(within(joined.width, joined.height, hx, hy));
            assert(joined.tile(hx, hy) == TILE_FLOOR);
            let spot = exists|x: int, y: int| joined.entrance_spot(fp, x, y);
            let (ex, ey) = choose|x: int, y: int|
                joined.entrance_spot(fp, x, y) && #[trigger] joined.set_only(&opened, x, y, TILE_DOOR);
            if spot {
                assert(joined.set_only(&opened, ex, ey, TILE_DOOR));
                let i = choose|i: int| 0 <= i < fp.len() && #[trigger] joined.entrance_on(fp[i], fp, ex, ey);
                assert(joined.tile(ex, ey) == TILE_WALL);
                assert(within(opened.width, opened.height, hx, hy));
            }
            assert(opened.tile(hx, hy) == TILE_FLOOR);
            assert forall|v: int| 0 <= v < rooms@.len() && #[trigger] walled.has_link(rooms@, v) implies self.door_on(
                rooms@[v].rect,
            ) by {
                assert(walled.outline_walled(rooms@[v].rect)) by {
                    assert forall|x: int, y: int|
                        #[trigger] within(walled.width, walled.height, x, y) && on_rect_border(
                            rooms@[v].rect,
                            x,
                            y,
                        ) implies (walled.tile(x, y) == TILE_WALL || walled.tile(x, y) == TILE_DOOR) by {
                        assert(on_room_outline(rooms@, rooms@.len() as int, x, y));
                    }
                }
                assert(joined.door_on(rooms@[v].rect));
                let (a, b) = choose|a: int, b: int|
                    within(joined.width, joined.height, a, b) && on_rect_border(rooms@[v].rect, a, b)
                        && #[trigger] joined.tile(a, b) == TILE_DOOR;
                assert(within(opened.width, opened.height, a, b));
                if spot {
                    assert(joined.set_only(&opened, ex, ey, TILE_DOOR));
                }
                assert(opened.tile(a, b) == TILE_DOOR);
                assert(!(a == hx && b == hy));
                assert(within(hubbed.width, hubbed.height, a, b));
                assert(hubbed.tile(a, b) == TILE_DOOR);
                assert(within(self.width, self.height, a, b));
                assert(self.tile(a, b) == TILE_DOOR);
                assert(on_rect_border(rooms@[v].rect, a, b));
            }
            assert(joined.keeps_doors(self)) by {
                assert forall|a: int, b: int|
                    #[trigger] within(joined.width, joined.height, a, b) && joined.tile(a, b) == TILE_DOOR
                        implies self.tile(a, b) == TILE_DOOR by {
                    assert(within(opened.width, opened.height, a, b));
                    if spot {
                        assert(joined.set_only(&opened, ex, ey, TILE_DOOR));
                    }
                    assert(opened.tile(a, b) == TILE_DOOR);
                    assert(!(a == hx && b == hy));
                    assert(within(hubbed.width, hubbed.height, a, b));
                    assert(hubbed.tile(a, b) == TILE_DOOR);
                    assert(within(self.width, self.height, a, b));
                }
            }
            assert forall|u: int, v: int|
                0 <= u < rooms@.len() && 0 <= v < rooms@.len() && #[trigger] walled.linked(rooms@, u, v)
                    implies self.reachable(rooms@, u, v) by {
                lemma_reach_kept(joined, *self, rooms@, u, v);
            }
            assert(self.joins_rooms(walled, fp, rooms@));

            lemma_same_spots(walled, joined, fp, rooms@);
            if exists|x: int, y: int| walled.entrance_spot(fp, x, y) {
                let (wx, wy) = choose|x: int, y: int| walled.entrance_spot(fp, x, y);
                assert(joined.entrance_spot(fp, wx, wy));
                assert(spot);
                assert(joined.set_only(&opened, ex, ey, TILE_DOOR));
                assert(joined.entrance_spot(fp, ex, ey));
                assert(walled.entrance_spot(fp, ex, ey));
                lemma_spot_within(walled, fp, ex, ey);
                assert(within(opened.width, opened.height, ex, ey));
                assert(opened.tile(ex, ey) == TILE_DOOR);
                assert(!(ex == hx && ey == hy));
                assert(within(hubbed.width, hubbed.height, ex, ey));
                assert(hubbed.tile(ex, ey) == TILE_DOOR);
                assert(within(self.width, self.height, ex, ey));
                assert(self.tile(ex, ey) == TILE_DOOR);
                assert forall|x2: int, y2: int|
                    #[trigger] walled.entrance_spot(fp, x2, y2) && !(x2 == ex && y2 == ey) implies self.tile(
                    x2,
                    y2,
                ) == TILE_WALL by {
                    lemma_spot_within(walled, fp, x2, y2);
                    assert(joined.tile(x2, y2) == TILE_WALL);
                    assert(within(opened.width, opened.height, x2, y2));
                    assert(opened.tile(x2, y2) == TILE_WALL);
                    assert(!(x2 == hx && y2 == hy));
                    assert(within(hubbed.width, hubbed.height, x2, y2));
                    assert(hubbed.tile(x2, y2) == TILE_WALL);
                    assert(within(self.width, self.height, x2, y2));
                }
            }
            assert(self.one_entrance(walled, fp));
            assert(is_hub(rooms@, h));
            assert forall|c: int, rr: int| #[trigger] within(self.width, self.height, c, rr) implies if c == hx && rr
                == hy {
                self.tile(c, rr) == TILE_HUB
            } else if (c == ax && rr == ay) || (c == bx && rr == by) {
                self.tile(c, rr) == TILE_EXIT
            } else {
                ||| self.tile(c, rr) == walled.tile(c, rr)
                ||| walled.tile(c, rr) == TILE_WALL && self.tile(c, rr) == TILE_DOOR && ((walled.doorway(c, rr)
                    && walled.between_linked(rooms@, c, rr)) || walled.entrance_spot(fp, c, rr))
            } by {
                assert(within(walled.width, walled.height, c, rr));
                assert(within(joined.width, joined.height, c, rr));
                assert(within(opened.width, opened.height, c, rr));
                assert(within(hubbed.width, hubbed.height, c, rr));
                if !(c == hx && rr == hy) && !((c == ax && rr == ay) || (c == bx && rr == by)) {
                    assert(self.tile(c, rr) == hubbed.tile(c, rr));
                    assert(hubbed.tile(c, rr) == opened.tile(c, rr));
                    if spot && c == ex && rr == ey {
                        assert(joined.set_only(&opened, ex, ey, TILE_DOOR));
                        assert(joined.entrance_spot(fp, ex, ey));
                        assert(walled.entrance_spot(fp, ex, ey));
                        assert(joined.tile(ex, ey) == TILE_WALL);
                        assert(walled.tile(ex, ey) == TILE_WALL);
                    } else {
                        if spot {
                            assert(joined.set_only(&opened, ex, ey, TILE_DOOR));
                        }
                        assert(opened.tile(c, rr) == joined.tile(c, rr));
                    }
                }
            }
            assert(self.follows_plan(walled, fp, rooms@, hx, hy, ax, ay, bx, by));
        }
    }
}

/// What a list holds stays in it when entries are appended.
proof fn lemma_holds_prefix(s: Seq<(usize, usize)>, t: Seq<(usize, usize)>)
    requires
        s.len() <= t.len(),
        forall|k: int| 0 <= k < s.len() ==> t[k] == s[k],
    ensures
        forall|x: int, y: int| holds_pos(s, x, y) ==> holds_pos(t, x, y),
{
    assert forall|x: int, y: int| holds_pos(s, x, y) implies holds_pos(t, x, y) by {
        let k = choose|k: int| 0 <= k < s.len() && s[k].0 == x && s[k].1 == y;
        assert(t[k] == s[k]);
    }
}

} // verus!
