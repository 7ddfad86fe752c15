use vstd::prelude::*;
use crate::tile::{Tile, MAP_WIDTH, MAP_HEIGHT, tile_walkable, tile_glyph};
use crate::room::{Room, room_fits, room_center, abs_int, on_map};
use crate::text::push_char;

verus! {

/// Number of cells on the map.
pub const MAP_CELLS: usize = 4800;

/// Position of the cell `(x, y)` in the row-major tile vector.
pub open spec fn cell_index(x: int, y: int) -> int {
    y * MAP_WIDTH + x
}

/// Distinct map cells sit at distinct positions of the tile vector, inside it.
pub proof fn lemma_cell_index(x: int, y: int, x2: int, y2: int)
    requires
        on_map(x, y),
        on_map(x2, y2),
    ensures
        0 <= cell_index(x, y) < MAP_CELLS,
        cell_index(x, y) == cell_index(x2, y2) ==> x == x2 && y == y2,
{
}

/// `c + d` with the wrap-around of `usize` arithmetic.
pub open spec fn wrap_step(c: int, d: int) -> int {
    if c + d > usize::MAX {
        c + d - (usize::MAX + 1)
    } else if c + d < 0 {
        c + d + (usize::MAX + 1)
    } else {
        c + d
    }
}

/// Sum of the coordinate distances between two cells.
pub open spec fn manhattan(a: (int, int), b: (int, int)) -> int {
    abs_int(a.0 - b.0) + abs_int(a.1 - b.1)
}

/// The dungeon map: `tiles` holds the cells row by row (`MAP_WIDTH` per row),
/// `rooms` the open regions found in it, the first being where the player starts.
pub struct DungeonMap {
    pub tiles: Vec<Tile>,
    pub rooms: Vec<Room>,
}

/// Number of occurrences of `t` in `s`.
pub open spec fn count_tiles(s: Seq<Tile>, t: Tile) -> nat
    decreases s.len(),
{
    if s.len() == 0 {
        0
    } else {
        count_tiles(s.drop_last(), t) + if s.last() == t { 1nat } else { 0nat }
    }
}

impl DungeonMap {
    /// The map holds exactly one tile per cell, and its rooms' arithmetic fits.
    pub open spec fn wf(&self) -> bool {
        &&& self.tiles@.len() == MAP_CELLS
        &&& forall|i: int| 0 <= i < self.rooms@.len() ==> room_fits(#[trigger] self.rooms@[i])
    }

    /// The tile at an on-map cell.
    pub open spec fn tile_at(&self, x: int, y: int) -> Tile {
        self.tiles@[cell_index(x, y)]
    }

    /// Whether `(x, y)` is on the map and may be stood on.
    pub open spec fn walkable_at(&self, x: int, y: int) -> bool {
        on_map(x, y) && tile_walkable(self.tile_at(x, y))
    }

    /// Whether the neighbour of `(x, y)` at offset `(dx, dy)`, with `usize` wrap-around,
    /// is on the map and holds `t`.
    pub open spec fn neighbor_holds(&self, x: int, y: int, dx: int, dy: int, t: Tile) -> bool {
        on_map(wrap_step(x, dx), wrap_step(y, dy)) && self.tile_at(wrap_step(x, dx), wrap_step(y, dy))
            == t
    }

    /// How many of the eight neighbours of `(x, y)` hold `t`.
    pub open spec fn neighbor_count(&self, x: int, y: int, t: Tile) -> int {
        (if self.neighbor_holds(x, y, -1, -1, t) { 1int } else { 0 }) + (if self.neighbor_holds(
            x,
            y,
            0,
            -1,
            t,
        ) { 1int } else { 0 }) + (if self.neighbor_holds(x, y, 1, -1, t) { 1int } else { 0 }) + (
        if self.neighbor_holds(x, y, -1, 0, t) { 1int } else { 0 }) + (if self.neighbor_holds(
            x,
            y,
            1,
            0,
            t,
        ) { 1int } else { 0 }) + (if self.neighbor_holds(x, y, -1, 1, t) { 1int } else { 0 }) + (
        if self.neighbor_holds(x, y, 0, 1, t) { 1int } else { 0 }) + (if self.neighbor_holds(
            x,
            y,
            1,
            1,
            t,
        ) { 1int } else { 0 })
    }

    /// Where the player starts searching for a spawn cell: the centre of the first
    /// room, or the middle of the map when there is none.
    pub open spec fn spawn_center(&self) -> (int, int) {
        if self.rooms@.len() > 0 {
            room_center(self.rooms@[0])
        } else {
            ((MAP_WIDTH / 2) as int, (MAP_HEIGHT / 2) as int)
        }
    }

    /// A map of walls only, without rooms.
    pub fn new() -> (m: DungeonMap)
        ensures
            m.wf(),
            m.rooms@.len() == 0,
            forall|i: int| 0 <= i < MAP_CELLS ==> m.tiles@[i] == Tile::Wall,
    {
        let mut tiles: Vec<Tile> = Vec::new();
        let mut i: usize = 0;
        while i < MAP_CELLS
            invariant
                i <= MAP_CELLS,
                tiles@.len() == i,
                forall|k: int| 0 <= k < i ==> tiles@[k] == Tile::Wall,
            decreases MAP_CELLS - i,
        {
            tiles.push(Tile::Wall);
            i = i + 1;
        }
        DungeonMap { tiles, rooms: Vec::new() }
    }

    /// The tile at `(x, y)`.
    pub fn get(&self, x: usize, y: usize) -> (t: Tile)
        requires
            self.wf(),
            x < MAP_WIDTH,
            y < MAP_HEIGHT,
        ensures
            t == self.tile_at(x as int, y as int),
    {
        self.tiles[y * MAP_WIDTH + x]
    }

    /// Puts `t` at `(x, y)` and leaves every other cell and the rooms as they were.
    pub fn set(&mut self, x: usize, y: usize, t: Tile)
        requires
            old(self).wf(),
            x < MAP_WIDTH,
            y < MAP_HEIGHT,
        ensures
            final(self).wf(),
            final(self).rooms@ == old(self).rooms@,
            final(self).tiles@ == old(self).tiles@.update(cell_index(x as int, y as int), t),
    {
        self.tiles.set(y * MAP_WIDTH + x, t);
    }

    /// Whether `(x, y)` is on the map and may be stood on.
    pub fn is_walkable(&self, x: usize, y: usize) -> (b: bool)
        requires
            self.wf(),
        ensures
            b == self.walkable_at(x as int, y as int),
    {
        x < MAP_WIDTH && y < MAP_HEIGHT && self.get(x, y).walkable()
    }

    /// Number of cells that hold `tile`.
    pub fn count_tile(&self, tile: Tile) -> (n: usize)
        requires
            self.wf(),
        ensures
            n == count_tiles(self.tiles@, tile),
    {
        let mut n: usize = 0;
        let mut i: usize = 0;
        while i < self.tiles.len()
            invariant
                self.wf(),
                i <= self.tiles@.len(),
                n <= i,
                n == count_tiles(self.tiles@.take(i as int), tile),
            decreases self.tiles@.len() - i,
        {
            assert(self.tiles@.take(i + 1).drop_last() =~= self.tiles@.take(i as int));
            if self.tiles[i] == tile {
                n = n + 1;
            }
            i = i + 1;
        }
        assert(self.tiles@.take(self.tiles@.len() as int) =~= self.tiles@);
        n
    }

    fn neighbor_matches(&self, x: usize, y: usize, dx: isize, dy: isize, tile: Tile) -> (b: bool)
        requires
            self.wf(),
        ensures
            b == self.neighbor_holds(x as int, y as int, dx as int, dy as int, tile),
    {
        let nx = x.wrapping_add_signed(dx);
        let ny = y.wrapping_add_signed(dy);
        nx < MAP_WIDTH && ny < MAP_HEIGHT && self.get(nx, ny) == tile
    }

    /// Number of the eight neighbours of `(x, y)` (with `usize` wrap-around) that are
    /// on the map and hold `tile`.
    pub fn count_neighbor_tile(&self, x: usize, y: usize, tile: Tile) -> (n: usize)
        requires
            self.wf(),
        ensures
            n == self.neighbor_count(x as int, y as int, tile),
    {
        let mut n: usize = 0;
        if self.neighbor_matches(x, y, -1, -1, tile) { n = n + 1; }
        if self.neighbor_matches(x, y, 0, -1, tile) { n = n + 1; }
        if self.neighbor_matches(x, y, 1, -1, tile) { n = n + 1; }
        if self.neighbor_matches(x, y, -1, 0, tile) { n = n + 1; }
        if self.neighbor_matches(x, y, 1, 0, tile) { n = n + 1; }
        if self.neighbor_matches(x, y, -1, 1, tile) { n = n + 1; }
        if self.neighbor_matches(x, y, 0, 1, tile) { n = n + 1; }
        if self.neighbor_matches(x, y, 1, 1, tile) { n = n + 1; }
        n
    }

    /// Whether `(x, y)` is at least `min_dist` steps (along the axes) from the centre
    /// of the first room; true when there is no room.
    pub fn is_away_from_spawn(&self, x: usize, y: usize, min_dist: usize) -> (b: bool)
        requires
            self.wf(),
            self.rooms@.len() > 0 ==> manhattan((x as int, y as int), room_center(self.rooms@[0]))
                <= usize::MAX,
        ensures
            b == (self.rooms@.len() == 0 || manhattan(
                (x as int, y as int),
                room_center(self.rooms@[0]),
            ) >= min_dist),
    {
        if self.rooms.len() == 0 {
            return true;
        }
        let (sx, sy) = self.rooms[0].center();
        abs_diff(x, sx) + abs_diff(y, sy) >= min_dist
    }

    /// Floors an L-shaped corridor: along row `from.1` between the two columns, then
    /// along column `to.0` between the two rows. Other cells keep their tile.
    pub fn carve_corridor(&mut self, from: (usize, usize), to: (usize, usize))
        requires
            old(self).wf(),
            from.0 < MAP_WIDTH && from.1 < MAP_HEIGHT,
            to.0 < MAP_WIDTH && to.1 < MAP_HEIGHT,
        ensures
            final(self).wf(),
            final(self).rooms@ == old(self).rooms@,
            forall|x: int, y: int|
                on_map(x, y) ==> #[trigger] final(self).tile_at(x, y) == if corridor_covers(
                    from,
                    to,
                    x,
                    y,
                ) {
                    Tile::Floor
                } else {
                    old(self).tile_at(x, y)
                },
    {
        let (x1, y1) = from;
        let (x2, y2) = to;
        let xa = if x1 <= x2 { x1 } else { x2 };
        let xb = if x1 <= x2 { x2 } else { x1 };
        let ya = if y1 <= y2 { y1 } else { y2 };
        let yb = if y1 <= y2 { y2 } else { y1 };
        let ghost m0 = *self;
        let mut x = xa;
        while x <= xb
            invariant
                self.wf(),
                self.rooms@ == m0.rooms@,
                xa <= x <= xb + 1,
                xb < MAP_WIDTH,
                y1 < MAP_HEIGHT,
                forall|cx: int, cy: int|
                    on_map(cx, cy) ==> #[trigger] self.tile_at(cx, cy) == if cy == y1 && xa <= cx
                        < x {
                        Tile::Floor
                    } else {
                        m0.tile_at(cx, cy)
                    },
            decreases xb + 1 - x,
        {
            let ghost before = *self;
            self.set(x, y1, Tile::Floor);
            proof {
                assert forall|cx: int, cy: int| on_map(cx, cy) implies #[trigger] self.tile_at(cx, cy)
                    == if cy == y1 && xa <= cx < x + 1 {
                    Tile::Floor
                } else {
                    m0.tile_at(cx, cy)
                } by {
                    lemma_cell_index(cx, cy, x as int, y1 as int);
                    assert(before.tile_at(cx, cy) == if cy == y1 && xa <= cx < x { Tile::Floor } else { m0.tile_at(cx, cy) });
                }
            }
            x = x + 1;
        }
        let ghost m1 = *self;
        let mut y = ya;
        while y <= yb
            invariant
                self.wf(),
                self.rooms@ == m0.rooms@,
                ya <= y <= yb + 1,
                yb < MAP_HEIGHT,
                x2 < MAP_WIDTH,
                forall|cx: int, cy: int|
                    on_map(cx, cy) ==> #[trigger] self.tile_at(cx, cy) == if cx == x2 && ya <= cy
                        < y {
                        Tile::Floor
                    } else {
                        m1.tile_at(cx, cy)
                    },
            decreases yb + 1 - y,
        {
            let ghost before = *self;
            self.set(x2, y, Tile::Floor);
            proof {
                assert forall|cx: int, cy: int| on_map(cx, cy) implies #[trigger] self.tile_at(cx, cy)
                    == if cx == x2 && ya <= cy < y + 1 {
                    Tile::Floor
                } else {
                    m1.tile_at(cx, cy)
                } by {
                    lemma_cell_index(cx, cy, x2 as int, y as int);
                    assert(before.tile_at(cx, cy) == if cx == x2 && ya <= cy < y { Tile::Floor } else { m1.tile_at(cx, cy) });
                }
            }
            y = y + 1;
        }
    }

    /// Whether the probe at offset `(dx, dy)` from the spawn centre (with `usize`
    /// wrap-around) is a walkable map cell.
    pub open spec fn probe_ok(&self, dx: int, dy: int) -> bool {
        let c = self.spawn_center();
        self.walkable_at(wrap_step(c.0, dx), wrap_step(c.1, dy))
    }

    /// The first walkable cell of the map, row by row, if any.
    pub fn first_walkable(&self) -> (r: Option<(usize, usize)>)
        requires
            self.wf(),
        ensures
            r is None <==> !(exists|x: int, y: int| #[trigger] self.walkable_at(x, y)),
            r matches Some(p) ==> self.walkable_at(p.0 as int, p.1 as int) && forall|x: int, y: int|
                on_map(x, y) && (y < p.1 || (y == p.1 && x < p.0)) ==> !#[trigger] self.walkable_at(x, y),
    {
        let mut y: usize = 0;
        while y < MAP_HEIGHT
            invariant
                self.wf(),
                y <= MAP_HEIGHT,
                forall|cx: int, cy: int| on_map(cx, cy) && cy < y ==> !#[trigger] self.walkable_at(cx, cy),
            decreases MAP_HEIGHT - y,
        {
            let mut x: usize = 0;
            while x < MAP_WIDTH
                invariant
                    self.wf(),
                    y < MAP_HEIGHT,
                    x <= MAP_WIDTH,
                    forall|cx: int, cy: int|
                        on_map(cx, cy) && (cy < y || (cy == y && cx < x)) ==> !#[trigger] self.walkable_at(cx, cy),
                decreases MAP_WIDTH - x,
            {
                if self.is_walkable(x, y) {
                    return Some((x, y));
                }
                x = x + 1;
            }
            y = y + 1;
        }
        proof {
            assert forall|cx: int, cy: int| !#[trigger] self.walkable_at(cx, cy) by {
                if on_map(cx, cy) {}
            }
        }
        None
    }

    /// The cell where the player appears: the centre of the first room (the middle
    /// of the map without rooms) when it is walkable; else the first walkable cell
    /// met by searching squares of radius 1 to 20 around it, each row by row from the
    /// top and left to right; else the first walkable cell of the map, row by row;
    /// else (a map with no walkable cell) the middle of the map. So the cell is
    /// walkable whenever the map has a walkable cell.
    pub fn spawn_point(&self) -> (p: (usize, usize))
        requires
            self.wf(),
        ensures
            (exists|x: int, y: int| #[trigger] self.walkable_at(x, y)) ==> self.walkable_at(p.0 as int, p.1 as int),
            ({
                let c = self.spawn_center();
                if self.walkable_at(c.0, c.1) {
                    p.0 == c.0 && p.1 == c.1
                } else if exists|dx: int, dy: int|
                    1 <= cheb(dx, dy) <= 20 && #[trigger] self.probe_ok(dx, dy) {
                    exists|dx: int, dy: int|
                        1 <= cheb(dx, dy) <= 20 && #[trigger] self.probe_ok(dx, dy) && p.0
                            == wrap_step(c.0, dx) && p.1 == wrap_step(c.1, dy) && forall|
                            dx2: int,
                            dy2: int,
                        |
                            1 <= cheb(dx2, dy2) && probe_before(dx2, dy2, dx, dy)
                                ==> !#[trigger] self.probe_ok(dx2, dy2)
                } else if exists|x: int, y: int| #[trigger] self.walkable_at(x, y) {
                    self.walkable_at(p.0 as int, p.1 as int) && forall|x: int, y: int|
                        on_map(x, y) && (y < p.1 || (y == p.1 && x < p.0)) ==> !#[trigger] self.walkable_at(x, y)
                } else {
                    p.0 == MAP_WIDTH / 2 && p.1 == MAP_HEIGHT / 2
                }
            }),
    {
        let (cx, cy) = if self.rooms.len() > 0 {
            self.rooms[0].center()
        } else {
            (MAP_WIDTH / 2, MAP_HEIGHT / 2)
        };
        if cx < MAP_WIDTH && cy < MAP_HEIGHT && self.get(cx, cy).walkable() {
            return (cx, cy);
        }
        let ghost c = self.spawn_center();
        let mut r: isize = 1;
        while r <= 20
            invariant
                self.wf(),
                1 <= r <= 21,
                c == self.spawn_center(),
                cx == c.0 && cy == c.1,
                !self.walkable_at(c.0, c.1),
                forall|dx2: int, dy2: int|
                    1 <= cheb(dx2, dy2) < r ==> !#[trigger] self.probe_ok(dx2, dy2),
            decreases 21 - r,
        {
            let mut dy: isize = -r;
            while dy <= r
                invariant
                    self.wf(),
                    1 <= r <= 20,
                    -r <= dy <= r + 1,
                    c == self.spawn_center(),
                    cx == c.0 && cy == c.1,
                    !self.walkable_at(c.0, c.1),
                    forall|dx2: int, dy2: int|
                        1 <= cheb(dx2, dy2) && (cheb(dx2, dy2) < r || (cheb(dx2, dy2) <= r && dy2
                            < dy)) ==> !#[trigger] self.probe_ok(dx2, dy2),
                decreases r + 1 - dy,
            {
                let mut dx: isize = -r;
                while dx <= r
                    invariant
                        self.wf(),
                        1 <= r <= 20,
                        -r <= dy <= r,
                        -r <= dx <= r + 1,
                        c == self.spawn_center(),
                        cx == c.0 && cy == c.1,
                        !self.walkable_at(c.0, c.1),
                        forall|dx2: int, dy2: int|
                            1 <= cheb(dx2, dy2) && (cheb(dx2, dy2) < r || (cheb(dx2, dy2) <= r && (
                            dy2 < dy || (dy2 == dy && dx2 < dx)))) ==> !#[trigger] self.probe_ok(
                                dx2,
                                dy2,
                            ),
                    decreases r + 1 - dx,
                {
                    if !(dx == 0 && dy == 0) {
                        let nx = cx.wrapping_add_signed(dx);
                        let ny = cy.wrapping_add_signed(dy);
                        if nx < MAP_WIDTH && ny < MAP_HEIGHT && self.get(nx, ny).walkable() {
                            proof {
                                assert(self.probe_ok(dx as int, dy as int));
                                assert(cheb(dx as int, dy as int) == r);
                                assert forall|dx2: int, dy2: int|
                                    1 <= cheb(dx2, dy2) && probe_before(
                                        dx2,
                                        dy2,
                                        dx as int,
                                        dy as int,
                                    ) implies !#[trigger] self.probe_ok(dx2, dy2) by {}
                            }
                            return (nx, ny);
                        }
                    }
                    dx = dx + 1;
                }
                dy = dy + 1;
            }
            r = r + 1;
        }
        match self.first_walkable() {
            Some(p) => p,
            None => (MAP_WIDTH / 2, MAP_HEIGHT / 2),
        }
    }

    /// The centre of a room farthest (along the axes) from `point`; of equally far
    /// rooms the last one. None when there is no room.
    pub fn farthest_room_from(&self, point: (usize, usize)) -> (r: Option<(usize, usize)>)
        requires
            self.wf(),
            forall|k: int|
                0 <= k < self.rooms@.len() ==> manhattan(
                    room_center(#[trigger] self.rooms@[k]),
                    (point.0 as int, point.1 as int),
                ) <= usize::MAX,
        ensures
            r is None <==> self.rooms@.len() == 0,
            r matches Some(c) ==> exists|k: int|
                0 <= k < self.rooms@.len() && c.0 == room_center(self.rooms@[k]).0 && c.1
                    == room_center(self.rooms@[k]).1 && (forall|j: int|
                    0 <= j < self.rooms@.len() ==> self.room_distance(j, point) <= self.room_distance(
                        k,
                        point,
                    )) && (forall|j: int|
                    k < j < self.rooms@.len() ==> self.room_distance(j, point) < self.room_distance(
                        k,
                        point,
                    )),
    {
        let mut best: Option<(usize, usize)> = None;
        let mut best_d: usize = 0;
        let ghost mut best_k: int = 0;
        let mut i: usize = 0;
        while i < self.rooms.len()
            invariant
                self.wf(),
                i <= self.rooms@.len(),
                forall|k: int|
                    0 <= k < self.rooms@.len() ==> manhattan(
                        room_center(#[trigger] self.rooms@[k]),
                        (point.0 as int, point.1 as int),
                    ) <= usize::MAX,
                best is None <==> i == 0,
                best matches Some(c) ==> 0 <= best_k < i && c.0 == room_center(self.rooms@[best_k]).0
                    && c.1 == room_center(self.rooms@[best_k]).1 && best_d == self.room_distance(
                    best_k,
                    point,
                ) && (forall|j: int| 0 <= j < i ==> self.room_distance(j, point) <= best_d) && (
                forall|j: int| best_k < j < i ==> self.room_distance(j, point) < best_d),
            decreases self.rooms@.len() - i,
        {
            assert(room_fits(self.rooms@[i as int]));
            let c = self.rooms[i].center();
            assert(manhattan(room_center(self.rooms@[i as int]), (point.0 as int, point.1 as int)) <= usize::MAX);
            let d = abs_diff(c.0, point.0) + abs_diff(c.1, point.1);
            if best.is_none() || d >= best_d {
                best = Some(c);
                best_d = d;
                proof { best_k = i as int; }
            }
            i = i + 1;
        }
        best
    }

    /// Distance along the axes from the centre of room `k` to `p`.
    pub open spec fn room_distance(&self, k: int, p: (usize, usize)) -> int {
        manhattan(room_center(self.rooms@[k]), (p.0 as int, p.1 as int))
    }

    /// The rows of the map as text, one glyph per cell.
    pub fn render(&self) -> (rows: Vec<String>)
        requires
            self.wf(),
        ensures
            rows@.len() == MAP_HEIGHT,
            forall|r: int|
                0 <= r < MAP_HEIGHT ==> #[trigger] rows@[r]@ == Seq::new(
                    MAP_WIDTH as nat,
                    |c: int| tile_glyph(self.tile_at(c, r)),
                ),
    {
        let mut rows: Vec<String> = Vec::new();
        let mut r: usize = 0;
        while r < MAP_HEIGHT
            invariant
                self.wf(),
                r <= MAP_HEIGHT,
                rows@.len() == r,
                forall|k: int|
                    0 <= k < r ==> #[trigger] rows@[k]@ == Seq::new(
                        MAP_WIDTH as nat,
                        |c: int| tile_glyph(self.tile_at(c, k)),
                    ),
            decreases MAP_HEIGHT - r,
        {
            let mut line = String::new();
            let mut c: usize = 0;
            while c < MAP_WIDTH
                invariant
                    self.wf(),
                    r < MAP_HEIGHT,
                    c <= MAP_WIDTH,
                    line@ == Seq::new(c as nat, |k: int| tile_glyph(self.tile_at(k, r as int))),
                decreases MAP_WIDTH - c,
            {
                let g = self.get(c, r).glyph();
                push_char(&mut line, g);
                assert(line@ =~= Seq::new((c + 1) as nat, |k: int| tile_glyph(self.tile_at(k, r as int))));
                c = c + 1;
            }
            rows.push(line);
            r = r + 1;
        }
        rows
    }
}

/// Whether the L-shaped corridor from `from` to `to` covers `(x, y)`.
pub open spec fn corridor_covers(from: (usize, usize), to: (usize, usize), x: int, y: int) -> bool {
    let xa = if from.0 <= to.0 { from.0 } else { to.0 };
    let xb = if from.0 <= to.0 { to.0 } else { from.0 };
    let ya = if from.1 <= to.1 { from.1 } else { to.1 };
    let yb = if from.1 <= to.1 { to.1 } else { from.1 };
    (y == from.1 && xa <= x <= xb) || (x == to.0 && ya <= y <= yb)
}

/// Chebyshev radius of an offset.
pub open spec fn cheb(dx: int, dy: int) -> int {
    if abs_int(dx) >= abs_int(dy) { abs_int(dx) } else { abs_int(dy) }
}

/// Whether the spawn search looks at offset `(dx2, dy2)` before `(dx, dy)`: on a
/// smaller square, or on the same square in an earlier row, or earlier in the row.
pub open spec fn probe_before(dx2: int, dy2: int, dx: int, dy: int) -> bool {
    cheb(dx2, dy2) < cheb(dx, dy) || (cheb(dx2, dy2) == cheb(dx, dy) && (dy2 < dy || (dy2 == dy
        && dx2 < dx)))
}

/// Distance between two numbers.
pub fn abs_diff(a: usize, b: usize) -> (d: usize)
    ensures
        d == abs_int(a - b),
{
    if a >= b { a - b } else { b - a }
}

} // verus!
