use vstd::prelude::*;
use crate::tile::{MAP_WIDTH, MAP_HEIGHT};

verus! {

/// The outline of a room.
#[derive(Clone, Copy, Debug, PartialEq, Eq, Structural)]
pub enum RoomShape {
    Rect,
    Circle,
    Diamond,
    Ellipse,
}

impl Default for RoomShape {
    fn default() -> (s: Self)
        ensures
            s == RoomShape::Rect,
    {
        RoomShape::Rect
    }
}

/// A room: for `Rect` the corner `(x, y)` and size `w` by `h`; for the round
/// shapes the centre `(x, y)`, with radius `w` (and `h` as the second radius
/// of an ellipse).
#[derive(Clone, Copy, Debug, PartialEq, Eq, Structural)]
pub struct Room {
    pub x: usize,
    pub y: usize,
    pub w: usize,
    pub h: usize,
    pub shape: RoomShape,
}


/// The centre of a room.
pub open spec fn room_center(r: Room) -> (int, int) {
    match r.shape {
        RoomShape::Rect => (r.x + r.w / 2, r.y + r.h / 2),
        _ => (r.x as int, r.y as int),
    }
}

/// Whether the room's arithmetic fits machine integers.
pub open spec fn room_fits(r: Room) -> bool {
    match r.shape {
        RoomShape::Rect => r.x + r.w <= usize::MAX && r.y + r.h <= usize::MAX,
        RoomShape::Circle => r.x + r.w <= isize::MAX && r.y + r.w <= isize::MAX && r.w * r.w <= isize::MAX,
        RoomShape::Diamond => r.x + r.w <= isize::MAX && r.y + r.w <= isize::MAX && 2 * r.w <= isize::MAX,
        RoomShape::Ellipse => r.x + r.w <= isize::MAX && r.y + r.h <= isize::MAX && ellipse_axis(r.w)
            * ellipse_axis(r.h) <= isize::MAX,
    }
}

/// An ellipse's half-axis: its radius, at least 1.
pub open spec fn ellipse_axis(n: usize) -> int {
    if n >= 1 { n as int } else { 1 }
}

pub open spec fn abs_int(v: int) -> int {
    if v < 0 { -v } else { v }
}

/// Whether the cell `(px, py)` lies inside the room's outline (map bounds aside).
pub open spec fn room_covers(r: Room, px: int, py: int) -> bool {
    let dx = px - r.x;
    let dy = py - r.y;
    match r.shape {
        RoomShape::Rect => r.x <= px < r.x + r.w && r.y <= py < r.y + r.h,
        RoomShape::Circle => abs_int(dx) <= r.w && abs_int(dy) <= r.w && dx * dx + dy * dy
            <= r.w * r.w,
        RoomShape::Diamond => abs_int(dx) <= r.w && abs_int(dy) <= r.w && abs_int(dx) + abs_int(
            dy,
        ) <= r.w,
        RoomShape::Ellipse => {
            let a = if r.w >= 1 { r.w as int } else { 1 };
            let b = if r.h >= 1 { r.h as int } else { 1 };
            abs_int(dx) <= r.w && abs_int(dy) <= r.h && dx * dx * (b * b) + dy * dy * (a * a) <= a
                * a * (b * b)
        },
    }
}

pub open spec fn on_map(px: int, py: int) -> bool {
    0 <= px < MAP_WIDTH && 0 <= py < MAP_HEIGHT
}

/// Row-major order of cells: by row, then by column.
pub open spec fn cell_before(a: (usize, usize), b: (usize, usize)) -> bool {
    a.1 < b.1 || (a.1 == b.1 && a.0 < b.0)
}

/// `cells` lists exactly the map cells that the room covers, each once, in row-major order.
pub open spec fn lists_room_cells(r: Room, cells: Seq<(usize, usize)>) -> bool {
    &&& forall|i: int| 0 <= i < cells.len() ==> on_map(cells[i].0 as int, cells[i].1 as int)
        && room_covers(r, cells[i].0 as int, cells[i].1 as int)
    &&& forall|i: int, j: int| 0 <= i < j < cells.len() ==> cell_before(cells[i], cells[j])
    &&& forall|px: int, py: int| on_map(px, py) && room_covers(r, px, py) ==> cells.contains(
        (px as usize, py as usize),
    )
}

impl Room {
    /// The room's centre: corner plus half the size for a rectangle, `(x, y)` otherwise.
    pub fn center(&self) -> (c: (usize, usize))
        requires
            room_fits(*self),
        ensures
            c.0 == room_center(*self).0,
            c.1 == room_center(*self).1,
    {
        match self.shape {
            RoomShape::Rect => (self.x + self.w / 2, self.y + self.h / 2),
            _ => (self.x, self.y),
        }
    }

    /// Every map cell that the room covers, in row-major order.
    pub fn tiles(&self) -> (t: Vec<(usize, usize)>)
        requires
            room_fits(*self),
        ensures
            lists_room_cells(*self, t@),
    {
        let (rx, ry) = match self.shape {
            RoomShape::Ellipse => (self.w, self.h),
            _ => (self.w, self.w),
        };
        let (x0, x1, y0, y1) = match self.shape {
            RoomShape::Rect => (
                min_usize(self.x, MAP_WIDTH),
                min_usize(self.x + self.w, MAP_WIDTH),
                min_usize(self.y, MAP_HEIGHT),
                min_usize(self.y + self.h, MAP_HEIGHT),
            ),
            _ => (
                if self.x >= rx { min_usize(self.x - rx, MAP_WIDTH) } else { 0 },
                min_usize(self.x + rx + 1, MAP_WIDTH),
                if self.y >= ry { min_usize(self.y - ry, MAP_HEIGHT) } else { 0 },
                min_usize(self.y + ry + 1, MAP_HEIGHT),
            ),
        };
        self.collect_cells(x0, x1, y0, y1)
    }

    /// Whether the map cell `(px, py)` lies inside the room's outline.
    pub fn covers(&self, px: usize, py: usize) -> (b: bool)
        requires
            room_fits(*self),
            px < MAP_WIDTH,
            py < MAP_HEIGHT,
        ensures
            b == room_covers(*self, px as int, py as int),
    {
        match self.shape {
            RoomShape::Rect => self.x <= px && px < self.x + self.w && self.y <= py && py
                < self.y + self.h,
            _ => {
                let dx: i128 = px as i128 - self.x as i128;
                let dy: i128 = py as i128 - self.y as i128;
                let adx: i128 = if dx < 0 { -dx } else { dx };
                let ady: i128 = if dy < 0 { -dy } else { dy };
                let w: i128 = self.w as i128;
                let h: i128 = self.h as i128;
                proof {
                    assert(dx * dx == adx * adx && dy * dy == ady * ady) by (nonlinear_arith)
                        requires adx == dx || adx == -dx, ady == dy || ady == -dy;
                }
                match self.shape {
                    RoomShape::Circle => {
                        if adx > w || ady > w {
                            false
                        } else {
                            proof {
                                lemma_square_within(adx as int, w as int);
                                lemma_square_within(ady as int, w as int);
                            }
                            adx * adx + ady * ady <= w * w
                        }
                    },
                    RoomShape::Diamond => adx <= w && ady <= w && adx + ady <= w,
                    _ => {
                        if adx > w || ady > h {
                            false
                        } else {
                            let a: i128 = if w >= 1 { w } else { 1 };
                            let b: i128 = if h >= 1 { h } else { 1 };
                            proof { lemma_ellipse_bounds(adx as int, ady as int, a as int, b as int); }
                            adx * adx * (b * b) + ady * ady * (a * a) <= a * a * (b * b)
                        }
                    },
                }
            },
        }
    }

    /// Collects, row by row, the covered cells of the window `[x0, x1) x [y0, y1)`,
    /// which holds every covered map cell.
    fn collect_cells(&self, x0: usize, x1: usize, y0: usize, y1: usize) -> (t: Vec<(usize, usize)>)
        requires
            room_fits(*self),
            x1 <= MAP_WIDTH,
            y1 <= MAP_HEIGHT,
            forall|px: int, py: int|
                on_map(px, py) && room_covers(*self, px, py) ==> x0 <= px < x1 && y0 <= py < y1,
        ensures
            lists_room_cells(*self, t@),
    {
        let mut t: Vec<(usize, usize)> = Vec::new();
        let mut y = y0;
        while y < y1
            invariant
                room_fits(*self),
                x1 <= MAP_WIDTH,
                y1 <= MAP_HEIGHT,
                forall|px: int, py: int|
                    on_map(px, py) && room_covers(*self, px, py) ==> x0 <= px < x1 && y0 <= py < y1,
                forall|i: int| 0 <= i < t@.len() ==> on_map(t@[i].0 as int, t@[i].1 as int)
                    && room_covers(*self, t@[i].0 as int, t@[i].1 as int) && t@[i].1 < y,
                forall|i: int, j: int| 0 <= i < j < t@.len() ==> cell_before(t@[i], t@[j]),
                forall|px: int, py: int|
                    on_map(px, py) && room_covers(*self, px, py) && py < y ==> t@.contains(
                        (px as usize, py as usize),
                    ),
            decreases y1 - y,
        {
            let mut x = x0;
            let ghost t0 = t@;
            while x < x1
                invariant
                    room_fits(*self),
                    x1 <= MAP_WIDTH,
                    y1 <= MAP_HEIGHT,
                    y < y1,
                    forall|px: int, py: int|
                        on_map(px, py) && room_covers(*self, px, py) ==> x0 <= px < x1 && y0 <= py
                            < y1,
                    t0.len() <= t@.len(),
                    forall|i: int| 0 <= i < t0.len() ==> t@[i] == t0[i],
                    forall|i: int| 0 <= i < t0.len() ==> t0[i].1 < y,
                    forall|i: int| t0.len() <= i < t@.len() ==> t@[i].1 == y && t@[i].0 < x,
                    forall|i: int| 0 <= i < t@.len() ==> on_map(t@[i].0 as int, t@[i].1 as int)
                        && room_covers(*self, t@[i].0 as int, t@[i].1 as int),
                    forall|i: int, j: int| 0 <= i < j < t@.len() ==> cell_before(t@[i], t@[j]),
                    forall|px: int, py: int|
                        on_map(px, py) && room_covers(*self, px, py) && py < y ==> t0.contains(
                            (px as usize, py as usize),
                        ),
                    forall|px: int|
                        on_map(px, y as int) && room_covers(*self, px, y as int) && px < x
                            ==> t@.contains((px as usize, y)),
                decreases x1 - x,
            {
                let ghost tb = t@;
                if self.covers(x, y) {
                    t.push((x, y));
                    proof {
                        assert forall|i: int| 0 <= i < tb.len() implies cell_before(
                            tb[i],
                            (x, y),
                        ) by {
                            if i < t0.len() {
                                assert(tb[i] == t0[i]);
                            }
                        }
                        assert forall|i: int, j: int| 0 <= i < j < t@.len() implies cell_before(
                            t@[i],
                            t@[j],
                        ) by {
                            if j == t@.len() - 1 {
                                assert(t@[i] == tb[i]);
                            } else {
                                assert(t@[i] == tb[i] && t@[j] == tb[j]);
                            }
                        }
                    }
                }
                proof {
                    assert forall|px: int|
                        on_map(px, y as int) && room_covers(*self, px, y as int) && px < x + 1
                            implies t@.contains((px as usize, y)) by {
                        if px == x {
                            assert(t@[t@.len() - 1] == (x, y));
                        } else {
                            let k = choose|k: int| 0 <= k < tb.len() && tb[k] == (px as usize, y);
                            assert(t@[k] == tb[k]);
                        }
                    }
                }
                x = x + 1;
            }
            proof {
                assert forall|i: int| 0 <= i < t@.len() implies t@[i].1 < y + 1 by {
                    if i < t0.len() {
                        assert(t@[i] == t0[i]);
                    }
                }
                assert forall|px: int, py: int|
                    on_map(px, py) && room_covers(*self, px, py) && py < y + 1 implies t@.contains(
                        (px as usize, py as usize),
                    ) by {
                    if py < y {
                        let k = choose|k: int| 0 <= k < t0.len() && t0[k] == (px as usize, py as usize);
                        assert(t@[k] == t0[k]);
                    }
                }
            }
            y = y + 1;
        }
        t
    }
}

fn min_usize(a: usize, b: usize) -> (m: usize)
    ensures
        m == if a <= b { a } else { b },
{
    if a <= b { a } else { b }
}

proof fn lemma_ellipse_bounds(dx: int, dy: int, a: int, b: int)
    requires
        0 <= dx <= a,
        0 <= dy <= b,
        1 <= a,
        1 <= b,
        a * b <= 0x7fff_ffff_ffff_ffff,
    ensures
        0 <= dx * dx <= a * a,
        0 <= dy * dy <= b * b,
        0 <= dx * dx * (b * b) <= a * a * (b * b),
        0 <= dy * dy * (a * a) <= a * a * (b * b),
        a * a * (b * b) <= 0x3fff_ffff_ffff_ffff_0000_0000_0000_0001,
        b * b <= a * a * (b * b),
        a * a <= a * a * (b * b),
{
    assert(0 <= dx * dx <= a * a) by (nonlinear_arith)
        requires 0 <= dx <= a;
    assert(0 <= dy * dy <= b * b) by (nonlinear_arith)
        requires 0 <= dy <= b;
    assert(1 <= a * a && 1 <= b * b) by (nonlinear_arith)
        requires 1 <= a, 1 <= b;
    assert(0 <= dx * dx * (b * b) <= a * a * (b * b)) by (nonlinear_arith)
        requires 0 <= dx * dx <= a * a, 1 <= b * b;
    assert(0 <= dy * dy * (a * a) <= b * b * (a * a)) by (nonlinear_arith)
        requires 0 <= dy * dy <= b * b, 1 <= a * a;
    assert(b * b * (a * a) == a * a * (b * b)) by (nonlinear_arith);
    assert(a * a * (b * b) == (a * b) * (a * b)) by (nonlinear_arith);
    assert((a * b) * (a * b) <= 0x7fff_ffff_ffff_ffff * 0x7fff_ffff_ffff_ffff) by (nonlinear_arith)
        requires 0 <= a * b <= 0x7fff_ffff_ffff_ffff;
    assert(b * b <= a * a * (b * b)) by (nonlinear_arith)
        requires 1 <= a * a, 0 <= b * b;
    assert(a * a <= a * a * (b * b)) by (nonlinear_arith)
        requires 1 <= b * b, 0 <= a * a;
}

/// A number within `w` squares to within `w * w`, which stays small when `w * w` does.
proof fn lemma_square_within(d: int, w: int)
    requires
        0 <= d <= w,
        w * w <= 0x7fff_ffff_ffff_ffff,
    ensures
        0 <= d * d <= w * w,
{
    assert(0 <= d * d <= w * w) by (nonlinear_arith)
        requires 0 <= d <= w;
}

} // verus!
