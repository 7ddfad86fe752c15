use vstd::prelude::*;
use crate::tile::{Tile, MAP_WIDTH, MAP_HEIGHT, VIEWPORT_WIDTH, VIEWPORT_HEIGHT, tile_glyph, tile_fg, tile_bg};
use crate::room::on_map;
use crate::map::{DungeonMap, cell_index, MAP_CELLS, lemma_cell_index};
use crate::screens::ThrowPreview;
use crate::ranking::{first_top, ranked, lemma_first_top};

verus! {

/// Something drawn on the map: where, its character and colour, and its layer
/// (0 items and stairs, 1 monsters, 2 the player; higher layers are drawn over
/// lower ones).
#[derive(Clone, Copy, Debug)]
pub struct Sprite {
    pub x: usize,
    pub y: usize,
    pub glyph: char,
    pub color: (u8, u8, u8),
    pub layer: u8,
}

/// An entity as last seen: its id, cell, character and colour.
#[derive(Clone, Copy, Debug)]
pub struct Sighting {
    pub entity: u64,
    pub x: usize,
    pub y: usize,
    pub glyph: char,
    pub color: (u8, u8, u8),
}

/// How a character is inked: a tile in view or remembered (to be faded), the dark
/// of unseen ground, an entity's own colour, the grey of a remembered entity, or a
/// throw's line (valid or not).
#[derive(Clone, Copy, Debug)]
pub enum Fore {
    Lit((u8, u8, u8)),
    Faded((u8, u8, u8)),
    Unseen,
    Sprite((u8, u8, u8)),
    Remembered,
    Trail(bool),
}

/// The ground behind a character: a tile's colour in view or faded, none, or the
/// look cursor.
#[derive(Clone, Copy, Debug)]
pub enum Back {
    Lit((u8, u8, u8)),
    Faded((u8, u8, u8)),
    Plain,
    Cursor,
}

/// One cell of the drawn map.
#[derive(Clone, Copy, Debug)]
pub struct ViewCell {
    pub glyph: char,
    pub fore: Fore,
    pub back: Back,
}

/// The first map column or row shown for a centre coordinate `c`: half a viewport
/// before it, kept within the map.
pub open spec fn view_origin(c: int, view: int, size: int) -> int {
    let a = if c >= view / 2 { c - view / 2 } else { 0 };
    if a < size - view { a } else { size - view }
}

/// A cell as the ground shows it: a tile in view, a remembered tile, or unseen dark.
pub open spec fn base_cell(map: DungeonMap, explored: Seq<bool>, visible: Seq<(usize, usize)>, x: int, y: int) -> ViewCell {
    let t = map.tile_at(x, y);
    if visible.contains((x as usize, y as usize)) {
        ViewCell {
            glyph: tile_glyph(t),
            fore: Fore::Lit(tile_fg(t)),
            back: match tile_bg(t) {
                Some(c) => Back::Lit(c),
                None => Back::Plain,
            },
        }
    } else if explored[cell_index(x, y)] {
        ViewCell {
            glyph: tile_glyph(t),
            fore: Fore::Faded(tile_fg(t)),
            back: match tile_bg(t) {
                Some(c) => Back::Faded(c),
                None => Back::Plain,
            },
        }
    } else {
        ViewCell { glyph: ' ', fore: Fore::Unseen, back: Back::Plain }
    }
}

/// `c` with the sprites in view drawn over it in order (later ones on top).
pub open spec fn with_sprites(c: ViewCell, sprites: Seq<Sprite>, visible: Seq<(usize, usize)>, x: int, y: int) -> ViewCell
    decreases sprites.len(),
{
    if sprites.len() == 0 {
        c
    } else {
        let below = with_sprites(c, sprites.drop_last(), visible, x, y);
        let s = sprites.last();
        if s.x == x && s.y == y && visible.contains((x as usize, y as usize)) {
            ViewCell { glyph: s.glyph, fore: Fore::Sprite(s.color), back: below.back }
        } else {
            below
        }
    }
}

/// `c` with the remembered entities out of view but on explored ground drawn over it,
/// in order.
pub open spec fn with_memory(
    c: ViewCell,
    memory: Seq<Sighting>,
    visible: Seq<(usize, usize)>,
    explored: Seq<bool>,
    x: int,
    y: int,
) -> ViewCell
    decreases memory.len(),
{
    if memory.len() == 0 {
        c
    } else {
        let below = with_memory(c, memory.drop_last(), visible, explored, x, y);
        let m = memory.last();
        if m.x == x && m.y == y && !visible.contains((x as usize, y as usize)) && explored[cell_index(x, y)] {
            ViewCell { glyph: m.glyph, fore: Fore::Remembered, back: below.back }
        } else {
            below
        }
    }
}

/// A cell's ground with the sprites in view drawn over it.
pub open spec fn lit_cell(
    map: DungeonMap,
    explored: Seq<bool>,
    visible: Seq<(usize, usize)>,
    sprites: Seq<Sprite>,
    x: int,
    y: int,
) -> ViewCell {
    with_sprites(base_cell(map, explored, visible, x, y), sprites, visible, x, y)
}

/// A lit cell with the remembered entities drawn over it.
pub open spec fn remembered_cell(
    map: DungeonMap,
    explored: Seq<bool>,
    visible: Seq<(usize, usize)>,
    sprites: Seq<Sprite>,
    memory: Seq<Sighting>,
    x: int,
    y: int,
) -> ViewCell {
    with_memory(lit_cell(map, explored, visible, sprites, x, y), memory, visible, explored, x, y)
}

/// A remembered cell with the look cursor's background where the cursor is.
pub open spec fn cursor_cell(
    map: DungeonMap,
    explored: Seq<bool>,
    visible: Seq<(usize, usize)>,
    sprites: Seq<Sprite>,
    memory: Seq<Sighting>,
    cursor: Option<(usize, usize)>,
    x: int,
    y: int,
) -> ViewCell {
    let c = remembered_cell(map, explored, visible, sprites, memory, x, y);
    if cursor == Some((x as usize, y as usize)) {
        ViewCell { back: Back::Cursor, ..c }
    } else {
        c
    }
}

/// The drawn cell at map cell `(x, y)`: the ground, then the sprites in view, then
/// remembered entities, then the look cursor's background, then an active throw's
/// line as `*`.
pub open spec fn view_cell(
    map: DungeonMap,
    explored: Seq<bool>,
    visible: Seq<(usize, usize)>,
    sprites: Seq<Sprite>,
    memory: Seq<Sighting>,
    cursor: Option<(usize, usize)>,
    aim: ThrowPreview,
    x: int,
    y: int,
) -> ViewCell {
    if aim.active && aim.path@.contains((x as usize, y as usize)) {
        ViewCell { glyph: '*', fore: Fore::Trail(aim.valid_target), back: Back::Plain }
    } else {
        cursor_cell(map, explored, visible, sprites, memory, cursor, x, y)
    }
}

/// The map as drawn: the viewport's first column and row, and its cells row by row.
pub struct MapView {
    pub origin: (usize, usize),
    pub cells: Vec<ViewCell>,
}

/// Whether `cells` holds `c`.
fn holds(cells: &Vec<(usize, usize)>, c: (usize, usize)) -> (b: bool)
    ensures
        b == cells@.contains(c),
{
    let mut i: usize = 0;
    while i < cells.len()
        invariant
            i <= cells@.len(),
            forall|k: int| 0 <= k < i ==> cells@[k] != c,
        decreases cells@.len() - i,
    {
        let d = cells[i];
        if d.0 == c.0 && d.1 == c.1 {
            assert(cells@[i as int] == c);
            return true;
        }
        i = i + 1;
    }
    false
}

/// The first shown coordinate for centre `c` (see [`view_origin`]).
fn origin_of(c: usize, view: usize, size: usize) -> (a: usize)
    requires
        view <= size,
    ensures
        a == view_origin(c as int, view as int, size as int),
{
    let a = if c >= view / 2 { c - view / 2 } else { 0 };
    if a < size - view { a } else { size - view }
}

/// Cell `(vx, vy)` of the viewport sits at its own place among the cells.
proof fn lemma_view_index(vx: int, vy: int, vx2: int, vy2: int)
    requires
        0 <= vx < VIEWPORT_WIDTH,
        0 <= vy < VIEWPORT_HEIGHT,
        0 <= vx2 < VIEWPORT_WIDTH,
        0 <= vy2 < VIEWPORT_HEIGHT,
    ensures
        0 <= vy * VIEWPORT_WIDTH + vx < VIEWPORT_WIDTH * VIEWPORT_HEIGHT,
        vy * VIEWPORT_WIDTH + vx == vy2 * VIEWPORT_WIDTH + vx2 ==> vx == vx2 && vy == vy2,
{
}

/// Viewport cell `(vx, vy)` of the cells `v`, row by row.
pub open spec fn view_at(v: Seq<ViewCell>, vx: int, vy: int) -> ViewCell {
    v[vy * VIEWPORT_WIDTH + vx]
}

/// Whether `(vx, vy)` is a viewport cell.
pub open spec fn in_view(vx: int, vy: int) -> bool {
    0 <= vx < VIEWPORT_WIDTH && 0 <= vy < VIEWPORT_HEIGHT
}

/// The ground of map cell `(x, y)` (see [`base_cell`]).
fn ground_cell(map: &DungeonMap, explored: &Vec<bool>, visible: &Vec<(usize, usize)>, x: usize, y: usize) -> (c: ViewCell)
    requires
        map.wf(),
        explored@.len() == MAP_CELLS,
        on_map(x as int, y as int),
    ensures
        c == base_cell(*map, explored@, visible@, x as int, y as int),
{
    let t = map.get(x, y);
    proof {
        lemma_cell_index(x as int, y as int, 0, 0);
    }
    if holds(visible, (x, y)) {
        let back = match t.bg_color() {
            Some(c) => Back::Lit(c),
            None => Back::Plain,
        };
        ViewCell { glyph: t.glyph(), fore: Fore::Lit(t.fg_color()), back }
    } else if explored[y * MAP_WIDTH + x] {
        let back = match t.bg_color() {
            Some(c) => Back::Faded(c),
            None => Back::Plain,
        };
        ViewCell { glyph: t.glyph(), fore: Fore::Faded(t.fg_color()), back }
    } else {
        ViewCell { glyph: ' ', fore: Fore::Unseen, back: Back::Plain }
    }
}

/// Draws the remembered entities over the lit cells of the viewport at `(ox, oy)`.
fn overlay_memory(
    cells: &mut Vec<ViewCell>,
    ox: usize,
    oy: usize,
    map: &DungeonMap,
    explored: &Vec<bool>,
    visible: &Vec<(usize, usize)>,
    sprites: &Vec<Sprite>,
    memory: &Vec<Sighting>,
)
    requires
        ox + VIEWPORT_WIDTH <= MAP_WIDTH,
        oy + VIEWPORT_HEIGHT <= MAP_HEIGHT,
        explored@.len() == MAP_CELLS,
        old(cells)@.len() == VIEWPORT_WIDTH * VIEWPORT_HEIGHT,
        forall|a: int, b: int|
            in_view(a, b) ==> #[trigger] view_at(old(cells)@, a, b) == lit_cell(*map, explored@, visible@, sprites@, ox + a, oy + b),
    ensures
        final(cells)@.len() == VIEWPORT_WIDTH * VIEWPORT_HEIGHT,
        forall|a: int, b: int|
            in_view(a, b) ==> #[trigger] view_at(final(cells)@, a, b) == remembered_cell(
                *map,
                explored@,
                visible@,
                sprites@,
                memory@,
                ox + a,
                oy + b,
            ),
{
    let mut k: usize = 0;
    while k < memory.len()
        invariant
            k <= memory@.len(),
            ox + VIEWPORT_WIDTH <= MAP_WIDTH,
            oy + VIEWPORT_HEIGHT <= MAP_HEIGHT,
            explored@.len() == MAP_CELLS,
            cells@.len() == VIEWPORT_WIDTH * VIEWPORT_HEIGHT,
            forall|a: int, b: int|
                in_view(a, b) ==> #[trigger] view_at(cells@, a, b) == with_memory(
                    lit_cell(*map, explored@, visible@, sprites@, ox + a, oy + b),
                    memory@.take(k as int),
                    visible@,
                    explored@,
                    ox + a,
                    oy + b,
                ),
        decreases memory@.len() - k,
    {
        let m = memory[k];
        let ghost before = cells@;
        proof {
            assert(memory@.take(k + 1).drop_last() =~= memory@.take(k as int));
            assert(memory@.take(k + 1).last() == m);
        }
        let inside = m.x >= ox && m.x < ox + VIEWPORT_WIDTH && m.y >= oy && m.y < oy + VIEWPORT_HEIGHT;
        let shown = inside && !holds(visible, (m.x, m.y)) && explored[m.y * MAP_WIDTH + m.x];
        if shown {
            let i = (m.y - oy) * VIEWPORT_WIDTH + (m.x - ox);
            proof {
                lemma_view_index((m.x - ox) as int, (m.y - oy) as int, 0, 0);
            }
            let cur = cells[i];
            let nv = ViewCell { glyph: m.glyph, fore: Fore::Remembered, back: cur.back };
            cells.set(i, nv);
            proof {
                let a0 = (m.x - ox) as int;
                let b0 = (m.y - oy) as int;
                assert(cell_index(ox + a0, oy + b0) == m.y * MAP_WIDTH + m.x);
                assert forall|a: int, b: int| in_view(a, b) implies #[trigger] view_at(cells@, a, b) == with_memory(
                    lit_cell(*map, explored@, visible@, sprites@, ox + a, oy + b),
                    memory@.take(k + 1),
                    visible@,
                    explored@,
                    ox + a,
                    oy + b,
                ) by {
                    lemma_view_index(a, b, (m.x - ox) as int, (m.y - oy) as int);
                    assert(view_at(before, a, b) == with_memory(lit_cell(*map, explored@, visible@, sprites@, ox + a, oy + b), memory@.take(k as int), visible@, explored@, ox + a, oy + b));
                    if m.x == ox + a && m.y == oy + b {
                        assert(cell_index(ox + a, oy + b) == m.y * MAP_WIDTH + m.x);
                    }
                }
            }
        } else {
            proof {
                assert forall|a: int, b: int| in_view(a, b) implies #[trigger] view_at(cells@, a, b) == with_memory(
                    lit_cell(*map, explored@, visible@, sprites@, ox + a, oy + b),
                    memory@.take(k + 1),
                    visible@,
                    explored@,
                    ox + a,
                    oy + b,
                ) by {
                    assert(view_at(before, a, b) == with_memory(lit_cell(*map, explored@, visible@, sprites@, ox + a, oy + b), memory@.take(k as int), visible@, explored@, ox + a, oy + b));
                    if m.x == ox + a && m.y == oy + b {
                        lemma_cell_index(ox + a, oy + b, 0, 0);
                    }
                }
            }
        }
        k = k + 1;
    }
    proof {
        assert(memory@.take(memory@.len() as int) =~= memory@);
    }
}

/// The map as drawn around `center` (see [`view_cell`]): the viewport keeps `center`
/// in its middle as far as the map allows.
pub fn map_view(
    map: &DungeonMap,
    explored: &Vec<bool>,
    visible: &Vec<(usize, usize)>,
    center: (usize, usize),
    sprites: &Vec<Sprite>,
    memory: &Vec<Sighting>,
    cursor: Option<(usize, usize)>,
    aim: &ThrowPreview,
) -> (v: MapView)
    requires
        map.wf(),
        explored@.len() == MAP_CELLS,
    ensures
        v.origin.0 == view_origin(center.0 as int, VIEWPORT_WIDTH as int, MAP_WIDTH as int),
        v.origin.1 == view_origin(center.1 as int, VIEWPORT_HEIGHT as int, MAP_HEIGHT as int),
        v.cells@.len() == VIEWPORT_WIDTH * VIEWPORT_HEIGHT,
        forall|vx: int, vy: int|
            in_view(vx, vy) ==> #[trigger] view_at(v.cells@, vx, vy) == view_cell(
                *map,
                explored@,
                visible@,
                sprites@,
                memory@,
                cursor,
                *aim,
                v.origin.0 + vx,
                v.origin.1 + vy,
            ),
{
    let ox = origin_of(center.0, VIEWPORT_WIDTH, MAP_WIDTH);
    let oy = origin_of(center.1, VIEWPORT_HEIGHT, MAP_HEIGHT);
    let mut cells: Vec<ViewCell> = Vec::new();
    let mut vy: usize = 0;
    while vy < VIEWPORT_HEIGHT
        invariant
            vy <= VIEWPORT_HEIGHT,
            ox + VIEWPORT_WIDTH <= MAP_WIDTH,
            oy + VIEWPORT_HEIGHT <= MAP_HEIGHT,
            map.wf(),
            explored@.len() == MAP_CELLS,
            cells@.len() == vy * VIEWPORT_WIDTH,
            forall|a: int, b: int| 0 <= a < VIEWPORT_WIDTH && 0 <= b < vy ==> #[trigger] view_at(cells@, a, b) == base_cell(*map, explored@, visible@, ox + a, oy + b),
        decreases VIEWPORT_HEIGHT - vy,
    {
        let mut vx: usize = 0;
        while vx < VIEWPORT_WIDTH
            invariant
                vx <= VIEWPORT_WIDTH,
                vy < VIEWPORT_HEIGHT,
                ox + VIEWPORT_WIDTH <= MAP_WIDTH,
                oy + VIEWPORT_HEIGHT <= MAP_HEIGHT,
                map.wf(),
                explored@.len() == MAP_CELLS,
                cells@.len() == vy * VIEWPORT_WIDTH + vx,
                forall|a: int, b: int|
                    0 <= a < VIEWPORT_WIDTH && 0 <= b < vy ==> #[trigger] view_at(cells@, a, b) == base_cell(*map, explored@, visible@, ox + a, oy + b),
                forall|a: int| 0 <= a < vx ==> #[trigger] view_at(cells@, a, vy as int) == base_cell(*map, explored@, visible@, ox + a, oy + vy),
            decreases VIEWPORT_WIDTH - vx,
        {
            let c = ground_cell(map, explored, visible, ox + vx, oy + vy);
            let ghost before = cells@;
            cells.push(c);
            proof {
                assert(cells@[before.len() as int] == c);
                assert(before.len() == vy * VIEWPORT_WIDTH + vx);
                assert(view_at(cells@, vx as int, vy as int) == c);
                assert(c == base_cell(*map, explored@, visible@, ox + vx, oy + vy));
                assert forall|a: int, b: int|
                    0 <= a < VIEWPORT_WIDTH && 0 <= b < vy implies #[trigger] view_at(cells@, a, b) == base_cell(*map, explored@, visible@, ox + a, oy + b) by {
                    lemma_view_index(a, b, 0, 0);
                    assert(view_at(cells@, a, b) == view_at(before, a, b));
                }
                assert forall|a: int| 0 <= a < vx + 1 implies #[trigger] view_at(cells@, a, vy as int) == base_cell(*map, explored@, visible@, ox + a, oy + vy) by {
                    if a < vx {
                        assert(view_at(cells@, a, vy as int) == view_at(before, a, vy as int));
                    } else {
                        assert(vy * VIEWPORT_WIDTH + a == before.len());
                        assert(cells@[before.len() as int] == c);
                    }
                }
            }
            vx = vx + 1;
        }
        vy = vy + 1;
    }
    // sprites
    let mut k: usize = 0;
    while k < sprites.len()
        invariant
            k <= sprites@.len(),
            ox + VIEWPORT_WIDTH <= MAP_WIDTH,
            oy + VIEWPORT_HEIGHT <= MAP_HEIGHT,
            cells@.len() == VIEWPORT_WIDTH * VIEWPORT_HEIGHT,
            forall|a: int, b: int|
                in_view(a, b) ==> #[trigger] view_at(cells@, a, b) == with_sprites(
                    base_cell(*map, explored@, visible@, ox + a, oy + b),
                    sprites@.take(k as int),
                    visible@,
                    ox + a,
                    oy + b,
                ),
        decreases sprites@.len() - k,
    {
        let s = sprites[k];
        let ghost before = cells@;
        proof {
            assert(sprites@.take(k + 1).drop_last() =~= sprites@.take(k as int));
        }
        if s.x >= ox && s.x < ox + VIEWPORT_WIDTH && s.y >= oy && s.y < oy + VIEWPORT_HEIGHT && holds(visible, (s.x, s.y)) {
            let i = (s.y - oy) * VIEWPORT_WIDTH + (s.x - ox);
            proof {
                lemma_view_index((s.x - ox) as int, (s.y - oy) as int, 0, 0);
            }
            let cur = cells[i];
            cells.set(i, ViewCell { glyph: s.glyph, fore: Fore::Sprite(s.color), back: cur.back });
            proof {
                assert forall|a: int, b: int| in_view(a, b) implies #[trigger] view_at(cells@, a, b) == with_sprites(
                    base_cell(*map, explored@, visible@, ox + a, oy + b),
                    sprites@.take(k + 1),
                    visible@,
                    ox + a,
                    oy + b,
                ) by {
                    lemma_view_index(a, b, (s.x - ox) as int, (s.y - oy) as int);
                    assert(view_at(before, a, b) == with_sprites(base_cell(*map, explored@, visible@, ox + a, oy + b), sprites@.take(k as int), visible@, ox + a, oy + b));
                }
            }
        } else {
            proof {
                assert forall|a: int, b: int| in_view(a, b) implies #[trigger] view_at(cells@, a, b) == with_sprites(
                    base_cell(*map, explored@, visible@, ox + a, oy + b),
                    sprites@.take(k + 1),
                    visible@,
                    ox + a,
                    oy + b,
                ) by {
                    assert(view_at(before, a, b) == with_sprites(base_cell(*map, explored@, visible@, ox + a, oy + b), sprites@.take(k as int), visible@, ox + a, oy + b));
                }
            }
        }
        k = k + 1;
    }
    proof {
        assert(sprites@.take(sprites@.len() as int) =~= sprites@);
    }
    // remembered entities
    overlay_memory(&mut cells, ox, oy, map, explored, visible, sprites, memory);
    // look cursor
    assert forall|a: int, b: int| in_view(a, b) implies #[trigger] view_at(cells@, a, b) == remembered_cell(*map, explored@, visible@, sprites@, memory@, ox + a, oy + b) by {}
    let ghost before_cursor = cells@;
    match cursor {
        Some(c) => {
            if c.0 >= ox && c.0 < ox + VIEWPORT_WIDTH && c.1 >= oy && c.1 < oy + VIEWPORT_HEIGHT {
                let i = (c.1 - oy) * VIEWPORT_WIDTH + (c.0 - ox);
                proof {
                    lemma_view_index((c.0 - ox) as int, (c.1 - oy) as int, 0, 0);
                }
                let cur = cells[i];
                cells.set(i, ViewCell { back: Back::Cursor, ..cur });
                proof {
                    assert forall|a: int, b: int| in_view(a, b) implies #[trigger] view_at(cells@, a, b) == (if cursor == Some(
                        ((ox + a) as usize, (oy + b) as usize),
                    ) {
                        ViewCell { back: Back::Cursor, ..remembered_cell(*map, explored@, visible@, sprites@, memory@, ox + a, oy + b) }
                    } else {
                        remembered_cell(*map, explored@, visible@, sprites@, memory@, ox + a, oy + b)
                    }) by {
                        lemma_view_index(a, b, (c.0 - ox) as int, (c.1 - oy) as int);
                        assert(view_at(before_cursor, a, b) == remembered_cell(*map, explored@, visible@, sprites@, memory@, ox + a, oy + b));
                    }
                }
            }
        },
        None => {},
    }
    assert forall|a: int, b: int| in_view(a, b) implies #[trigger] view_at(cells@, a, b) == cursor_cell(*map, explored@, visible@, sprites@, memory@, cursor, ox + a, oy + b) by {
        if cursor is Some {
            let c = cursor->0;
            if !(c.0 >= ox && c.0 < ox + VIEWPORT_WIDTH && c.1 >= oy && c.1 < oy + VIEWPORT_HEIGHT) {
                assert(view_at(cells@, a, b) == view_at(before_cursor, a, b));
            }
        }
    }
    // the throw's line
    if aim.active {
        let mut k: usize = 0;
        while k < aim.path.len()
            invariant
                aim.active,
                k <= aim.path@.len(),
                ox + VIEWPORT_WIDTH <= MAP_WIDTH,
                oy + VIEWPORT_HEIGHT <= MAP_HEIGHT,
                cells@.len() == VIEWPORT_WIDTH * VIEWPORT_HEIGHT,
                forall|a: int, b: int|
                    in_view(a, b) ==> #[trigger] view_at(cells@, a, b) == (if aim.path@.take(k as int).contains(
                        ((ox + a) as usize, (oy + b) as usize),
                    ) {
                        ViewCell { glyph: '*', fore: Fore::Trail(aim.valid_target), back: Back::Plain }
                    } else {
                        cursor_cell(*map, explored@, visible@, sprites@, memory@, cursor, ox + a, oy + b)
                    }),
            decreases aim.path@.len() - k,
        {
            let p = aim.path[k];
            let ghost before = cells@;
            if p.0 >= ox && p.0 < ox + VIEWPORT_WIDTH && p.1 >= oy && p.1 < oy + VIEWPORT_HEIGHT {
                let i = (p.1 - oy) * VIEWPORT_WIDTH + (p.0 - ox);
                proof {
                    lemma_view_index((p.0 - ox) as int, (p.1 - oy) as int, 0, 0);
                }
                cells.set(i, ViewCell { glyph: '*', fore: Fore::Trail(aim.valid_target), back: Back::Plain });
            }
            proof {
                assert forall|a: int, b: int| in_view(a, b) implies #[trigger] view_at(cells@, a, b) == (if aim.path@.take(
                    k + 1,
                ).contains(((ox + a) as usize, (oy + b) as usize)) {
                    ViewCell { glyph: '*', fore: Fore::Trail(aim.valid_target), back: Back::Plain }
                } else {
                    cursor_cell(*map, explored@, visible@, sprites@, memory@, cursor, ox + a, oy + b)
                }) by {
                    let q = ((ox + a) as usize, (oy + b) as usize);
                    assert(aim.path@.take(k + 1) =~= aim.path@.take(k as int).push(p));
                    if p.0 >= ox && p.0 < ox + VIEWPORT_WIDTH && p.1 >= oy && p.1 < oy + VIEWPORT_HEIGHT {
                        lemma_view_index(a, b, (p.0 - ox) as int, (p.1 - oy) as int);
                    }
                    if aim.path@.take(k as int).contains(q) {
                        let j = choose|j: int| 0 <= j < k && aim.path@.take(k as int)[j] == q;
                        assert(aim.path@.take(k + 1)[j] == q);
                    }
                    if q == p {
                        assert(aim.path@.take(k + 1)[k as int] == q);
                    }
                    assert(view_at(before, a, b) == (if aim.path@.take(k as int).contains(q) {
                        ViewCell { glyph: '*', fore: Fore::Trail(aim.valid_target), back: Back::Plain }
                    } else {
                        cursor_cell(*map, explored@, visible@, sprites@, memory@, cursor, ox + a, oy + b)
                    }));
                }
            }
            k = k + 1;
        }
        proof {
            assert(aim.path@.take(aim.path@.len() as int) =~= aim.path@);
        }
    }
    MapView { origin: (ox, oy), cells }
}

/// A sprite's drawing rank: lower layers come first.
pub open spec fn layer_rank(s: Sprite) -> int {
    -(s.layer as int)
}

/// The first sprite of the lowest layer.
fn first_lowest(s: &Vec<Sprite>) -> (k: usize)
    requires
        s@.len() >= 1,
    ensures
        k == first_top(s@, |t: Sprite| layer_rank(t)),
{
    let mut k: usize = 0;
    let mut i: usize = 1;
    while i < s.len()
        invariant
            1 <= i <= s@.len(),
            k == first_top(s@.take(i as int), |t: Sprite| layer_rank(t)),
            k < i,
        decreases s@.len() - i,
    {
        proof {
            assert(s@.take(i as int + 1).drop_last() =~= s@.take(i as int));
            lemma_first_top(s@.take(i as int), |t: Sprite| layer_rank(t));
        }
        if s[i].layer < s[k].layer {
            k = i;
        }
        i = i + 1;
    }
    assert(s@.take(s@.len() as int) =~= s@);
    k
}

/// The sprites in drawing order: by layer, lowest first, keeping the given order
/// within a layer (so that the player is drawn over monsters, and monsters over items
/// and stairs).
pub fn layered(sprites: Vec<Sprite>) -> (v: Vec<Sprite>)
    ensures
        v@ == ranked(sprites@, |t: Sprite| layer_rank(t)),
{
    let mut rest = sprites;
    let ghost all = rest@;
    let mut out: Vec<Sprite> = Vec::new();
    while rest.len() > 0
        invariant
            out@ + ranked(rest@, |t: Sprite| layer_rank(t)) == ranked(all, |t: Sprite| layer_rank(t)),
        decreases rest@.len(),
    {
        let k = first_lowest(&rest);
        proof {
            lemma_first_top(rest@, |t: Sprite| layer_rank(t));
        }
        let ghost before = rest@;
        let s = rest.remove(k);
        out.push(s);
        proof {
            assert(ranked(before, |t: Sprite| layer_rank(t)) == seq![s] + ranked(rest@, |t: Sprite| layer_rank(t)));
            assert(out@ + ranked(rest@, |t: Sprite| layer_rank(t)) =~= (out@.drop_last() + seq![s]) + ranked(
                rest@,
                |t: Sprite| layer_rank(t),
            ));
        }
    }
    assert(out@ =~= ranked(all, |t: Sprite| layer_rank(t)));
    out
}

/// No entity is remembered twice.
pub open spec fn one_sighting_each(s: Seq<Sighting>) -> bool {
    forall|i: int, j: int| 0 <= i < j < s.len() ==> (#[trigger] s[i]).entity != (#[trigger] s[j]).entity
}

/// Whether `s` remembers entity `e`.
pub open spec fn remembers(s: Seq<Sighting>, e: u64) -> bool {
    exists|i: int| 0 <= i < s.len() && (#[trigger] s[i]).entity == e
}

/// `x` is the last sighting of its entity in `s`.
pub open spec fn last_sighting(s: Seq<Sighting>, x: Sighting) -> bool {
    exists|k: int|
        0 <= k < s.len() && #[trigger] s[k] == x && forall|j: int| k < j < s.len() ==> (#[trigger] s[j]).entity != x.entity
}

/// Where the entities out of sight were last seen.
pub struct SeenMemory {
    pub entries: Vec<Sighting>,
}

/// Whether `ids` holds `id`.
fn lists_id(ids: &Vec<u64>, id: u64) -> (b: bool)
    ensures
        b == ids@.contains(id),
{
    let mut i: usize = 0;
    while i < ids.len()
        invariant
            i <= ids@.len(),
            forall|k: int| 0 <= k < i ==> ids@[k] != id,
        decreases ids@.len() - i,
    {
        if ids[i] == id {
            return true;
        }
        i = i + 1;
    }
    false
}

/// Whether some sighting of `s` from position `from` on is of entity `e`.
fn seen_from(s: &Vec<Sighting>, from: usize, e: u64) -> (b: bool)
    ensures
        b == exists|j: int| from <= j < s@.len() && (#[trigger] s@[j]).entity == e,
{
    let mut i: usize = from;
    while i < s.len()
        invariant
            from <= i,
            forall|j: int| from <= j < i ==> (#[trigger] s@[j]).entity != e,
        decreases s@.len() - i,
    {
        if s[i].entity == e {
            assert(s@[i as int].entity == e);
            return true;
        }
        i = i + 1;
    }
    false
}

impl SeenMemory {
    /// Nothing remembered.
    pub fn new() -> (m: SeenMemory)
        ensures
            m.entries@.len() == 0,
    {
        SeenMemory { entries: Vec::new() }
    }

    /// Records the entities seen now (`seen`; a later sighting of the same entity
    /// wins) and forgets those no longer `alive`: afterwards an entity is remembered
    /// when it is alive and was seen now or remembered before, as last seen now, else
    /// as remembered.
    pub fn update(&mut self, seen: &Vec<Sighting>, alive: &Vec<u64>)
        requires
            one_sighting_each(old(self).entries@),
        ensures
            one_sighting_each(final(self).entries@),
            forall|e: u64|
                #[trigger] remembers(final(self).entries@, e) <==> alive@.contains(e) && (remembers(seen@, e) || remembers(
                    old(self).entries@,
                    e,
                )),
            forall|i: int|
                0 <= i < final(self).entries@.len() ==> {
                    let x = #[trigger] final(self).entries@[i];
                    if remembers(seen@, x.entity) {
                        last_sighting(seen@, x)
                    } else {
                        old(self).entries@.contains(x)
                    }
                },
    {
        let ghost old_entries = self.entries@;
        let mut out: Vec<Sighting> = Vec::new();
        let mut i: usize = 0;
        while i < self.entries.len()
            invariant
                self.entries@ == old_entries,
                one_sighting_each(old_entries),
                i <= old_entries.len(),
                one_sighting_each(out@),
                forall|k: int|
                    0 <= k < out@.len() ==> {
                        let x = #[trigger] out@[k];
                        &&& alive@.contains(x.entity) && !remembers(seen@, x.entity)
                        &&& exists|j: int| 0 <= j < i && old_entries[j] == x
                    },
                forall|e: u64|
                    alive@.contains(e) && !remembers(seen@, e) && (exists|j: int|
                        0 <= j < i && (#[trigger] old_entries[j]).entity == e) ==> remembers(out@, e),
            decreases old_entries.len() - i,
        {
            let x = self.entries[i];
            let ghost prev = out@;
            if lists_id(alive, x.entity) && !seen_from(seen, 0, x.entity) {
                proof {
                    assert forall|k: int| 0 <= k < out@.len() implies (#[trigger] out@[k]).entity != x.entity by {
                        let j = choose|j: int| 0 <= j < i && old_entries[j] == out@[k];
                        assert(old_entries[j].entity != old_entries[i as int].entity);
                    }
                }
                out.push(x);
                proof {
                    assert(out@[out@.len() - 1] == x);
                    assert(remembers(out@, x.entity));
                }
            }
            proof {
                assert forall|e: u64|
                    alive@.contains(e) && !remembers(seen@, e) && (exists|j: int|
                        0 <= j < i + 1 && (#[trigger] old_entries[j]).entity == e) implies remembers(out@, e) by {
                    let j = choose|j: int| 0 <= j < i + 1 && (#[trigger] old_entries[j]).entity == e;
                    if j < i {
                        assert(remembers(prev, e));
                        lemma_push_keeps(prev, out@, e);
                    } else {
                        assert(old_entries[i as int] == x);
                        assert(!remembers(seen@, x.entity) ==> !(exists|j: int| 0 <= j < seen@.len() && (#[trigger] seen@[j]).entity == x.entity));
                    }
                }
            }
            i = i + 1;
        }
        proof {
            assert forall|e: u64| alive@.contains(e) && !remembers(seen@, e) && remembers(old_entries, e) implies remembers(out@, e) by {
                let j = choose|j: int| 0 <= j < old_entries.len() && (#[trigger] old_entries[j]).entity == e;
                assert(0 <= j < i && old_entries[j].entity == e);
            }
            assert forall|n: int| 0 <= n < out@.len() implies (#[trigger] out@[n]) == out@[n] && old_entries.contains(out@[n]) by {
                let j = choose|j: int| 0 <= j < i && old_entries[j] == out@[n];
                assert(old_entries[j] == out@[n]);
            }
        }
        let mid = out.len();
        let mut k: usize = 0;
        while k < seen.len()
            invariant
                one_sighting_each(old_entries),
                k <= seen@.len(),
                mid <= out@.len(),
                one_sighting_each(out@),
                forall|n: int|
                    0 <= n < mid ==> {
                        let x = #[trigger] out@[n];
                        &&& alive@.contains(x.entity) && !remembers(seen@, x.entity)
                        &&& old_entries.contains(x)
                    },
                forall|n: int|
                    mid <= n < out@.len() ==> {
                        let x = #[trigger] out@[n];
                        &&& alive@.contains(x.entity)
                        &&& exists|j: int| 0 <= j < k && seen@[j] == x && forall|l: int| j < l < seen@.len() ==> (#[trigger] seen@[l]).entity != x.entity
                    },
                forall|e: u64|
                    alive@.contains(e) && !remembers(seen@, e) && remembers(old_entries, e) ==> remembers(out@, e),
                forall|e: u64|
                    alive@.contains(e) && (exists|j: int| 0 <= j < k && (#[trigger] seen@[j]).entity == e && forall|l: int|
                        j < l < seen@.len() ==> (#[trigger] seen@[l]).entity != e) ==> remembers(out@, e),
            decreases seen@.len() - k,
        {
            let x = seen[k];
            let ghost prev = out@;
            if lists_id(alive, x.entity) && !seen_from(seen, k + 1, x.entity) {
                proof {
                    assert forall|n: int| 0 <= n < out@.len() implies (#[trigger] out@[n]).entity != x.entity by {
                        if n < mid {
                            assert(remembers(seen@, x.entity)) by {
                                assert(seen@[k as int].entity == x.entity);
                            }
                        } else {
                            let j = choose|j: int|
                                0 <= j < k && seen@[j] == out@[n] && forall|l: int|
                                    j < l < seen@.len() ==> (#[trigger] seen@[l]).entity != out@[n].entity;
                            if out@[n].entity == x.entity {
                                assert(seen@[k as int].entity != out@[n].entity);
                            }
                        }
                    }
                }
                out.push(x);
                proof {
                    assert(out@[out@.len() - 1] == x);
                }
            }
            proof {
                assert forall|n: int| mid <= n < out@.len() implies {
                    let y = #[trigger] out@[n];
                    &&& alive@.contains(y.entity)
                    &&& exists|j: int| 0 <= j < k + 1 && seen@[j] == y && forall|l: int| j < l < seen@.len() ==> (#[trigger] seen@[l]).entity != y.entity
                } by {
                    if n == out@.len() - 1 && out@[n] == x && !(exists|j: int|
                        0 <= j < k && seen@[j] == out@[n] && forall|l: int| j < l < seen@.len() ==> (#[trigger] seen@[l]).entity != out@[n].entity) {
                        assert(seen@[k as int] == out@[n]);
                    }
                }
                assert forall|e: u64|
                    alive@.contains(e) && (exists|j: int| 0 <= j < k + 1 && (#[trigger] seen@[j]).entity == e && forall|l: int|
                        j < l < seen@.len() ==> (#[trigger] seen@[l]).entity != e) implies remembers(out@, e) by {
                    let j = choose|j: int| 0 <= j < k + 1 && (#[trigger] seen@[j]).entity == e && forall|l: int|
                        j < l < seen@.len() ==> (#[trigger] seen@[l]).entity != e;
                    if j == k {
                        assert(seen@[k as int] == x);
                        assert(out@[out@.len() - 1] == x);
                    } else {
                        assert(remembers(prev, e));
                        lemma_push_keeps(prev, out@, e);
                    }
                }
                assert forall|e: u64| alive@.contains(e) && !remembers(seen@, e) && remembers(old_entries, e) implies remembers(out@, e) by {
                    assert(remembers(prev, e));
                    lemma_push_keeps(prev, out@, e);
                }
            }
            k = k + 1;
        }
        proof {
            assert forall|e: u64|
                #[trigger] remembers(out@, e) <==> alive@.contains(e) && (remembers(seen@, e) || remembers(old_entries, e)) by {
                if remembers(out@, e) {
                    let n = choose|n: int| 0 <= n < out@.len() && (#[trigger] out@[n]).entity == e;
                    if n < mid {
                        let j = choose|j: int| 0 <= j < old_entries.len() && old_entries[j] == out@[n];
                        assert(old_entries[j].entity == e);
                    } else {
                        let j = choose|j: int|
                            0 <= j < k && seen@[j] == out@[n] && forall|l: int| j < l < seen@.len() ==> (#[trigger] seen@[l]).entity != out@[n].entity;
                        assert(seen@[j].entity == e);
                    }
                }
                if alive@.contains(e) && remembers(seen@, e) {
                    let j0 = choose|j: int| 0 <= j < seen@.len() && (#[trigger] seen@[j]).entity == e;
                    lemma_last_of(seen@, e, j0);
                }
            }
            assert forall|i: int| 0 <= i < out@.len() implies {
                let x = #[trigger] out@[i];
                if remembers(seen@, x.entity) {
                    last_sighting(seen@, x)
                } else {
                    old_entries.contains(x)
                }
            } by {
                if i >= mid {
                    let j = choose|j: int|
                        0 <= j < k && seen@[j] == out@[i] && forall|l: int| j < l < seen@.len() ==> (#[trigger] seen@[l]).entity != out@[i].entity;
                    assert(seen@[j] == out@[i]);
                }
            }
        }
        self.entries = out;
    }
}

/// A sequence that keeps its first part keeps remembering what that part remembers.
proof fn lemma_push_keeps(prev: Seq<Sighting>, now: Seq<Sighting>, e: u64)
    requires
        remembers(prev, e),
        prev.len() <= now.len(),
        forall|n: int| 0 <= n < prev.len() ==> now[n] == prev[n],
    ensures
        remembers(now, e),
{
    let n = choose|n: int| 0 <= n < prev.len() && (#[trigger] prev[n]).entity == e;
    assert(now[n].entity == e);
}

/// Some sighting of `e` in `s` is its last one.
proof fn lemma_last_of(s: Seq<Sighting>, e: u64, j0: int)
    requires
        0 <= j0 < s.len(),
        s[j0].entity == e,
    ensures
        exists|j: int| 0 <= j < s.len() && (#[trigger] s[j]).entity == e && forall|l: int| j < l < s.len() ==> (#[trigger] s[l]).entity != e,
    decreases s.len() - j0,
{
    if exists|l: int| j0 < l < s.len() && (#[trigger] s[l]).entity == e {
        let l = choose|l: int| j0 < l < s.len() && (#[trigger] s[l]).entity == e;
        lemma_last_of(s, e, l);
    } else {
        assert(forall|l: int| j0 < l < s.len() ==> (#[trigger] s[l]).entity != e);
    }
}

} // verus!
