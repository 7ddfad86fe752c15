use vstd::prelude::*;
use rand::rngs::SmallRng;
use crate::tile::{Tile, MAP_WIDTH, MAP_HEIGHT, tile_walkable};
use crate::room::{Room, RoomShape, room_fits, room_center, on_map, abs_int};
use crate::map::{DungeonMap, cell_index, MAP_CELLS, lemma_cell_index, wrap_step, manhattan, count_tiles, abs_diff};
use crate::reach::{connected, is_walk, has_path_between};
use crate::regions::{collect_walkable_regions, detect_cave_regions, walkable_regions, region_views, lists_component, bounds_region};
use crate::rng::{seeded_rng, random_i32_in};

verus! {

/// `m1` differs from `m0` only in cells that were not walkable and are floor now,
/// and has the same rooms.
pub open spec fn only_floored(m0: DungeonMap, m1: DungeonMap) -> bool {
    &&& m1.wf()
    &&& m1.rooms@ == m0.rooms@
    &&& forall|x: int, y: int|
        on_map(x, y) ==> #[trigger] m1.tile_at(x, y) == m0.tile_at(x, y) || (!tile_walkable(
            m0.tile_at(x, y),
        ) && m1.tile_at(x, y) == Tile::Floor)
}

/// How many of the eight neighbours of `(x, y)` (with `usize` wrap-around) are
/// walkable map cells.
pub open spec fn walkable_neighbor_count(m: DungeonMap, x: int, y: int) -> int {
    (if m.walkable_at(wrap_step(x, -1), wrap_step(y, -1)) { 1int } else { 0 })
    + (if m.walkable_at(wrap_step(x, 0), wrap_step(y, -1)) { 1int } else { 0 })
    + (if m.walkable_at(wrap_step(x, 1), wrap_step(y, -1)) { 1int } else { 0 })
    + (if m.walkable_at(wrap_step(x, -1), wrap_step(y, 0)) { 1int } else { 0 })
    + (if m.walkable_at(wrap_step(x, 1), wrap_step(y, 0)) { 1int } else { 0 })
    + (if m.walkable_at(wrap_step(x, -1), wrap_step(y, 1)) { 1int } else { 0 })
    + (if m.walkable_at(wrap_step(x, 0), wrap_step(y, 1)) { 1int } else { 0 })
    + (if m.walkable_at(wrap_step(x, 1), wrap_step(y, 1)) { 1int } else { 0 })
}

/// Number of cells of the map that hold `tile`.
pub fn count_tile(map: &DungeonMap, tile: Tile) -> (n: usize)
    requires
        map.wf(),
    ensures
        n == count_tiles(map.tiles@, tile),
{
    map.count_tile(tile)
}

/// Number of the eight neighbours of `(x, y)` (with `usize` wrap-around) that are
/// walkable map cells.
pub fn count_walkable_neighbors(map: &DungeonMap, x: usize, y: usize) -> (n: usize)
    requires
        map.wf(),
    ensures
        n == walkable_neighbor_count(*map, x as int, y as int),
{
    let mut n: usize = 0;
    if map.is_walkable(x.wrapping_add_signed(-1), y.wrapping_add_signed(-1)) { n = n + 1; }
    if map.is_walkable(x.wrapping_add_signed(0), y.wrapping_add_signed(-1)) { n = n + 1; }
    if map.is_walkable(x.wrapping_add_signed(1), y.wrapping_add_signed(-1)) { n = n + 1; }
    if map.is_walkable(x.wrapping_add_signed(-1), y.wrapping_add_signed(0)) { n = n + 1; }
    if map.is_walkable(x.wrapping_add_signed(1), y.wrapping_add_signed(0)) { n = n + 1; }
    if map.is_walkable(x.wrapping_add_signed(-1), y.wrapping_add_signed(1)) { n = n + 1; }
    if map.is_walkable(x.wrapping_add_signed(0), y.wrapping_add_signed(1)) { n = n + 1; }
    if map.is_walkable(x.wrapping_add_signed(1), y.wrapping_add_signed(1)) { n = n + 1; }
    n
}

/// Whether `(x, y)` is at least `min_dist` steps (along the axes) from the centre of
/// every room.
pub fn is_away_from_rooms(map: &DungeonMap, x: usize, y: usize, min_dist: usize) -> (b: bool)
    requires
        map.wf(),
        forall|k: int|
            0 <= k < map.rooms@.len() ==> manhattan(
                (x as int, y as int),
                room_center(#[trigger] map.rooms@[k]),
            ) <= usize::MAX,
    ensures
        b == forall|k: int|
            0 <= k < map.rooms@.len() ==> manhattan(
                (x as int, y as int),
                room_center(#[trigger] map.rooms@[k]),
            ) >= min_dist,
{
    let mut k: usize = 0;
    while k < map.rooms.len()
        invariant
            map.wf(),
            k <= map.rooms@.len(),
            forall|j: int|
                0 <= j < map.rooms@.len() ==> manhattan(
                    (x as int, y as int),
                    room_center(#[trigger] map.rooms@[j]),
                ) <= usize::MAX,
            forall|j: int|
                0 <= j < k ==> manhattan((x as int, y as int), room_center(#[trigger] map.rooms@[j]))
                    >= min_dist,
        decreases map.rooms@.len() - k,
    {
        assert(room_fits(map.rooms@[k as int]));
        let (cx, cy) = map.rooms[k].center();
        assert(manhattan((x as int, y as int), room_center(map.rooms@[k as int])) <= usize::MAX);
        if abs_diff(x, cx) + abs_diff(y, cy) < min_dist {
            return false;
        }
        k = k + 1;
    }
    true
}

/// A copy of the map's tiles.
fn copy_tiles(map: &DungeonMap) -> (t: Vec<Tile>)
    requires
        map.wf(),
    ensures
        t@ == map.tiles@,
{
    let mut t: Vec<Tile> = Vec::new();
    let mut i: usize = 0;
    while i < map.tiles.len()
        invariant
            i <= map.tiles@.len(),
            t@ == map.tiles@.take(i as int),
        decreases map.tiles@.len() - i,
    {
        t.push(map.tiles[i]);
        assert(t@ =~= map.tiles@.take(i + 1));
        i = i + 1;
    }
    assert(map.tiles@.take(map.tiles@.len() as int) =~= map.tiles@);
    t
}

/// Whether widening looks at `(x, y)` of `m`: a cell that is not walkable with at
/// least one walkable neighbour.
pub open spec fn widen_candidate(m: DungeonMap, x: int, y: int) -> bool {
    !tile_walkable(m.tile_at(x, y)) && walkable_neighbor_count(m, x, y) >= 1
}

/// Whether `m1` is `m0` widened with the draws `rolls` (one per cell, row by row,
/// each in `0..100`): each cell widening looks at becomes floor when its draw is
/// below 25; every other cell, and the rooms, stay.
pub open spec fn widened(m0: DungeonMap, rolls: Seq<i32>, m1: DungeonMap) -> bool {
    &&& m1.wf()
    &&& m1.rooms@ == m0.rooms@
    &&& rolls.len() == MAP_CELLS
    &&& forall|i: int| 0 <= i < MAP_CELLS ==> 0 <= #[trigger] rolls[i] < 100
    &&& forall|x: int, y: int|
        on_map(x, y) ==> #[trigger] m1.tile_at(x, y) == if widen_candidate(m0, x, y) && rolls[cell_index(x, y)]
            < 25 {
            Tile::Floor
        } else {
            m0.tile_at(x, y)
        }
}

/// Widens passages with a generator seeded with `seed`: row by row, each cell that
/// is not walkable and has a walkable neighbour (in the map as it was) takes a draw
/// from `0..100`, and becomes floor when it is below 25 (see [`widened`]).
pub fn carve_expand(map: &mut DungeonMap, seed: u64)
    requires
        old(map).wf(),
    ensures
        only_floored(*old(map), *final(map)),
        forall|x: int, y: int|
            on_map(x, y) && walkable_neighbor_count(*old(map), x, y) == 0 ==> #[trigger] final(map).tile_at(
                x,
                y,
            ) == old(map).tile_at(x, y),
        exists|rolls: Seq<i32>| #[trigger] widened(*old(map), rolls, *final(map)),
{
    let mut rng2 = seeded_rng(seed);
    let ghost m0 = *map;
    let ghost mut rolls: Seq<i32> = Seq::new(MAP_CELLS as nat, |i: int| 99i32);
    let mut next = copy_tiles(map);
    let mut y: usize = 0;
    while y < MAP_HEIGHT
        invariant
            m0 == *map,
            map.wf(),
            y <= MAP_HEIGHT,
            next@.len() == MAP_CELLS,
            rolls.len() == MAP_CELLS,
            forall|i: int| 0 <= i < MAP_CELLS ==> 0 <= #[trigger] rolls[i] < 100,
            forall|cx: int, cy: int|
                on_map(cx, cy) ==> #[trigger] next@[cell_index(cx, cy)] == if cy < y && widen_candidate(m0, cx, cy)
                    && rolls[cell_index(cx, cy)] < 25 {
                    Tile::Floor
                } else {
                    m0.tile_at(cx, cy)
                },
        decreases MAP_HEIGHT - y,
    {
        let mut x: usize = 0;
        while x < MAP_WIDTH
            invariant
                m0 == *map,
                map.wf(),
                y < MAP_HEIGHT,
                x <= MAP_WIDTH,
                next@.len() == MAP_CELLS,
                rolls.len() == MAP_CELLS,
                forall|i: int| 0 <= i < MAP_CELLS ==> 0 <= #[trigger] rolls[i] < 100,
                forall|cx: int, cy: int|
                    on_map(cx, cy) ==> #[trigger] next@[cell_index(cx, cy)] == if (cy < y || (cy == y && cx < x))
                        && widen_candidate(m0, cx, cy) && rolls[cell_index(cx, cy)] < 25 {
                        Tile::Floor
                    } else {
                        m0.tile_at(cx, cy)
                    },
            decreases MAP_WIDTH - x,
        {
            let ghost n0 = next@;
            let ghost r0 = rolls;
            proof { lemma_cell_index(x as int, y as int, 0, 0); }
            let idx = y * MAP_WIDTH + x;
            let mut candidate = false;
            if !map.get(x, y).walkable() {
                let walkable_near = count_walkable_neighbors(map, x, y);
                if walkable_near >= 1 {
                    candidate = true;
                    let r = random_i32_in(&mut rng2, 0, 100);
                    proof { rolls = rolls.update(idx as int, r); }
                    if r < 25 {
                        next.set(idx, Tile::Floor);
                    }
                }
            }
            proof {
                assert(candidate == widen_candidate(m0, x as int, y as int));
                assert forall|cx: int, cy: int| on_map(cx, cy) implies #[trigger] next@[cell_index(cx, cy)] == if (cy < y
                    || (cy == y && cx < x + 1)) && widen_candidate(m0, cx, cy) && rolls[cell_index(cx, cy)] < 25 {
                    Tile::Floor
                } else {
                    m0.tile_at(cx, cy)
                } by {
                    lemma_cell_index(cx, cy, x as int, y as int);
                    assert(n0[cell_index(cx, cy)] == if (cy < y || (cy == y && cx < x)) && widen_candidate(m0, cx, cy)
                        && r0[cell_index(cx, cy)] < 25 {
                        Tile::Floor
                    } else {
                        m0.tile_at(cx, cy)
                    });
                    if !(cx == x && cy == y) {
                        assert(rolls[cell_index(cx, cy)] == r0[cell_index(cx, cy)]);
                    }
                }
            }
            x = x + 1;
        }
        y = y + 1;
    }
    map.tiles = next;
    proof {
        assert(widened(m0, rolls, *map));
        assert forall|x: int, y: int| on_map(x, y) implies #[trigger] map.tile_at(x, y) == m0.tile_at(x, y) || (
        !tile_walkable(m0.tile_at(x, y)) && map.tile_at(x, y) == Tile::Floor) by {}
    }
}

/// Whether the draw of room `k` for `(x, y)` makes a stalactite there: the cell lies
/// in the room's rectangle and the draw is below 7.
pub open spec fn spike_hit(rooms: Seq<Room>, rolls: Seq<Seq<i32>>, k: int, x: int, y: int) -> bool {
    in_rect(rooms[k], x, y) && rolls[k][cell_index(x, y)] < 7
}

/// Whether a draw of a room visited before room `k` row `y` column `x` (rooms in
/// order, each row by row) makes a stalactite at `(cx, cy)`.
pub open spec fn spiked_before(rooms: Seq<Room>, rolls: Seq<Seq<i32>>, k: int, y: int, x: int, cx: int, cy: int) -> bool {
    exists|j: int|
        0 <= j < rooms.len() && (j < k || (j == k && (cy < y || (cy == y && cx < x)))) && #[trigger] spike_hit(
            rooms,
            rolls,
            j,
            cx,
            cy,
        )
}

/// Whether `m1` is `m0` with stalactites put by the draws `rolls` (one per room and
/// cell, each in `0..100`): a floor cell becomes a stalactite when the draw of some
/// room whose rectangle holds it is below 7; every other cell, and the rooms, stay.
pub open spec fn spiked(m0: DungeonMap, rolls: Seq<Seq<i32>>, m1: DungeonMap) -> bool {
    &&& m1.wf()
    &&& m1.rooms@ == m0.rooms@
    &&& rolls.len() == m0.rooms@.len()
    &&& forall|k: int| 0 <= k < rolls.len() ==> (#[trigger] rolls[k]).len() == MAP_CELLS
    &&& forall|k: int, i: int| 0 <= k < rolls.len() && 0 <= i < MAP_CELLS ==> 0 <= #[trigger] rolls[k][i] < 100
    &&& forall|x: int, y: int|
        on_map(x, y) ==> #[trigger] m1.tile_at(x, y) == if m0.tile_at(x, y) == Tile::Floor && spiked_before(
            m0.rooms@,
            rolls,
            m0.rooms@.len() as int,
            0,
            0,
            x,
            y,
        ) {
            Tile::Stalactite
        } else {
            m0.tile_at(x, y)
        }
}

/// The draws of room `k` for cell `i` replaced by `r`.
pub open spec fn with_roll(rolls: Seq<Seq<i32>>, k: int, i: int, r: i32) -> Seq<Seq<i32>> {
    rolls.update(k, rolls[k].update(i, r))
}

/// Putting the draw `r` of room `k` for `(x, y)` in place, where no earlier draw made a
/// stalactite: the visits up to and with it make one there exactly when `r` is below
/// 7 and the cell lies in the room; elsewhere nothing changes.
proof fn lemma_spike_visit(
    rooms: Seq<Room>,
    rolls: Seq<Seq<i32>>,
    k: int,
    x: int,
    y: int,
    r: i32,
    cx: int,
    cy: int,
)
    requires
        0 <= k < rooms.len(),
        rolls.len() == rooms.len(),
        forall|j: int| 0 <= j < rolls.len() ==> (#[trigger] rolls[j]).len() == MAP_CELLS,
        on_map(x, y),
        on_map(cx, cy),
        in_rect(rooms[k], x, y),
    ensures
        ({
            let r2 = with_roll(rolls, k, cell_index(x, y), r);
            spiked_before(rooms, r2, k, y, x + 1, cx, cy) == if cx == x && cy == y {
                spiked_before(rooms, rolls, k, y, x, cx, cy) || r < 7
            } else {
                spiked_before(rooms, rolls, k, y, x, cx, cy)
            }
        }),
{
    let i = cell_index(x, y);
    let r2 = with_roll(rolls, k, i, r);
    lemma_cell_index(cx, cy, x, y);
    assert forall|j: int| 0 <= j < rooms.len() && !(j == k && cx == x && cy == y) implies #[trigger] spike_hit(
        rooms,
        r2,
        j,
        cx,
        cy,
    ) == spike_hit(rooms, rolls, j, cx, cy) by {
        if j != k {
            assert(r2[j] == rolls[j]);
        } else {
            assert(r2[j][cell_index(cx, cy)] == rolls[j][cell_index(cx, cy)]);
        }
    }
    if cx == x && cy == y {
        assert(r2[k][i] == r);
        assert(spike_hit(rooms, r2, k, cx, cy) == (r < 7));
        if spiked_before(rooms, rolls, k, y, x, cx, cy) {
            let j = choose|j: int|
                0 <= j < rooms.len() && (j < k || (j == k && (cy < y || (cy == y && cx < x)))) && #[trigger] spike_hit(
                    rooms,
                    rolls,
                    j,
                    cx,
                    cy,
                );
            assert(spike_hit(rooms, r2, j, cx, cy));
        }
        if spiked_before(rooms, r2, k, y, x + 1, cx, cy) && r >= 7 {
            let j = choose|j: int|
                0 <= j < rooms.len() && (j < k || (j == k && (cy < y || (cy == y && cx < x + 1)))) && #[trigger] spike_hit(
                    rooms,
                    r2,
                    j,
                    cx,
                    cy,
                );
            assert(j != k);
            assert(spike_hit(rooms, rolls, j, cx, cy));
        }
    } else {
        if spiked_before(rooms, rolls, k, y, x, cx, cy) {
            let j = choose|j: int|
                0 <= j < rooms.len() && (j < k || (j == k && (cy < y || (cy == y && cx < x)))) && #[trigger] spike_hit(
                    rooms,
                    rolls,
                    j,
                    cx,
                    cy,
                );
            assert(spike_hit(rooms, r2, j, cx, cy));
        }
        if spiked_before(rooms, r2, k, y, x + 1, cx, cy) {
            let j = choose|j: int|
                0 <= j < rooms.len() && (j < k || (j == k && (cy < y || (cy == y && cx < x + 1)))) && #[trigger] spike_hit(
                    rooms,
                    r2,
                    j,
                    cx,
                    cy,
                );
            assert(spike_hit(rooms, rolls, j, cx, cy));
        }
    }
}

/// Visits counted by row and column agree where they name the same cells of room `k`.
proof fn lemma_spiked_bounds(rooms: Seq<Room>, rolls: Seq<Seq<i32>>, k: int, y: int, x: int, y2: int, x2: int, cx: int, cy: int)
    requires
        0 <= k,
        forall|j: int|
            0 <= j < rooms.len() && j == k && in_rect(rooms[j], cx, cy) ==> ((cy < y || (cy == y && cx < x)) <==> (cy < y2
                || (cy == y2 && cx < x2))),
    ensures
        spiked_before(rooms, rolls, k, y, x, cx, cy) == spiked_before(rooms, rolls, k, y2, x2, cx, cy),
{
    if spiked_before(rooms, rolls, k, y, x, cx, cy) {
        let j = choose|j: int|
            0 <= j < rooms.len() && (j < k || (j == k && (cy < y || (cy == y && cx < x)))) && #[trigger] spike_hit(
                rooms,
                rolls,
                j,
                cx,
                cy,
            );
        assert(spike_hit(rooms, rolls, j, cx, cy));
    }
    if spiked_before(rooms, rolls, k, y2, x2, cx, cy) {
        let j = choose|j: int|
            0 <= j < rooms.len() && (j < k || (j == k && (cy < y2 || (cy == y2 && cx < x2)))) && #[trigger] spike_hit(
                rooms,
                rolls,
                j,
                cx,
                cy,
            );
        assert(spike_hit(rooms, rolls, j, cx, cy));
    }
}

/// Puts stalactites in the rooms with a generator seeded with `seed`: room by room,
/// row by row over each room's rectangle, each cell that is floor at that moment
/// takes a draw from `0..100` and becomes a stalactite when it is below 7 (see
/// [`spiked`]). Only such cells change; the rooms stay as they were.
pub fn generate_stalactites(map: &mut DungeonMap, seed: u64)
    requires
        old(map).wf(),
        forall|k: int|
            0 <= k < old(map).rooms@.len() ==> #[trigger] old(map).rooms@[k].x + old(map).rooms@[k].w
                <= MAP_WIDTH && old(map).rooms@[k].y + old(map).rooms@[k].h <= MAP_HEIGHT,
    ensures
        final(map).wf(),
        final(map).rooms@ == old(map).rooms@,
        forall|x: int, y: int|
            on_map(x, y) ==> #[trigger] final(map).tile_at(x, y) == old(map).tile_at(x, y) || (old(
                map,
            ).tile_at(x, y) == Tile::Floor && final(map).tile_at(x, y) == Tile::Stalactite && exists|k: int|
                0 <= k < old(map).rooms@.len() && in_rect(#[trigger] old(map).rooms@[k], x, y)),
        exists|rolls: Seq<Seq<i32>>| #[trigger] spiked(*old(map), rolls, *final(map)),
{
    let mut rng2 = seeded_rng(seed);
    let ghost m0 = *map;
    let ghost rooms = m0.rooms@;
    let ghost mut rolls: Seq<Seq<i32>> = Seq::new(rooms.len(), |k: int| Seq::new(MAP_CELLS as nat, |i: int| 99i32));
    let mut k: usize = 0;
    while k < map.rooms.len()
        invariant
            m0.wf(),
            map.wf(),
            rooms == m0.rooms@,
            map.rooms@ == rooms,
            k <= rooms.len(),
            rolls.len() == rooms.len(),
            forall|j: int| 0 <= j < rolls.len() ==> (#[trigger] rolls[j]).len() == MAP_CELLS,
            forall|j: int, i: int| 0 <= j < rolls.len() && 0 <= i < MAP_CELLS ==> 0 <= #[trigger] rolls[j][i] < 100,
            forall|j: int|
                0 <= j < map.rooms@.len() ==> #[trigger] map.rooms@[j].x + map.rooms@[j].w <= MAP_WIDTH
                    && map.rooms@[j].y + map.rooms@[j].h <= MAP_HEIGHT,
            forall|cx: int, cy: int|
                on_map(cx, cy) ==> #[trigger] map.tile_at(cx, cy) == if m0.tile_at(cx, cy) == Tile::Floor
                    && spiked_before(rooms, rolls, k as int, 0, 0, cx, cy) {
                    Tile::Stalactite
                } else {
                    m0.tile_at(cx, cy)
                },
        decreases rooms.len() - k,
    {
        let room = map.rooms[k];
        let mut y = room.y;
        proof {
            assert forall|cx: int, cy: int| on_map(cx, cy) implies spiked_before(rooms, rolls, k as int, 0, 0, cx, cy)
                == spiked_before(rooms, rolls, k as int, y as int, 0, cx, cy) by {
                lemma_spiked_bounds(rooms, rolls, k as int, 0, 0, y as int, 0, cx, cy);
            }
        }
        while y < room.y + room.h
            invariant
                m0.wf(),
                map.wf(),
                rooms == m0.rooms@,
                map.rooms@ == rooms,
                k < rooms.len(),
                room == rooms[k as int],
                room.x + room.w <= MAP_WIDTH,
                room.y + room.h <= MAP_HEIGHT,
                room.y <= y <= room.y + room.h,
                rolls.len() == rooms.len(),
                forall|j: int| 0 <= j < rolls.len() ==> (#[trigger] rolls[j]).len() == MAP_CELLS,
                forall|j: int, i: int| 0 <= j < rolls.len() && 0 <= i < MAP_CELLS ==> 0 <= #[trigger] rolls[j][i] < 100,
                forall|j: int|
                    0 <= j < map.rooms@.len() ==> #[trigger] map.rooms@[j].x + map.rooms@[j].w <= MAP_WIDTH
                        && map.rooms@[j].y + map.rooms@[j].h <= MAP_HEIGHT,
                forall|cx: int, cy: int|
                    on_map(cx, cy) ==> #[trigger] map.tile_at(cx, cy) == if m0.tile_at(cx, cy) == Tile::Floor
                        && spiked_before(rooms, rolls, k as int, y as int, 0, cx, cy) {
                        Tile::Stalactite
                    } else {
                        m0.tile_at(cx, cy)
                    },
            decreases room.y + room.h - y,
        {
            let mut x = room.x;
            proof {
                assert forall|cx: int, cy: int| on_map(cx, cy) implies spiked_before(rooms, rolls, k as int, y as int, 0, cx, cy)
                    == spiked_before(rooms, rolls, k as int, y as int, x as int, cx, cy) by {
                    lemma_spiked_bounds(rooms, rolls, k as int, y as int, 0, y as int, x as int, cx, cy);
                }
            }
            while x < room.x + room.w
                invariant
                    m0.wf(),
                    map.wf(),
                    rooms == m0.rooms@,
                    map.rooms@ == rooms,
                    k < rooms.len(),
                    room == rooms[k as int],
                    room.x + room.w <= MAP_WIDTH,
                    room.y + room.h <= MAP_HEIGHT,
                    room.y <= y < room.y + room.h,
                    room.x <= x <= room.x + room.w,
                    rolls.len() == rooms.len(),
                    forall|j: int| 0 <= j < rolls.len() ==> (#[trigger] rolls[j]).len() == MAP_CELLS,
                    forall|j: int, i: int| 0 <= j < rolls.len() && 0 <= i < MAP_CELLS ==> 0 <= #[trigger] rolls[j][i] < 100,
                    forall|j: int|
                        0 <= j < map.rooms@.len() ==> #[trigger] map.rooms@[j].x + map.rooms@[j].w <= MAP_WIDTH
                            && map.rooms@[j].y + map.rooms@[j].h <= MAP_HEIGHT,
                    forall|cx: int, cy: int|
                        on_map(cx, cy) ==> #[trigger] map.tile_at(cx, cy) == if m0.tile_at(cx, cy) == Tile::Floor
                            && spiked_before(rooms, rolls, k as int, y as int, x as int, cx, cy) {
                            Tile::Stalactite
                        } else {
                            m0.tile_at(cx, cy)
                        },
                decreases room.x + room.w - x,
            {
                let ghost r0 = rolls;
                let ghost before = *map;
                let ghost ci = cell_index(x as int, y as int);
                proof { lemma_cell_index(x as int, y as int, 0, 0); }
                let mut drawn: i32 = 99;
                if map.get(x, y) == Tile::Floor {
                    drawn = random_i32_in(&mut rng2, 0, 100);
                    if drawn < 7 {
                        map.set(x, y, Tile::Stalactite);
                    }
                }
                proof {
                    rolls = with_roll(r0, k as int, ci, drawn);
                    assert(in_rect(rooms[k as int], x as int, y as int));
                    assert forall|j: int| 0 <= j < rolls.len() implies (#[trigger] rolls[j]).len() == MAP_CELLS by {
                        if j != k { assert(rolls[j] == r0[j]); }
                    }
                    assert forall|j: int, i: int| 0 <= j < rolls.len() && 0 <= i < MAP_CELLS implies 0 <= #[trigger] rolls[j][i]
                        < 100 by {
                        if j != k { assert(rolls[j] == r0[j]); } else if i != ci { assert(rolls[j][i] == r0[j][i]); }
                    }
                    assert forall|cx: int, cy: int| on_map(cx, cy) implies #[trigger] map.tile_at(cx, cy) == if m0.tile_at(cx, cy)
                        == Tile::Floor && spiked_before(rooms, rolls, k as int, y as int, x as int + 1, cx, cy) {
                        Tile::Stalactite
                    } else {
                        m0.tile_at(cx, cy)
                    } by {
                        lemma_spike_visit(rooms, r0, k as int, x as int, y as int, drawn, cx, cy);
                        lemma_cell_index(cx, cy, x as int, y as int);
                        assert(before.tile_at(cx, cy) == if m0.tile_at(cx, cy) == Tile::Floor && spiked_before(
                            rooms,
                            r0,
                            k as int,
                            y as int,
                            x as int,
                            cx,
                            cy,
                        ) {
                            Tile::Stalactite
                        } else {
                            m0.tile_at(cx, cy)
                        });
                    }
                }
                x = x + 1;
            }
            proof {
                assert forall|cx: int, cy: int| on_map(cx, cy) implies spiked_before(rooms, rolls, k as int, y as int, x as int, cx, cy)
                    == spiked_before(rooms, rolls, k as int, y as int + 1, 0, cx, cy) by {
                    lemma_spiked_bounds(rooms, rolls, k as int, y as int, x as int, y as int + 1, 0, cx, cy);
                }
            }
            y = y + 1;
        }
        proof {
            assert forall|cx: int, cy: int| on_map(cx, cy) implies spiked_before(rooms, rolls, k as int, y as int, 0, cx, cy)
                == spiked_before(rooms, rolls, k as int + 1, 0, 0, cx, cy) by {
                if spiked_before(rooms, rolls, k as int + 1, 0, 0, cx, cy) {
                    let j = choose|j: int|
                        0 <= j < rooms.len() && (j < k + 1 || (j == k + 1 && (cy < 0 || (cy == 0 && cx < 0))))
                            && #[trigger] spike_hit(rooms, rolls, j, cx, cy);
                    if j == k {
                        assert(in_rect(rooms[k as int], cx, cy));
                    }
                    assert(spiked_before(rooms, rolls, k as int, y as int, 0, cx, cy));
                }
                if spiked_before(rooms, rolls, k as int, y as int, 0, cx, cy) {
                    let j = choose|j: int|
                        0 <= j < rooms.len() && (j < k || (j == k && (cy < y || (cy == y && cx < 0))))
                            && #[trigger] spike_hit(rooms, rolls, j, cx, cy);
                    assert(spiked_before(rooms, rolls, k as int + 1, 0, 0, cx, cy));
                }
            }
        }
        k = k + 1;
    }
    proof {
        assert(spiked(m0, rolls, *map));
        assert forall|x: int, y: int| on_map(x, y) implies #[trigger] map.tile_at(x, y) == m0.tile_at(x, y) || (m0.tile_at(
            x,
            y,
        ) == Tile::Floor && map.tile_at(x, y) == Tile::Stalactite && exists|j: int|
            0 <= j < m0.rooms@.len() && in_rect(#[trigger] m0.rooms@[j], x, y)) by {
            if map.tile_at(x, y) != m0.tile_at(x, y) {
                let j = choose|j: int|
                    0 <= j < rooms.len() && (j < rooms.len() || (j == rooms.len() && (y < 0 || (y == 0 && x < 0))))
                        && #[trigger] spike_hit(rooms, rolls, j, x, y);
                assert(in_rect(m0.rooms@[j], x, y));
            }
        }
    }
}

/// Whether `(x, y)` lies in the rectangle `[r.x, r.x + r.w) x [r.y, r.y + r.h)`.
pub open spec fn in_rect(r: Room, x: int, y: int) -> bool {
    r.x <= x < r.x + r.w && r.y <= y < r.y + r.h
}

/// Turning non-walkable cells into floor, step after step, is still that.
pub proof fn lemma_only_floored_trans(a: DungeonMap, b: DungeonMap, c: DungeonMap)
    requires
        only_floored(a, b),
        only_floored(b, c),
    ensures
        only_floored(a, c),
{
    assert forall|x: int, y: int| on_map(x, y) implies #[trigger] c.tile_at(x, y) == a.tile_at(x, y) || (
    !tile_walkable(a.tile_at(x, y)) && c.tile_at(x, y) == Tile::Floor) by {
        assert(b.tile_at(x, y) == a.tile_at(x, y) || (!tile_walkable(a.tile_at(x, y)) && b.tile_at(x, y)
            == Tile::Floor));
        assert(c.tile_at(x, y) == b.tile_at(x, y) || (!tile_walkable(b.tile_at(x, y)) && c.tile_at(x, y)
            == Tile::Floor));
    }
}

/// A map is its own result of turning no cell into floor.
pub proof fn lemma_only_floored_refl(a: DungeonMap)
    requires
        a.wf(),
    ensures
        only_floored(a, a),
{
}

/// Turning non-walkable cells into floor never breaks a walk: cells joined before
/// are still joined.
pub proof fn lemma_floored_keeps_connected(m0: DungeonMap, m1: DungeonMap, a: (int, int), b: (int, int))
    requires
        only_floored(m0, m1),
        connected(m0, a, b),
    ensures
        connected(m1, a, b),
{
    let p = choose|p: Seq<(int, int)>| #[trigger] is_walk(m0, p) && p[0] == a && p.last() == b;
    assert forall|i: int| 0 <= i < p.len() implies m1.walkable_at(#[trigger] p[i].0, p[i].1) by {
        assert(m0.walkable_at(p[i].0, p[i].1));
        assert(m1.tile_at(p[i].0, p[i].1) == m0.tile_at(p[i].0, p[i].1) || m1.tile_at(p[i].0, p[i].1)
            == Tile::Floor);
    }
    assert(is_walk(m1, p));
}

/// Makes `(x, y)` floor unless it is already walkable; no other cell changes.
fn carve_floor(map: &mut DungeonMap, x: usize, y: usize)
    requires
        old(map).wf(),
        on_map(x as int, y as int),
    ensures
        only_floored(*old(map), *final(map)),
        tile_walkable(final(map).tile_at(x as int, y as int)),
        forall|cx: int, cy: int|
            on_map(cx, cy) ==> #[trigger] final(map).tile_at(cx, cy) == if cx == x && cy == y && !tile_walkable(
                old(map).tile_at(cx, cy),
            ) {
                Tile::Floor
            } else {
                old(map).tile_at(cx, cy)
            },
{
    if !map.get(x, y).walkable() {
        let ghost before = *map;
        map.set(x, y, Tile::Floor);
        proof {
            assert forall|cx: int, cy: int| on_map(cx, cy) implies #[trigger] map.tile_at(cx, cy) == before.tile_at(
                cx,
                cy,
            ) || (!tile_walkable(before.tile_at(cx, cy)) && map.tile_at(cx, cy) == Tile::Floor) by {
                lemma_cell_index(cx, cy, x as int, y as int);
            }
            assert forall|cx: int, cy: int| on_map(cx, cy) implies #[trigger] map.tile_at(cx, cy) == if cx == x && cy
                == y && !tile_walkable(before.tile_at(cx, cy)) {
                Tile::Floor
            } else {
                before.tile_at(cx, cy)
            } by {
                lemma_cell_index(cx, cy, x as int, y as int);
            }
        }
    }
}

/// `v` held to `lo..=hi`.
pub open spec fn clamp_int(v: int, lo: int, hi: int) -> int {
    if v < lo { lo } else if v > hi { hi } else { v }
}

/// Whether a walk may go from `a` to `b` in one step: `b` is on the map, at most one
/// cell along each axis from `a` held to the map.
pub open spec fn near_step(a: (int, int), b: (int, int)) -> bool {
    &&& on_map(b.0, b.1)
    &&& abs_int(b.0 - clamp_int(a.0, 0, MAP_WIDTH - 1)) <= 1
    &&& abs_int(b.1 - clamp_int(a.1, 0, MAP_HEIGHT - 1)) <= 1
}

/// Where a walk `ps` from `start` stands before its step `i`.
pub open spec fn walk_before(start: (int, int), ps: Seq<(int, int)>, i: int) -> (int, int) {
    if i == 0 { start } else { ps[i - 1] }
}

/// Where a walk `ps` from `start` ends.
pub open spec fn walk_end(start: (int, int), ps: Seq<(int, int)>) -> (int, int) {
    if ps.len() == 0 { start } else { ps.last() }
}

/// Whether `ps` are the cells of a walk from `start`, one step each.
pub open spec fn walk_from(start: (int, int), ps: Seq<(int, int)>) -> bool {
    forall|i: int| 0 <= i < ps.len() ==> near_step(#[trigger] walk_before(start, ps, i), ps[i])
}

/// Whether digging at `p` reaches `(x, y)`: the cell itself, or with `wide` the 2 by 2
/// square with `p` at its top left.
pub open spec fn covers(p: (int, int), x: int, y: int, wide: bool) -> bool {
    if wide {
        p.0 <= x <= p.0 + 1 && p.1 <= y <= p.1 + 1
    } else {
        p.0 == x && p.1 == y
    }
}

/// Whether digging at the cells `cells` reaches `(x, y)`.
pub open spec fn dug_at(cells: Seq<(int, int)>, x: int, y: int, wide: bool) -> bool {
    exists|i: int| 0 <= i < cells.len() && #[trigger] covers(cells[i], x, y, wide)
}

/// The tile at `(x, y)` of `m0` after digging at `cells`: floor where a dig reaches
/// a cell that is not walkable, else as it was.
pub open spec fn tile_after(m0: DungeonMap, cells: Seq<(int, int)>, wide: bool, x: int, y: int) -> Tile {
    if !tile_walkable(m0.tile_at(x, y)) && dug_at(cells, x, y, wide) {
        Tile::Floor
    } else {
        m0.tile_at(x, y)
    }
}

/// Whether `m1` is `m0` after digging at `cells` (see [`tile_after`]).
pub open spec fn dug(m0: DungeonMap, cells: Seq<(int, int)>, wide: bool, m1: DungeonMap) -> bool {
    &&& m1.wf()
    &&& m1.rooms@ == m0.rooms@
    &&& forall|x: int, y: int| on_map(x, y) ==> #[trigger] m1.tile_at(x, y) == tile_after(m0, cells, wide, x, y)
}

/// Whether `m1` is `m0` after a digging walk from `start` towards `target` of `n`
/// turns (at most `limit`), digging at the cells `ps` it stepped on: each step was
/// taken at least 3 steps (along the axes) from the target, and a walk that ended
/// before its last turn ended within 2 of it.
pub open spec fn walk_dug(
    m0: DungeonMap,
    start: (int, int),
    target: (int, int),
    limit: int,
    n: int,
    ps: Seq<(int, int)>,
    wide: bool,
    m1: DungeonMap,
) -> bool {
    &&& dug(m0, ps, wide, m1)
    &&& ps.len() <= n <= limit
    &&& walk_from(start, ps)
    &&& forall|i: int| 0 <= i < ps.len() ==> manhattan(#[trigger] walk_before(start, ps, i), target) >= 3
    &&& (n < limit ==> manhattan(walk_end(start, ps), target) < 3)
}

/// A walk grows by one step, and ends there.
proof fn lemma_walk_from_extend(start: (int, int), ps: Seq<(int, int)>, p: (int, int))
    requires
        walk_from(start, ps),
        near_step(walk_end(start, ps), p),
    ensures
        walk_from(start, ps.push(p)),
        walk_end(start, ps.push(p)) == p,
{
    let ps2 = ps.push(p);
    assert(walk_before(start, ps2, ps.len() as int) == walk_end(start, ps));
    assert forall|i: int| 0 <= i < ps2.len() implies near_step(#[trigger] walk_before(start, ps2, i), ps2[i]) by {
        if i < ps.len() {
            assert(ps2[i] == ps[i]);
            assert(walk_before(start, ps2, i) == walk_before(start, ps, i));
        }
    }
}

/// A walk grows by one step.
proof fn lemma_walk_extend(start: (int, int), target: (int, int), ps: Seq<(int, int)>, p: (int, int))
    requires
        walk_from(start, ps),
        near_step(walk_end(start, ps), p),
        manhattan(walk_end(start, ps), target) >= 3,
        forall|i: int| 0 <= i < ps.len() ==> manhattan(#[trigger] walk_before(start, ps, i), target) >= 3,
    ensures
        walk_from(start, ps.push(p)),
        walk_end(start, ps.push(p)) == p,
        forall|i: int|
            0 <= i < ps.push(p).len() ==> manhattan(#[trigger] walk_before(start, ps.push(p), i), target) >= 3,
{
    let ps2 = ps.push(p);
    assert(walk_before(start, ps2, ps.len() as int) == walk_end(start, ps));
    assert(walk_from(start, ps2)) by {
        assert forall|i: int| 0 <= i < ps2.len() implies near_step(#[trigger] walk_before(start, ps2, i), ps2[i]) by {
            if i < ps.len() {
                assert(ps2[i] == ps[i]);
                assert(walk_before(start, ps2, i) == walk_before(start, ps, i));
            }
        }
    }
    assert forall|i: int| 0 <= i < ps2.len() implies manhattan(#[trigger] walk_before(start, ps2, i), target) >= 3 by {
        if i < ps.len() {
            assert(walk_before(start, ps2, i) == walk_before(start, ps, i));
        }
    }
}

/// Digging changes only cells that were not walkable, into floor.
pub proof fn lemma_dug_only_floored(m0: DungeonMap, cells: Seq<(int, int)>, wide: bool, m1: DungeonMap)
    requires
        m0.wf(),
        dug(m0, cells, wide, m1),
    ensures
        only_floored(m0, m1),
{
}

/// Digging at no cell leaves the map as it is.
proof fn lemma_dug_none(m0: DungeonMap, wide: bool)
    requires
        m0.wf(),
    ensures
        dug(m0, seq![], wide, m0),
{
}

/// One more dig at `p`, made on the map after the earlier ones.
proof fn lemma_dig_more(m0: DungeonMap, cells: Seq<(int, int)>, p: (int, int), wide: bool, before: DungeonMap, after: DungeonMap)
    requires
        dug(m0, cells, wide, before),
        after.wf(),
        after.rooms@ == before.rooms@,
        forall|x: int, y: int|
            on_map(x, y) ==> #[trigger] after.tile_at(x, y) == if covers(p, x, y, wide) && !tile_walkable(
                before.tile_at(x, y),
            ) {
                Tile::Floor
            } else {
                before.tile_at(x, y)
            },
    ensures
        dug(m0, cells.push(p), wide, after),
{
    let c2 = cells.push(p);
    assert forall|x: int, y: int| on_map(x, y) implies #[trigger] after.tile_at(x, y) == tile_after(m0, c2, wide, x, y) by {
        assert(before.tile_at(x, y) == tile_after(m0, cells, wide, x, y));
        if dug_at(cells, x, y, wide) {
            let i = choose|i: int| 0 <= i < cells.len() && #[trigger] covers(cells[i], x, y, wide);
            assert(c2[i] == cells[i]);
        }
        if covers(p, x, y, wide) {
            assert(c2[cells.len() as int] == p);
        }
        if dug_at(c2, x, y, wide) && !covers(p, x, y, wide) {
            let i = choose|i: int| 0 <= i < c2.len() && #[trigger] covers(c2[i], x, y, wide);
            assert(i < cells.len());
            assert(cells[i] == c2[i]);
        }
    }
}

fn signum(v: isize) -> (s: isize)
    ensures
        s == if v > 0 { 1isize } else if v < 0 { -1isize } else { 0isize },
{
    if v > 0 { 1 } else if v < 0 { -1 } else { 0 }
}

fn clamp(v: isize, lo: isize, hi: isize) -> (c: isize)
    requires
        lo <= hi,
    ensures
        c == if v < lo { lo } else if v > hi { hi } else { v },
{
    if v < lo { lo } else if v > hi { hi } else { v }
}

fn abs_isize(v: isize) -> (a: isize)
    requires
        v > isize::MIN,
    ensures
        a == abs_int(v as int),
{
    if v < 0 { -v } else { v }
}

/// The sign of `v`: 1, -1 or 0.
pub open spec fn sign_of(v: int) -> int {
    if v > 0 { 1 } else if v < 0 { -1 } else { 0 }
}

/// The step a biased walk takes for the draws `roll` (from `0..100`) and `other`
/// (from -1, 0, 1).
pub open spec fn biased_outcome(bias: int, from: int, target: int, roll: int, other: int) -> int {
    if roll < bias { sign_of(target - from) } else { other }
}

/// A step of a biased random walk: a draw from `0..100` below `bias` steps towards
/// the target (the sign of `target - from`); otherwise a second draw gives -1, 0 or 1.
fn biased_step(rng: &mut SmallRng, bias: i32, from: isize, target: isize) -> (d: isize)
    requires
        -100 <= from <= 100,
        -100 <= target <= 100,
    ensures
        -1 <= d <= 1,
        exists|roll: int, other: int|
            0 <= roll < 100 && -1 <= other <= 1 && d == #[trigger] biased_outcome(bias as int, from as int, target as int, roll, other),
        bias >= 100 ==> d == sign_of(target - from),
{
    let roll = random_i32_in(rng, 0, 100);
    if roll < bias {
        let d = signum(target - from);
        assert(d == biased_outcome(bias as int, from as int, target as int, roll as int, 0));
        d
    } else {
        let d = random_i32_in(rng, -1, 2) as isize;
        assert(d == biased_outcome(bias as int, from as int, target as int, roll as int, d as int));
        d
    }
}

/// Digs a 2-cell-wide random walk from `from` towards `to`: while it stands at least
/// 3 steps (along the axes) from `to` and has taken fewer than 500 steps, it steps by
/// [`biased_step`] on each axis (towards `to` with probability 1/2), held to the
/// map, and makes floor of the non-walkable cells of the 2 by 2 square with its new
/// cell at the top left (see [`walk_dug`]).
fn dig_wide_passage(map: &mut DungeonMap, rng: &mut SmallRng, from: (usize, usize), to: (usize, usize))
    requires
        old(map).wf(),
        on_map(from.0 as int, from.1 as int),
        on_map(to.0 as int, to.1 as int),
    ensures
        only_floored(*old(map), *final(map)),
        exists|ps: Seq<(int, int)>|
            #[trigger] walk_dug(
                *old(map),
                (from.0 as int, from.1 as int),
                (to.0 as int, to.1 as int),
                500,
                ps.len() as int,
                ps,
                true,
                *final(map),
            ),
{
    let ghost m0 = *map;
    let ghost start = (from.0 as int, from.1 as int);
    let ghost target = (to.0 as int, to.1 as int);
    let ghost mut ps: Seq<(int, int)> = seq![];
    proof { lemma_dug_none(m0, true); }
    let mut cx: isize = from.0 as isize;
    let mut cy: isize = from.1 as isize;
    let tx: isize = to.0 as isize;
    let ty: isize = to.1 as isize;
    let mut step: usize = 0;
    while step < 500 && abs_isize(cx - tx) + abs_isize(cy - ty) >= 3
        invariant
            m0.wf(),
            0 <= cx < MAP_WIDTH,
            0 <= cy < MAP_HEIGHT,
            tx == target.0,
            ty == target.1,
            0 <= tx < MAP_WIDTH,
            0 <= ty < MAP_HEIGHT,
            step <= 500,
            ps.len() == step,
            dug(m0, ps, true, *map),
            walk_from(start, ps),
            walk_end(start, ps) == (cx as int, cy as int),
            forall|i: int| 0 <= i < ps.len() ==> manhattan(#[trigger] walk_before(start, ps, i), target) >= 3,
        decreases 500 - step,
    {
        let dx = biased_step(rng, 50, cx, tx);
        let dy = biased_step(rng, 50, cy, ty);
        let ghost here = (cx as int, cy as int);
        cx = clamp(cx + dx, 0, MAP_WIDTH as isize - 1);
        cy = clamp(cy + dy, 0, MAP_HEIGHT as isize - 1);
        let ghost p = (cx as int, cy as int);
        let ghost b0 = *map;
        let mut o: usize = 0;
        while o < 4
            invariant
                b0.wf(),
                0 <= cx < MAP_WIDTH,
                0 <= cy < MAP_HEIGHT,
                p == (cx as int, cy as int),
                o <= 4,
                map.wf(),
                map.rooms@ == b0.rooms@,
                forall|x: int, y: int|
                    on_map(x, y) ==> #[trigger] map.tile_at(x, y) == if covers(p, x, y, true) && (x - p.0) + 2 * (y
                        - p.1) < o && !tile_walkable(b0.tile_at(x, y)) {
                        Tile::Floor
                    } else {
                        b0.tile_at(x, y)
                    },
            decreases 4 - o,
        {
            let (ox, oy): (usize, usize) = if o == 0 { (0, 0) } else if o == 1 { (1, 0) } else if o == 2 { (0, 1) } else { (1, 1) };
            let ux = cx as usize + ox;
            let uy = cy as usize + oy;
            if ux < MAP_WIDTH && uy < MAP_HEIGHT {
                let ghost before = *map;
                carve_floor(map, ux, uy);
                proof {
                    assert forall|x: int, y: int| on_map(x, y) implies #[trigger] map.tile_at(x, y) == if covers(
                        p,
                        x,
                        y,
                        true,
                    ) && (x - p.0) + 2 * (y - p.1) < o + 1 && !tile_walkable(b0.tile_at(x, y)) {
                        Tile::Floor
                    } else {
                        b0.tile_at(x, y)
                    } by {
                        assert(before.tile_at(x, y) == if covers(p, x, y, true) && (x - p.0) + 2 * (y - p.1) < o
                            && !tile_walkable(b0.tile_at(x, y)) {
                            Tile::Floor
                        } else {
                            b0.tile_at(x, y)
                        });
                    }
                }
            } else {
                proof {
                    assert forall|x: int, y: int| on_map(x, y) implies #[trigger] map.tile_at(x, y) == if covers(
                        p,
                        x,
                        y,
                        true,
                    ) && (x - p.0) + 2 * (y - p.1) < o + 1 && !tile_walkable(b0.tile_at(x, y)) {
                        Tile::Floor
                    } else {
                        b0.tile_at(x, y)
                    } by {
                        if covers(p, x, y, true) && (x - p.0) + 2 * (y - p.1) == o {
                            assert(x == ux && y == uy);
                        }
                    }
                }
            }
            o = o + 1;
        }
        proof {
            assert forall|x: int, y: int| on_map(x, y) implies #[trigger] map.tile_at(x, y) == if covers(p, x, y, true)
                && !tile_walkable(b0.tile_at(x, y)) {
                Tile::Floor
            } else {
                b0.tile_at(x, y)
            } by {
                assert(covers(p, x, y, true) ==> (x - p.0) + 2 * (y - p.1) < 4);
            }
            lemma_dig_more(m0, ps, p, true, b0, *map);
            assert(near_step(here, p));
            lemma_walk_extend(start, target, ps, p);
            ps = ps.push(p);
        }
        step = step + 1;
    }
    proof {
        lemma_dug_only_floored(m0, ps, true, *map);
        assert(walk_dug(m0, start, target, 500, ps.len() as int, ps, true, *map));
    }
}

/// Where passage `p` between the regions `rs` starts: the middle cell of region `p`
/// (counting around).
pub open spec fn passage_start(rs: Seq<Seq<(usize, usize)>>, p: int) -> (int, int) {
    let r = rs[p % (rs.len() as int)];
    (r[r.len() as int / 2].0 as int, r[r.len() as int / 2].1 as int)
}

/// Where passage `p` between the regions `rs` heads: the first cell of region `p + 1`
/// (counting around).
pub open spec fn passage_end(rs: Seq<Seq<(usize, usize)>>, p: int) -> (int, int) {
    let r = rs[(p + 1) % (rs.len() as int)];
    (r[0].0 as int, r[0].1 as int)
}

/// Whether passage `p` took `maps[p]` to `maps[p + 1]` by the wide walk `walks[p]`.
pub open spec fn passage_ok(rs: Seq<Seq<(usize, usize)>>, maps: Seq<DungeonMap>, walks: Seq<Seq<(int, int)>>, p: int) -> bool {
    walk_dug(maps[p], passage_start(rs, p), passage_end(rs, p), 500, walks[p].len() as int, walks[p], true, maps[p + 1])
}

/// Whether `count` passages between the regions `rs` were dug, one after the other,
/// through the maps `maps`.
pub open spec fn passages_dug(rs: Seq<Seq<(usize, usize)>>, count: int, maps: Seq<DungeonMap>, walks: Seq<Seq<(int, int)>>) -> bool {
    &&& maps.len() == count + 1
    &&& walks.len() == count
    &&& forall|p: int| 0 <= p < count ==> #[trigger] passage_ok(rs, maps, walks, p)
}

/// Whether `m1` is `m0` after [`ensure_connectivity`]: for the walkable regions `rs`
/// of `m0`, the map stays when there is at most one; otherwise 2 or 3 wide passages
/// were dug, passage `p` from the middle cell of region `p` towards the first cell
/// of region `p + 1` (counting around).
pub open spec fn linked(m0: DungeonMap, m1: DungeonMap) -> bool {
    exists|rs: Seq<Seq<(usize, usize)>>|
        #[trigger] walkable_regions(m0, rs) && (rs.len() <= 1 ==> m1 == m0) && (rs.len() > 1 ==> exists|
            count: int,
            maps: Seq<DungeonMap>,
            walks: Seq<Seq<(int, int)>>,
        | 2 <= count <= 3 && #[trigger] passages_dug(rs, count, maps, walks) && maps[0] == m0 && maps[count] == m1)
}

/// When the walkable cells form more than one region, digs 2 or 3 wide random
/// passages (the count drawn from a generator seeded with `seed`, which also drives
/// the walks), the k-th from the middle cell of region k towards the first cell of
/// region k + 1 (counting around), each by [`dig_wide_passage`]; see [`linked`].
/// Otherwise the map is left as it is. Only non-walkable cells change, into floor.
pub fn ensure_connectivity(map: &mut DungeonMap, seed: u64)
    requires
        old(map).wf(),
    ensures
        only_floored(*old(map), *final(map)),
        exists|rs: Seq<Seq<(usize, usize)>>|
            #[trigger] walkable_regions(*old(map), rs) && (rs.len() <= 1 ==> *final(map) == *old(map)),
        linked(*old(map), *final(map)),
{
    let mut rng2 = seeded_rng(seed);
    let ghost m0 = *map;
    let regions = collect_walkable_regions(map);
    let ghost rs = region_views(regions@);
    if regions.len() <= 1 {
        proof { lemma_only_floored_refl(m0); }
        return;
    }
    let passages = random_i32_in(&mut rng2, 2, 4);
    let mut p: i32 = 0;
    let ghost mut maps: Seq<DungeonMap> = seq![m0];
    let ghost mut walks: Seq<Seq<(int, int)>> = seq![];
    proof { lemma_only_floored_refl(m0); }
    while p < passages
        invariant
            m0.wf(),
            only_floored(m0, *map),
            regions@.len() > 1,
            rs == region_views(regions@),
            walkable_regions(m0, rs),
            2 <= passages < 4,
            0 <= p <= passages,
            rs.len() > 1,
            passages_dug(rs, p as int, maps, walks),
            maps[0] == m0,
            maps[p as int] == *map,
        decreases passages - p,
    {
        let from_idx = (p as usize) % regions.len();
        let to_idx = (p as usize + 1) % regions.len();
        proof {
            assert(rs[from_idx as int] == regions@[from_idx as int]@);
            assert(rs[to_idx as int] == regions@[to_idx as int]@);
            lemma_region_cells_on_map(m0, rs, from_idx as int);
            lemma_region_cells_on_map(m0, rs, to_idx as int);
        }
        let from = regions[from_idx][regions[from_idx].len() / 2];
        let to = regions[to_idx][0];
        let ghost before = *map;
        dig_wide_passage(map, &mut rng2, from, to);
        proof {
            lemma_only_floored_trans(m0, before, *map);
            let start = (from.0 as int, from.1 as int);
            let target = (to.0 as int, to.1 as int);
            let ps = choose|ps: Seq<(int, int)>|
                #[trigger] walk_dug(before, start, target, 500, ps.len() as int, ps, true, *map);
            assert(start == passage_start(rs, p as int));
            assert(target == passage_end(rs, p as int));
            let maps2 = maps.push(*map);
            let walks2 = walks.push(ps);
            assert forall|q: int| 0 <= q < p + 1 implies #[trigger] passage_ok(rs, maps2, walks2, q) by {
                if q < p {
                    assert(passage_ok(rs, maps, walks, q));
                    assert(maps2[q] == maps[q] && maps2[q + 1] == maps[q + 1] && walks2[q] == walks[q]);
                } else {
                    assert(maps2[q] == before && maps2[q + 1] == *map && walks2[q] == ps);
                }
            }
            maps = maps2;
            walks = walks2;
        }
        p = p + 1;
    }
    proof {
        assert(passages_dug(rs, passages as int, maps, walks));
        assert(linked(m0, *map));
    }
}

/// The cells of a listed region are on the map.
pub proof fn lemma_region_cells_on_map(m: DungeonMap, rs: Seq<Seq<(usize, usize)>>, i: int)
    requires
        walkable_regions(m, rs),
        0 <= i < rs.len(),
    ensures
        forall|k: int| 0 <= k < rs[i].len() ==> on_map((#[trigger] rs[i][k]).0 as int, rs[i][k].1 as int),
{
    let r = rs[i];
    assert(lists_component(m, r));
    assert forall|k: int| 0 <= k < r.len() implies on_map((#[trigger] r[k]).0 as int, r[k].1 as int) by {
        assert(connected(m, crate::regions::cell_of(r[0]), crate::regions::cell_of(r[k])));
        let p = choose|p: Seq<(int, int)>| #[trigger] is_walk(m, p) && p[0] == crate::regions::cell_of(r[0])
            && p.last() == crate::regions::cell_of(r[k]);
        assert(m.walkable_at(p[p.len() - 1].0, p[p.len() - 1].1));
    }
}

/// Unless a walk over walkable cells already joins `from` and `to`, digs a random
/// walk from `from`: while it stands at least 3 steps (along the axes) from `to` and
/// has had fewer than 500 turns, it draws a step on each axis by [`biased_step`]
/// (towards `to` with probability 7/10); a turn that draws no move is skipped,
/// otherwise the walk steps, held to the map, and its new cell becomes floor unless
/// walkable (see [`walk_dug`]).
pub fn ensure_connection_between(map: &mut DungeonMap, rng: &mut SmallRng, from: (usize, usize), to: (usize, usize))
    requires
        old(map).wf(),
        on_map(from.0 as int, from.1 as int),
        on_map(to.0 as int, to.1 as int),
    ensures
        only_floored(*old(map), *final(map)),
        connected(*old(map), (from.0 as int, from.1 as int), (to.0 as int, to.1 as int)) ==> *final(map)
            == *old(map),
        !connected(*old(map), (from.0 as int, from.1 as int), (to.0 as int, to.1 as int)) ==> exists|
            n: int,
            ps: Seq<(int, int)>,
        |
            #[trigger] walk_dug(
                *old(map),
                (from.0 as int, from.1 as int),
                (to.0 as int, to.1 as int),
                500,
                n,
                ps,
                false,
                *final(map),
            ),
{
    let ghost m0 = *map;
    let ghost start = (from.0 as int, from.1 as int);
    let ghost target = (to.0 as int, to.1 as int);
    proof { lemma_only_floored_refl(m0); }
    if has_path_between(map, from, to) {
        return;
    }
    let ghost mut ps: Seq<(int, int)> = seq![];
    proof { lemma_dug_none(m0, false); }
    let mut cx: isize = from.0 as isize;
    let mut cy: isize = from.1 as isize;
    let tx: isize = to.0 as isize;
    let ty: isize = to.1 as isize;
    let mut step: usize = 0;
    while step < 500 && abs_isize(cx - tx) + abs_isize(ty - cy) >= 3
        invariant
            m0.wf(),
            0 <= cx < MAP_WIDTH,
            0 <= cy < MAP_HEIGHT,
            tx == target.0,
            ty == target.1,
            0 <= tx < MAP_WIDTH,
            0 <= ty < MAP_HEIGHT,
            step <= 500,
            ps.len() <= step,
            dug(m0, ps, false, *map),
            walk_from(start, ps),
            walk_end(start, ps) == (cx as int, cy as int),
            forall|i: int| 0 <= i < ps.len() ==> manhattan(#[trigger] walk_before(start, ps, i), target) >= 3,
        decreases 500 - step,
    {
        let dx = biased_step(rng, 70, cx, tx);
        let dy = biased_step(rng, 70, cy, ty);
        if !(dx == 0 && dy == 0) {
            let ghost here = (cx as int, cy as int);
            cx = clamp(cx + dx, 0, MAP_WIDTH as isize - 1);
            cy = clamp(cy + dy, 0, MAP_HEIGHT as isize - 1);
            let ghost p = (cx as int, cy as int);
            let ghost b0 = *map;
            carve_floor(map, cx as usize, cy as usize);
            proof {
                lemma_dig_more(m0, ps, p, false, b0, *map);
                assert(near_step(here, p));
                lemma_walk_extend(start, target, ps, p);
                ps = ps.push(p);
            }
        }
        step = step + 1;
    }
    proof {
        lemma_dug_only_floored(m0, ps, false, *map);
        assert(walk_dug(m0, start, target, 500, step as int, ps, false, *map));
    }
}

/// Whether the spawn cell `(sx, sy)` has a walkable neighbour among its eight
/// (with `usize` wrap-around).
pub open spec fn spawn_has_exit(m: DungeonMap, sx: int, sy: int) -> bool {
    exists|dx: int, dy: int|
        -1 <= dx <= 1 && -1 <= dy <= 1 && !(dx == 0 && dy == 0) && #[trigger] m.walkable_at(
            wrap_step(sx, dx),
            wrap_step(sy, dy),
        )
}

/// Whether the 3 by 3 square around `(ux, uy)` (with `usize` wrap-around) holds a
/// walkable cell other than `(sx, sy)`.
pub open spec fn free_near(m: DungeonMap, ux: int, uy: int, sx: int, sy: int) -> bool {
    exists|dx: int, dy: int|
        -1 <= dx <= 1 && -1 <= dy <= 1 && #[trigger] free_at(m, ux, uy, sx, sy, dx, dy)
}

/// Whether the cell at offset `(dx, dy)` from `(ux, uy)` (with `usize` wrap-around)
/// is walkable and not `(sx, sy)`.
pub open spec fn free_at(m: DungeonMap, ux: int, uy: int, sx: int, sy: int, dx: int, dy: int) -> bool {
    m.walkable_at(wrap_step(ux, dx), wrap_step(uy, dy)) && (wrap_step(ux, dx) != sx || wrap_step(uy, dy) != sy)
}

/// Whether the map cell `(ux, uy)` has a walkable cell other than `(sx, sy)` in the
/// 3 by 3 square around it (with `usize` wrap-around).
fn has_free_cell_near(map: &DungeonMap, ux: usize, uy: usize, sx: usize, sy: usize) -> (b: bool)
    requires
        map.wf(),
    ensures
        b == free_near(*map, ux as int, uy as int, sx as int, sy as int),
{
    let mut free = false;
    let mut dy: isize = -1;
    while dy <= 1
        invariant
            map.wf(),
            -1 <= dy <= 2,
            free == exists|ex: int, ey: int|
                -1 <= ex <= 1 && -1 <= ey < dy && #[trigger] free_at(*map, ux as int, uy as int, sx as int, sy as int, ex, ey),
        decreases 2 - dy,
    {
        let mut dx: isize = -1;
        while dx <= 1
            invariant
                map.wf(),
                -1 <= dy <= 1,
                -1 <= dx <= 2,
                free == exists|ex: int, ey: int|
                    -1 <= ex <= 1 && -1 <= ey <= 1 && (ey < dy || (ey == dy && ex < dx)) && #[trigger] free_at(
                        *map,
                        ux as int,
                        uy as int,
                        sx as int,
                        sy as int,
                        ex,
                        ey,
                    ),
            decreases 2 - dx,
        {
            let nx = ux.wrapping_add_signed(dx);
            let ny = uy.wrapping_add_signed(dy);
            let here = map.is_walkable(nx, ny) && (nx != sx || ny != sy);
            proof {
                assert(nx as int == wrap_step(ux as int, dx as int));
                assert(ny as int == wrap_step(uy as int, dy as int));
                assert(here == free_at(*map, ux as int, uy as int, sx as int, sy as int, dx as int, dy as int));
            }
            if here {
                free = true;
            }
            dx = dx + 1;
        }
        dy = dy + 1;
    }
    free
}

/// Whether, after digging at `cells` in `m0`, the cell at offset `(dx, dy)` from
/// `(ux, uy)` (with `usize` wrap-around) is walkable and not `(sx, sy)`.
pub open spec fn free_after_at(m0: DungeonMap, cells: Seq<(int, int)>, ux: int, uy: int, sx: int, sy: int, dx: int, dy: int) -> bool {
    let nx = wrap_step(ux, dx);
    let ny = wrap_step(uy, dy);
    on_map(nx, ny) && tile_walkable(tile_after(m0, cells, false, nx, ny)) && (nx != sx || ny != sy)
}

/// Whether the walk digging at `cells` in `m0` stops at its last cell: more than 3
/// steps (along the axes) from the spawn `s`, with a walkable cell other than the
/// spawn in the 3 by 3 square around it.
pub open spec fn spawn_stop(m0: DungeonMap, cells: Seq<(int, int)>, s: (int, int)) -> bool {
    let u = cells.last();
    &&& manhattan(u, s) > 3
    &&& exists|dx: int, dy: int|
        -1 <= dx <= 1 && -1 <= dy <= 1 && #[trigger] free_after_at(m0, cells, u.0, u.1, s.0, s.1, dx, dy)
}

/// Whether the walk `ps` would stop after its step `i`.
pub open spec fn stops_after(m0: DungeonMap, ps: Seq<(int, int)>, s: (int, int), i: int) -> bool {
    spawn_stop(m0, ps.take(i + 1), s)
}

/// The cells the way-out walk from the spawn `s` digs in `m0` in its first `k` turns,
/// turn `i` drawing the step `draws[i]`, and whether it has stopped: a turn after the
/// walk stopped, or one that draws no move, does nothing; otherwise the walk steps,
/// held to the map, digs its new cell, and stops there when [`spawn_stop`] holds.
pub open spec fn spawn_walk_cells(m0: DungeonMap, s: (int, int), draws: Seq<(i32, i32)>, k: nat) -> (Seq<(int, int)>, bool)
    decreases k,
{
    if k == 0 || k > draws.len() {
        (seq![], false)
    } else {
        let (ps, stopped) = spawn_walk_cells(m0, s, draws, (k - 1) as nat);
        let d = draws[k - 1];
        if stopped || (d.0 == 0 && d.1 == 0) {
            (ps, stopped)
        } else {
            let here = walk_end(s, ps);
            let p = (clamp_int(here.0 + d.0, 0, MAP_WIDTH - 1), clamp_int(here.1 + d.1, 0, MAP_HEIGHT - 1));
            let ps2 = ps.push(p);
            (ps2, stops_after(m0, ps2, s, ps.len() as int))
        }
    }
}

/// Whether, once `m0` is dug at `cells`, the spawn `s` has a walkable neighbour.
pub open spec fn exit_after(m0: DungeonMap, cells: Seq<(int, int)>, s: (int, int)) -> bool {
    exists|dx: int, dy: int|
        -1 <= dx <= 1 && -1 <= dy <= 1 && !(dx == 0 && dy == 0) && #[trigger] on_map(
            wrap_step(s.0, dx),
            wrap_step(s.1, dy),
        ) && tile_walkable(tile_after(m0, cells, false, wrap_step(s.0, dx), wrap_step(s.1, dy)))
}

/// The neighbour of the spawn `s` dug when the walk leaves it walled in: the one to
/// its right, or to its left at the map's right edge.
pub open spec fn forced_exit(s: (int, int)) -> (int, int) {
    if s.0 + 1 < MAP_WIDTH { (s.0 + 1, s.1) } else { (s.0 - 1, s.1) }
}

/// The cells the way out from the spawn `s` digs in `m0` with the draws `draws`: the
/// walk's cells, and, when the spawn is on the map and still has no walkable
/// neighbour after the walk, its [`forced_exit`].
pub open spec fn spawn_dig_cells(m0: DungeonMap, s: (int, int), draws: Seq<(i32, i32)>) -> Seq<(int, int)> {
    let ps = spawn_walk_cells(m0, s, draws, draws.len()).0;
    if on_map(s.0, s.1) && !exit_after(m0, ps, s) {
        ps.push(forced_exit(s))
    } else {
        ps
    }
}

/// Whether every draw is a step of -1, 0 or 1 on each axis.
pub open spec fn unit_draws(draws: Seq<(i32, i32)>) -> bool {
    forall|i: int| 0 <= i < draws.len() ==> -1 <= (#[trigger] draws[i]).0 <= 1 && -1 <= draws[i].1 <= 1
}

/// On a map dug at `cells`, the spawn's exit test reads the dug tiles.
proof fn lemma_exit_dug(m0: DungeonMap, cells: Seq<(int, int)>, m: DungeonMap, s: (int, int))
    requires
        dug(m0, cells, false, m),
    ensures
        spawn_has_exit(m, s.0, s.1) == exit_after(m0, cells, s),
{
    if spawn_has_exit(m, s.0, s.1) {
        let (dx, dy) = choose|dx: int, dy: int|
            -1 <= dx <= 1 && -1 <= dy <= 1 && !(dx == 0 && dy == 0) && #[trigger] m.walkable_at(
                wrap_step(s.0, dx),
                wrap_step(s.1, dy),
            );
        assert(on_map(wrap_step(s.0, dx), wrap_step(s.1, dy)));
    }
    if exit_after(m0, cells, s) {
        let (dx, dy) = choose|dx: int, dy: int|
            -1 <= dx <= 1 && -1 <= dy <= 1 && !(dx == 0 && dy == 0) && #[trigger] on_map(
                wrap_step(s.0, dx),
                wrap_step(s.1, dy),
            ) && tile_walkable(tile_after(m0, cells, false, wrap_step(s.0, dx), wrap_step(s.1, dy)));
        assert(m.walkable_at(wrap_step(s.0, dx), wrap_step(s.1, dy)));
    }
}

/// On a map dug at `cells`, the free-cell test reads the dug tiles.
proof fn lemma_free_near_dug(m0: DungeonMap, cells: Seq<(int, int)>, m: DungeonMap, u: (int, int), s: (int, int))
    requires
        dug(m0, cells, false, m),
        cells.len() > 0,
        cells.last() == u,
    ensures
        free_near(m, u.0, u.1, s.0, s.1) == (exists|dx: int, dy: int|
            -1 <= dx <= 1 && -1 <= dy <= 1 && #[trigger] free_after_at(m0, cells, u.0, u.1, s.0, s.1, dx, dy)),
{
    assert forall|dx: int, dy: int| -1 <= dx <= 1 && -1 <= dy <= 1 implies #[trigger] free_at(m, u.0, u.1, s.0, s.1, dx, dy)
        == free_after_at(m0, cells, u.0, u.1, s.0, s.1, dx, dy) by {
        let nx = wrap_step(u.0, dx);
        let ny = wrap_step(u.1, dy);
        if on_map(nx, ny) {
            assert(m.tile_at(nx, ny) == tile_after(m0, cells, false, nx, ny));
        }
    }
    if free_near(m, u.0, u.1, s.0, s.1) {
        let (dx, dy) = choose|dx: int, dy: int| -1 <= dx <= 1 && -1 <= dy <= 1 && #[trigger] free_at(m, u.0, u.1, s.0, s.1, dx, dy);
        assert(free_after_at(m0, cells, u.0, u.1, s.0, s.1, dx, dy));
    }
    if exists|dx: int, dy: int|
        -1 <= dx <= 1 && -1 <= dy <= 1 && #[trigger] free_after_at(m0, cells, u.0, u.1, s.0, s.1, dx, dy) {
        let (dx, dy) = choose|dx: int, dy: int|
            -1 <= dx <= 1 && -1 <= dy <= 1 && #[trigger] free_after_at(m0, cells, u.0, u.1, s.0, s.1, dx, dy);
        assert(free_at(m, u.0, u.1, s.0, s.1, dx, dy));
    }
}

/// Whether the spawn cell `(sx, sy)` has a walkable neighbour among its eight.
fn has_spawn_exit(map: &DungeonMap, sx: usize, sy: usize) -> (b: bool)
    requires
        map.wf(),
    ensures
        b == spawn_has_exit(*map, sx as int, sy as int),
{
    let mut dy: isize = -1;
    while dy <= 1
        invariant
            map.wf(),
            -1 <= dy <= 2,
            forall|ex: int, ey: int|
                -1 <= ex <= 1 && -1 <= ey < dy && !(ex == 0 && ey == 0) ==> !#[trigger] map.walkable_at(
                    wrap_step(sx as int, ex),
                    wrap_step(sy as int, ey),
                ),
        decreases 2 - dy,
    {
        let mut dx: isize = -1;
        while dx <= 1
            invariant
                map.wf(),
                -1 <= dy <= 1,
                -1 <= dx <= 2,
                forall|ex: int, ey: int|
                    -1 <= ex <= 1 && -1 <= ey <= 1 && (ey < dy || (ey == dy && ex < dx)) && !(ex == 0 && ey
                        == 0) ==> !#[trigger] map.walkable_at(wrap_step(sx as int, ex), wrap_step(sy as int, ey)),
            decreases 2 - dx,
        {
            if !(dx == 0 && dy == 0) {
                let nx = sx.wrapping_add_signed(dx);
                let ny = sy.wrapping_add_signed(dy);
                if map.is_walkable(nx, ny) {
                    proof {
                        assert(map.walkable_at(wrap_step(sx as int, dx as int), wrap_step(sy as int, dy as int)));
                    }
                    return true;
                }
            }
            dx = dx + 1;
        }
        dy = dy + 1;
    }
    false
}

/// Digs the way out from the spawn `(sx, sy)` with the drawn steps `draws`, one per
/// turn (see [`spawn_dig_cells`]): the walk of [`spawn_walk_cells`], then, when the
/// spawn is on the map and still walled in, its [`forced_exit`]. Afterwards a spawn on
/// the map has a walkable neighbour.
pub fn dig_spawn_walk(map: &mut DungeonMap, sx: usize, sy: usize, draws: &Vec<(i32, i32)>)
    requires
        old(map).wf(),
        sx < isize::MAX,
        sy < isize::MAX,
        unit_draws(draws@),
    ensures
        dug(*old(map), spawn_dig_cells(*old(map), (sx as int, sy as int), draws@), false, *final(map)),
        only_floored(*old(map), *final(map)),
        on_map(sx as int, sy as int) ==> spawn_has_exit(*final(map), sx as int, sy as int),
{
    let ghost m0 = *map;
    let ghost s = (sx as int, sy as int);
    let ghost mut ps: Seq<(int, int)> = seq![];
    proof { lemma_dug_none(m0, false); }
    let mut cx: isize = sx as isize;
    let mut cy: isize = sy as isize;
    let mut step: usize = 0;
    let mut stopped = false;
    while step < draws.len()
        invariant
            m0.wf(),
            unit_draws(draws@),
            sx < isize::MAX,
            sy < isize::MAX,
            s == (sx as int, sy as int),
            0 <= cx < isize::MAX,
            0 <= cy < isize::MAX,
            step <= draws@.len(),
            (ps, stopped) == spawn_walk_cells(m0, s, draws@, step as nat),
            dug(m0, ps, false, *map),
            walk_end(s, ps) == (cx as int, cy as int),
        decreases draws@.len() - step,
    {
        let (dx, dy) = draws[step];
        proof {
            assert(-1 <= draws@[step as int].0 <= 1 && -1 <= draws@[step as int].1 <= 1);
        }
        if !stopped && !(dx == 0 && dy == 0) {
            cx = clamp(cx + dx as isize, 0, MAP_WIDTH as isize - 1);
            cy = clamp(cy + dy as isize, 0, MAP_HEIGHT as isize - 1);
            let ux = cx as usize;
            let uy = cy as usize;
            let ghost p = (cx as int, cy as int);
            let ghost b0 = *map;
            carve_floor(map, ux, uy);
            let ghost ps2 = ps.push(p);
            proof {
                lemma_dig_more(m0, ps, p, false, b0, *map);
                assert(ps2.take(ps.len() as int + 1) =~= ps2);
                lemma_free_near_dug(m0, ps2, *map, p, s);
            }
            let stop = abs_diff(ux, sx) + abs_diff(uy, sy) > 3 && has_free_cell_near(map, ux, uy, sx, sy);
            proof {
                assert(stop == stops_after(m0, ps2, s, ps.len() as int));
                ps = ps2;
            }
            stopped = stop;
        }
        step = step + 1;
    }
    proof {
        lemma_exit_dug(m0, ps, *map, s);
    }
    if sx < MAP_WIDTH && sy < MAP_HEIGHT && !has_spawn_exit(map, sx, sy) {
        let fx = if sx + 1 < MAP_WIDTH { sx + 1 } else { sx - 1 };
        let ghost b0 = *map;
        carve_floor(map, fx, sy);
        proof {
            let f = (fx as int, sy as int);
            assert(f == forced_exit(s));
            lemma_dig_more(m0, ps, f, false, b0, *map);
            let dx: int = if sx + 1 < MAP_WIDTH { 1 } else { -1 };
            assert(wrap_step(sx as int, dx) == fx && wrap_step(sy as int, 0) == sy);
            assert(map.walkable_at(wrap_step(sx as int, dx), wrap_step(sy as int, 0)));
        }
    }
    proof {
        lemma_dug_only_floored(m0, spawn_dig_cells(m0, s, draws@), false, *map);
    }
}

/// Makes sure the player is not walled in: when the centre of the first room has no
/// walkable neighbour, draws 100 steps of -1, 0 or 1 on each axis from a generator
/// seeded with `seed` and digs the way out with them (see [`dig_spawn_walk`]).
/// Without rooms, or with such a neighbour, the map is left as it is; afterwards a
/// centre on the map always has a walkable neighbour.
pub fn ensure_spawn_accessible(map: &mut DungeonMap, seed: u64)
    requires
        old(map).wf(),
        old(map).rooms@.len() > 0 ==> room_center(old(map).rooms@[0]).0 < isize::MAX && room_center(
            old(map).rooms@[0],
        ).1 < isize::MAX,
    ensures
        spawn_freed(*old(map), *final(map)),
{
    let ghost m0 = *map;
    proof { lemma_only_floored_refl(m0); }
    if map.rooms.len() == 0 {
        return;
    }
    assert(room_fits(map.rooms@[0]));
    let (sx, sy) = map.rooms[0].center();
    if has_spawn_exit(map, sx, sy) {
        return;
    }
    let mut rng2 = seeded_rng(seed);
    let mut draws: Vec<(i32, i32)> = Vec::new();
    let mut k: usize = 0;
    while k < 100
        invariant
            k <= 100,
            draws@.len() == k,
            unit_draws(draws@),
        decreases 100 - k,
    {
        let dx = random_i32_in(&mut rng2, -1, 2);
        let dy = random_i32_in(&mut rng2, -1, 2);
        draws.push((dx, dy));
        k = k + 1;
    }
    dig_spawn_walk(map, sx, sy, &draws);
}

/// Every room lies inside the map.
pub open spec fn rooms_on_map(m: DungeonMap) -> bool {
    forall|k: int|
        0 <= k < m.rooms@.len() ==> #[trigger] m.rooms@[k].x + m.rooms@[k].w <= MAP_WIDTH && m.rooms@[k].y
            + m.rooms@[k].h <= MAP_HEIGHT
}

/// The room used when a cave has no region large enough: a 10 by 10 square in the
/// middle of the map.
pub open spec fn fallback_room() -> Room {
    Room { x: (MAP_WIDTH / 2 - 5) as usize, y: (MAP_HEIGHT / 2 - 5) as usize, w: 10, h: 10, shape: RoomShape::Rect }
}

/// Most rooms a cave map gets.
pub const MAX_CAVE_ROOMS: usize = 12;

/// Whether `m1` is `m0` after the way-out step of [`ensure_spawn_accessible`]: only
/// cells that were not walkable became floor; without rooms, or when the centre `c`
/// of the first room had a walkable neighbour, nothing changed; otherwise the map was
/// dug as [`spawn_dig_cells`] says for some 100 drawn steps; and a centre on the map
/// has a walkable neighbour afterwards.
pub open spec fn spawn_freed(m0: DungeonMap, m1: DungeonMap) -> bool {
    let c = room_center(m0.rooms@[0]);
    &&& only_floored(m0, m1)
    &&& m0.rooms@.len() == 0 ==> m1 == m0
    &&& m0.rooms@.len() > 0 && spawn_has_exit(m0, c.0, c.1) ==> m1 == m0
    &&& m0.rooms@.len() > 0 && !spawn_has_exit(m0, c.0, c.1) ==> exists|draws: Seq<(i32, i32)>|
        draws.len() == 100 && unit_draws(draws) && #[trigger] dug(m0, spawn_dig_cells(m0, c, draws), false, m1)
    &&& m0.rooms@.len() > 0 && on_map(c.0, c.1) ==> spawn_has_exit(m1, c.0, c.1)
}

/// Whether `m4` is `m0` after the finishing steps, through `m1` (widened), `m2`
/// (stalactites), `m3` (passages between regions).
pub open spec fn finished_through(m0: DungeonMap, m1: DungeonMap, m2: DungeonMap, m3: DungeonMap, m4: DungeonMap) -> bool {
    &&& exists|r: Seq<i32>| #[trigger] widened(m0, r, m1)
    &&& exists|r: Seq<Seq<i32>>| #[trigger] spiked(m1, r, m2)
    &&& only_floored(m2, m3)
    &&& linked(m2, m3)
    &&& spawn_freed(m3, m4)
}

impl DungeonMap {
    /// Replaces the tiles by a cave: floor where `floor` is set (row by row), wall
    /// elsewhere. The rooms stay as they were.
    pub fn apply_cave_grid(&mut self, floor: &Vec<bool>)
        requires
            old(self).wf(),
            floor@.len() == MAP_CELLS,
        ensures
            final(self).wf(),
            final(self).rooms@ == old(self).rooms@,
            forall|i: int|
                0 <= i < MAP_CELLS ==> #[trigger] final(self).tiles@[i] == if floor@[i] {
                    Tile::Floor
                } else {
                    Tile::Wall
                },
    {
        let mut i: usize = 0;
        while i < MAP_CELLS
            invariant
                self.wf(),
                self.rooms@ == old(self).rooms@,
                i <= MAP_CELLS,
                floor@.len() == MAP_CELLS,
                forall|k: int|
                    0 <= k < i ==> #[trigger] self.tiles@[k] == if floor@[k] { Tile::Floor } else { Tile::Wall },
            decreases MAP_CELLS - i,
        {
            let t = if floor[i] { Tile::Floor } else { Tile::Wall };
            self.tiles.set(i, t);
            i = i + 1;
        }
    }

    /// Finds the rooms of a cave: the bounding rectangles of its walkable regions,
    /// largest first, at most twelve. When there is no region of six cells or more,
    /// the single room is the 10 by 10 square in the middle, which is floored.
    pub fn place_rooms(&mut self)
        requires
            old(self).wf(),
        ensures
            final(self).wf(),
            rooms_on_map(*final(self)),
            final(self).rooms@.len() >= 1,
            exists|rs: Seq<Seq<(usize, usize)>>|
                #[trigger] walkable_regions(*old(self), rs) && (rs.len() > 0 ==> final(self).tiles@
                    == old(self).tiles@ && final(self).rooms@.len() == (if rs.len() <= MAX_CAVE_ROOMS {
                    rs.len() as int
                } else {
                    MAX_CAVE_ROOMS as int
                }) && forall|i: int|
                    0 <= i < final(self).rooms@.len() ==> bounds_region(#[trigger] final(self).rooms@[i], rs[i]))
                    && (rs.len() == 0 ==> final(self).rooms@ == seq![fallback_room()] && forall|x: int, y: int|
                    on_map(x, y) ==> #[trigger] final(self).tile_at(x, y) == if in_rect(fallback_room(), x, y) {
                        Tile::Floor
                    } else {
                        old(self).tile_at(x, y)
                    }),
    {
        let rooms = detect_cave_regions(self, MAX_CAVE_ROOMS);
        let ghost m0 = *self;
        if rooms.len() > 0 {
            self.rooms = rooms;
            proof {
                let rs = choose|rs: Seq<Seq<(usize, usize)>>|
                    #[trigger] walkable_regions(m0, rs) && rooms@.len() == (if rs.len() <= MAX_CAVE_ROOMS {
                        rs.len() as int
                    } else {
                        MAX_CAVE_ROOMS as int
                    }) && forall|i: int| 0 <= i < rooms@.len() ==> bounds_region(#[trigger] rooms@[i], rs[i]);
                assert(walkable_regions(m0, rs));
                assert forall|k: int| 0 <= k < self.rooms@.len() implies room_fits(#[trigger] self.rooms@[k]) by {
                    assert(self.rooms@[k].x + self.rooms@[k].w <= MAP_WIDTH);
                }
            }
            return;
        }
        let room = Room { x: MAP_WIDTH / 2 - 5, y: MAP_HEIGHT / 2 - 5, w: 10, h: 10, shape: RoomShape::Rect };
        let mut rv: Vec<Room> = Vec::new();
        rv.push(room);
        self.rooms = rv;
        let ghost m1 = *self;
        let mut y = room.y;
        while y < room.y + room.h
            invariant
                self.wf(),
                self.rooms@ == seq![fallback_room()],
                room == fallback_room(),
                room.y <= y <= room.y + room.h,
                forall|cx: int, cy: int|
                    on_map(cx, cy) ==> #[trigger] self.tile_at(cx, cy) == if in_rect(room, cx, cy) && cy < y {
                        Tile::Floor
                    } else {
                        m0.tile_at(cx, cy)
                    },
            decreases room.y + room.h - y,
        {
            let mut x = room.x;
            while x < room.x + room.w
                invariant
                    self.wf(),
                    self.rooms@ == seq![fallback_room()],
                    room == fallback_room(),
                    room.y <= y < room.y + room.h,
                    room.x <= x <= room.x + room.w,
                    forall|cx: int, cy: int|
                        on_map(cx, cy) ==> #[trigger] self.tile_at(cx, cy) == if in_rect(room, cx, cy) && (cy < y || (
                        cy == y && cx < x)) {
                            Tile::Floor
                        } else {
                            m0.tile_at(cx, cy)
                        },
                decreases room.x + room.w - x,
            {
                let ghost before = *self;
                self.set(x, y, Tile::Floor);
                proof {
                    assert forall|cx: int, cy: int| on_map(cx, cy) implies #[trigger] self.tile_at(cx, cy) == if in_rect(
                        room,
                        cx,
                        cy,
                    ) && (cy < y || (cy == y && cx < x + 1)) {
                        Tile::Floor
                    } else {
                        m0.tile_at(cx, cy)
                    } by {
                        lemma_cell_index(cx, cy, x as int, y as int);
                        assert(before.tile_at(cx, cy) == if in_rect(room, cx, cy) && (cy < y || (cy == y && cx < x)) {
                            Tile::Floor
                        } else {
                            m0.tile_at(cx, cy)
                        });
                    }
                }
                x = x + 1;
            }
            y = y + 1;
        }
        proof {
            let rs = choose|rs: Seq<Seq<(usize, usize)>>|
                #[trigger] walkable_regions(m0, rs) && rooms@.len() == (if rs.len() <= MAX_CAVE_ROOMS {
                    rs.len() as int
                } else {
                    MAX_CAVE_ROOMS as int
                }) && forall|i: int| 0 <= i < rooms@.len() ==> bounds_region(#[trigger] rooms@[i], rs[i]);
            assert(rs.len() == 0);
            assert(walkable_regions(m0, rs));
        }
    }

    /// The steps of cave generation after the water: widening (seed + 150),
    /// stalactites (seed + 200), passages between regions (seed + 300) and a way out of
    /// the spawn cell (seed + 350), each drawing from a generator seeded as given
    /// (with wrap-around); see [`finished_through`]. The rooms stay; each cell keeps
    /// its tile, becomes floor, or becomes a stalactite inside a room.
    pub fn finish_generation(&mut self, seed: u64)
        requires
            old(self).wf(),
            rooms_on_map(*old(self)),
        ensures
            final(self).wf(),
            exists|m1: DungeonMap, m2: DungeonMap, m3: DungeonMap| #[trigger] finished_through(*old(self), m1, m2, m3, *final(self)),
            final(self).rooms@ == old(self).rooms@,
            forall|x: int, y: int|
                on_map(x, y) ==> #[trigger] final(self).tile_at(x, y) == old(self).tile_at(x, y)
                    || final(self).tile_at(x, y) == Tile::Floor || (final(self).tile_at(x, y)
                    == Tile::Stalactite && exists|k: int|
                    0 <= k < old(self).rooms@.len() && in_rect(#[trigger] old(self).rooms@[k], x, y)),
    {
        let ghost m0 = *self;
        carve_expand(self, seed.wrapping_add(150));
        let ghost m1 = *self;
        generate_stalactites(self, seed.wrapping_add(200));
        let ghost m2 = *self;
        ensure_connectivity(self, seed.wrapping_add(300));
        let ghost m3 = *self;
        proof {
            if self.rooms@.len() > 0 {
                assert(self.rooms@[0] == m0.rooms@[0]);
                assert(self.rooms@[0].x + self.rooms@[0].w <= MAP_WIDTH);
            }
        }
        ensure_spawn_accessible(self, seed.wrapping_add(350));
        proof {
            assert(spawn_freed(m3, *self));
            assert(finished_through(m0, m1, m2, m3, *self));
            lemma_only_floored_trans(m2, m3, *self);
            assert forall|x: int, y: int| on_map(x, y) implies #[trigger] self.tile_at(x, y) == m0.tile_at(x, y)
                || self.tile_at(x, y) == Tile::Floor || (self.tile_at(x, y) == Tile::Stalactite && exists|k: int|
                0 <= k < m0.rooms@.len() && in_rect(#[trigger] m0.rooms@[k], x, y)) by {
                assert(m1.tile_at(x, y) == m0.tile_at(x, y) || m1.tile_at(x, y) == Tile::Floor);
                assert(m2.tile_at(x, y) == m1.tile_at(x, y) || (m1.tile_at(x, y) == Tile::Floor && m2.tile_at(x, y)
                    == Tile::Stalactite && exists|k: int|
                    0 <= k < m1.rooms@.len() && in_rect(#[trigger] m1.rooms@[k], x, y)));
                assert(self.tile_at(x, y) == m2.tile_at(x, y) || self.tile_at(x, y) == Tile::Floor);
            }
        }
    }
}

} // verus!
