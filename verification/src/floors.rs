use vstd::prelude::*;
use rand::rngs::SmallRng;
use crate::tile::{MAP_WIDTH, MAP_HEIGHT};
use crate::room::{Room, room_center, on_map, abs_int};
use crate::map::{DungeonMap, manhattan, wrap_step};
use crate::terrain::clamp_int;
use crate::rng::{seeded_rng, random_i32_in};
use crate::text::{push_text, push_decimal, decimal};

verus! {

/// Least distance, along the axes, between the spawn and the stairs that a random
/// placement looks for.
pub const STAIR_MIN_DIST: usize = 15;

/// Whether `p` is a stair cell the random walk accepts: walkable and at least
/// `STAIR_MIN_DIST` from the spawn along the axes.
pub open spec fn far_walkable(m: DungeonMap, spawn: (usize, usize), p: (usize, usize)) -> bool {
    m.walkable_at(p.0 as int, p.1 as int) && manhattan((p.0 as int, p.1 as int), (spawn.0 as int, spawn.1 as int))
        >= STAIR_MIN_DIST
}

/// Whether `p` is a cell the last search may return: walkable, not the spawn, and
/// within 40 cells of it in each direction.
pub open spec fn near_walkable(m: DungeonMap, spawn: (usize, usize), p: (usize, usize)) -> bool {
    &&& m.walkable_at(p.0 as int, p.1 as int)
    &&& p != spawn
    &&& abs_int(p.0 - spawn.0) <= 40
    &&& abs_int(p.1 - spawn.1) <= 40
}

/// Where the stair walk from `spawn` stands after its first `k` drawn steps, and the
/// cell it stopped on, if any: a turn after it stopped, or one that draws no move,
/// does nothing; otherwise it steps, held to the map, and stops on a cell that is
/// [`far_walkable`].
pub open spec fn stair_walk(m: DungeonMap, spawn: (usize, usize), draws: Seq<(i32, i32)>, k: nat) -> ((int, int), Option<(usize, usize)>)
    decreases k,
{
    if k == 0 || k > draws.len() {
        ((spawn.0 as int, spawn.1 as int), None)
    } else {
        let (c, hit) = stair_walk(m, spawn, draws, (k - 1) as nat);
        let d = draws[k - 1];
        if hit is Some || (d.0 == 0 && d.1 == 0) {
            (c, hit)
        } else {
            let n = (clamp_int(c.0 + d.0, 0, MAP_WIDTH - 1), clamp_int(c.1 + d.1, 0, MAP_HEIGHT - 1));
            if far_walkable(m, spawn, (n.0 as usize, n.1 as usize)) {
                (n, Some((n.0 as usize, n.1 as usize)))
            } else {
                (n, None)
            }
        }
    }
}

/// Whether the square search looks at offset `(dx, dy)` from `spawn` in its square
/// of size `r` (15 to 40) and finds a walkable cell there (not the spawn).
pub open spec fn scan_hit(m: DungeonMap, spawn: (usize, usize), r: int, dy: int, dx: int) -> bool {
    &&& 15 <= r <= 40
    &&& -r <= dy <= r
    &&& -r <= dx <= r
    &&& !(dx == 0 && dy == 0)
    &&& m.walkable_at(spawn.0 + dx, spawn.1 + dy)
}

/// Whether `(r2, dy2, dx2)` comes before `(r, dy, dx)` in the search: smaller squares
/// first, then row by row, then left to right.
pub open spec fn scan_before(r2: int, dy2: int, dx2: int, r: int, dy: int, dx: int) -> bool {
    r2 < r || (r2 == r && (dy2 < dy || (dy2 == dy && dx2 < dx)))
}

/// Whether the search finds nothing before `(r, dy, dx)`.
pub open spec fn no_hit_before(m: DungeonMap, spawn: (usize, usize), r: int, dy: int, dx: int) -> bool {
    forall|r2: int, dy2: int, dx2: int|
        scan_before(r2, dy2, dx2, r, dy, dx) ==> !#[trigger] scan_hit(m, spawn, r2, dy2, dx2)
}

/// Whether `p` is the first walkable cell, other than the spawn, of the search through
/// squares of size 15 to 40 around `spawn`, row by row.
pub open spec fn search_first(m: DungeonMap, spawn: (usize, usize), p: (usize, usize)) -> bool {
    exists|r: int, dy: int, dx: int|
        #[trigger] scan_hit(m, spawn, r, dy, dx) && no_hit_before(m, spawn, r, dy, dx) && p.0 == spawn.0 + dx
            && p.1 == spawn.1 + dy
}

/// The cell right of the spawn by `STAIR_MIN_DIST`, taken when nothing else is found.
pub open spec fn stair_fallback(spawn: (usize, usize)) -> (usize, usize) {
    ((spawn.0 + STAIR_MIN_DIST) as usize, spawn.1)
}

/// Where the stairs go on a map of one room or none, with the drawn steps `draws`:
/// where the walk stopped; else the first cell of the square search; else, with no
/// walkable cell other than the spawn within 40 of it, the fallback.
pub open spec fn stair_chosen(m: DungeonMap, spawn: (usize, usize), draws: Seq<(i32, i32)>, p: (usize, usize)) -> bool {
    match stair_walk(m, spawn, draws, draws.len()).1 {
        Some(q) => p == q,
        None => if exists|q: (usize, usize)| #[trigger] near_walkable(m, spawn, q) {
            search_first(m, spawn, p)
        } else {
            p == stair_fallback(spawn)
        },
    }
}

/// A near walkable cell is a hit of the last square.
proof fn lemma_near_is_hit(m: DungeonMap, spawn: (usize, usize), q: (usize, usize))
    requires
        near_walkable(m, spawn, q),
        on_map(spawn.0 as int, spawn.1 as int),
    ensures
        scan_hit(m, spawn, 40, q.1 - spawn.1, q.0 - spawn.0),
{
}

/// Where the stairs go, away from the spawn: with two rooms or more, the centre of
/// the room farthest from the spawn (the last of equally far ones); otherwise a random
/// walk of up to 60 drawn steps from the spawn that stops on a walkable cell at least
/// 15 away (see [`stair_walk`]); failing that, the first walkable cell other than the
/// spawn found searching squares of growing size (15 to 40) around it, row by row
/// (see [`search_first`]); failing that, 15 cells right of the spawn. On one room or
/// none the stairs are walkable and not the spawn whenever a walkable cell other
/// than the spawn lies within 40 of it.
pub fn pick_stair_pos(map: &DungeonMap, spawn: (usize, usize), rng: &mut SmallRng) -> (p: (usize, usize))
    requires
        map.wf(),
        on_map(spawn.0 as int, spawn.1 as int),
        forall|k: int|
            0 <= k < map.rooms@.len() ==> manhattan(room_center(#[trigger] map.rooms@[k]), (spawn.0 as int, spawn.1 as int))
                <= usize::MAX,
    ensures
        map.rooms@.len() > 1 ==> exists|k: int|
            0 <= k < map.rooms@.len() && p.0 == room_center(map.rooms@[k]).0 && p.1 == room_center(map.rooms@[k]).1
                && (forall|j: int| 0 <= j < map.rooms@.len() ==> map.room_distance(j, spawn) <= map.room_distance(k, spawn))
                && (forall|j: int| k < j < map.rooms@.len() ==> map.room_distance(j, spawn) < map.room_distance(k, spawn)),
        map.rooms@.len() <= 1 ==> exists|draws: Seq<(i32, i32)>|
            draws.len() <= 60 && (forall|i: int| 0 <= i < draws.len() ==> -1 <= (#[trigger] draws[i]).0 <= 1 && -1
                <= draws[i].1 <= 1) && #[trigger] stair_chosen(*map, spawn, draws, p),
        map.rooms@.len() <= 1 && (exists|q: (usize, usize)| #[trigger] near_walkable(*map, spawn, q)) ==> map.walkable_at(
            p.0 as int,
            p.1 as int,
        ) && p != spawn,
{
    if map.rooms.len() > 1 {
        match map.farthest_room_from(spawn) {
            Some(best) => {
                return best;
            },
            None => {},
        }
    }
    let ghost mut draws: Seq<(i32, i32)> = seq![];
    let mut cx: isize = spawn.0 as isize;
    let mut cy: isize = spawn.1 as isize;
    let mut step: usize = 0;
    while step < 60
        invariant
            map.wf(),
            0 <= cx < MAP_WIDTH,
            0 <= cy < MAP_HEIGHT,
            on_map(spawn.0 as int, spawn.1 as int),
            map.rooms@.len() <= 1,
            draws.len() == step,
            step <= 60,
            forall|i: int| 0 <= i < draws.len() ==> -1 <= (#[trigger] draws[i]).0 <= 1 && -1 <= draws[i].1 <= 1,
            stair_walk(*map, spawn, draws, draws.len()) == ((cx as int, cy as int), None::<(usize, usize)>),
        decreases 60 - step,
    {
        let dx = random_i32_in(rng, -1, 2);
        let dy = random_i32_in(rng, -1, 2);
        let ghost d0 = draws;
        let ghost c0 = (cx as int, cy as int);
        proof {
            lemma_stair_walk_step(*map, spawn, draws, (dx, dy), c0);
            draws = draws.push((dx, dy));
        }
        step = step + 1;
        if dx == 0 && dy == 0 {
            continue;
        }
        cx = clamp_to(cx + dx as isize, MAP_WIDTH as isize - 1);
        cy = clamp_to(cy + dy as isize, MAP_HEIGHT as isize - 1);
        let ux = cx as usize;
        let uy = cy as usize;
        let dist = (if ux >= spawn.0 { ux - spawn.0 } else { spawn.0 - ux }) + (if uy >= spawn.1 { uy - spawn.1 } else { spawn.1 - uy });
        if dist >= STAIR_MIN_DIST && map.is_walkable(ux, uy) {
            proof {
                assert(far_walkable(*map, spawn, (ux, uy)));
                assert(stair_walk(*map, spawn, draws, draws.len()).1 == Some((ux, uy)));
                assert(stair_chosen(*map, spawn, draws, (ux, uy)));
            }
            return (ux, uy);
        }
        proof {
            assert(!far_walkable(*map, spawn, (ux, uy)));
        }
    }
    let p = stair_search(map, spawn);
    proof {
        assert(stair_walk(*map, spawn, draws, draws.len()).1 is None);
        assert(stair_chosen(*map, spawn, draws, p));
    }
    p
}

/// One more drawn step of the stair walk, which had not stopped, standing at `c`.
proof fn lemma_stair_walk_step(m: DungeonMap, spawn: (usize, usize), draws: Seq<(i32, i32)>, d: (i32, i32), c: (int, int))
    requires
        stair_walk(m, spawn, draws, draws.len()) == (c, None::<(usize, usize)>),
    ensures
        stair_walk(m, spawn, draws.push(d), draws.len() + 1) == if d.0 == 0 && d.1 == 0 {
            (c, None::<(usize, usize)>)
        } else {
            let n = (clamp_int(c.0 + d.0, 0, MAP_WIDTH - 1), clamp_int(c.1 + d.1, 0, MAP_HEIGHT - 1));
            if far_walkable(m, spawn, (n.0 as usize, n.1 as usize)) {
                (n, Some((n.0 as usize, n.1 as usize)))
            } else {
                (n, None)
            }
        },
{
    lemma_stair_walk_prefix(m, spawn, draws, d, draws.len());
    assert(draws.push(d)[draws.len() as int] == d);
}

/// The stair walk over the first `k` draws does not look at later draws.
proof fn lemma_stair_walk_prefix(m: DungeonMap, spawn: (usize, usize), draws: Seq<(i32, i32)>, d: (i32, i32), k: nat)
    requires
        k <= draws.len(),
    ensures
        stair_walk(m, spawn, draws.push(d), k) == stair_walk(m, spawn, draws, k),
    decreases k,
{
    if k > 0 {
        lemma_stair_walk_prefix(m, spawn, draws, d, (k - 1) as nat);
        assert(draws.push(d)[k - 1] == draws[k - 1]);
    }
}

/// The square search for the stairs, and 15 cells right of the spawn when it finds
/// nothing (see [`stair_chosen`]).
fn stair_search(map: &DungeonMap, spawn: (usize, usize)) -> (p: (usize, usize))
    requires
        map.wf(),
        on_map(spawn.0 as int, spawn.1 as int),
    ensures
        (exists|q: (usize, usize)| #[trigger] near_walkable(*map, spawn, q)) ==> search_first(*map, spawn, p),
        !(exists|q: (usize, usize)| #[trigger] near_walkable(*map, spawn, q)) ==> p == stair_fallback(spawn),
        (exists|q: (usize, usize)| #[trigger] near_walkable(*map, spawn, q)) ==> map.walkable_at(p.0 as int, p.1 as int)
            && p != spawn,
{
    let mut r: isize = 15;
    while r <= 40
        invariant
            map.wf(),
            15 <= r <= 41,
            on_map(spawn.0 as int, spawn.1 as int),
            no_hit_before(*map, spawn, r as int, -(r as int), -(r as int)),
        decreases 41 - r,
    {
        let mut dy: isize = -r;
        while dy <= r
            invariant
                map.wf(),
                15 <= r <= 40,
                -r <= dy <= r + 1,
                on_map(spawn.0 as int, spawn.1 as int),
                no_hit_before(*map, spawn, r as int, dy as int, -(r as int)),
            decreases r + 1 - dy,
        {
            let mut dx: isize = -r;
            while dx <= r
                invariant
                    map.wf(),
                    15 <= r <= 40,
                    -r <= dy <= r,
                    -r <= dx <= r + 1,
                    on_map(spawn.0 as int, spawn.1 as int),
                    no_hit_before(*map, spawn, r as int, dy as int, dx as int),
                decreases r + 1 - dx,
            {
                let nx = spawn.0.wrapping_add_signed(dx);
                let ny = spawn.1.wrapping_add_signed(dy);
                let hit = !(dx == 0 && dy == 0) && nx < MAP_WIDTH && ny < MAP_HEIGHT && map.is_walkable(nx, ny);
                proof {
                    assert(hit == scan_hit(*map, spawn, r as int, dy as int, dx as int));
                }
                if hit {
                    proof {
                        assert(nx == spawn.0 + dx);
                        assert(ny == spawn.1 + dy);
                        assert(near_walkable(*map, spawn, (nx, ny)));
                    }
                    return (nx, ny);
                }
                proof {
                    assert forall|r2: int, dy2: int, dx2: int|
                        scan_before(r2, dy2, dx2, r as int, dy as int, dx + 1) implies !#[trigger] scan_hit(*map, spawn, r2, dy2, dx2) by {
                        if !scan_before(r2, dy2, dx2, r as int, dy as int, dx as int) {
                            assert(r2 == r && dy2 == dy && dx2 == dx);
                        }
                    }
                }
                dx = dx + 1;
            }
            proof {
                assert(dx == r + 1);
                assert forall|r2: int, dy2: int, dx2: int|
                    scan_before(r2, dy2, dx2, r as int, dy + 1, -(r as int)) implies !#[trigger] scan_hit(*map, spawn, r2, dy2, dx2) by {
                    if !scan_before(r2, dy2, dx2, r as int, dy as int, dx as int) {
                        assert(r2 == r);
                        assert(dx2 > r || dx2 < -r);
                        assert(!scan_hit(*map, spawn, r2, dy2, dx2));
                    }
                }
            }
            dy = dy + 1;
        }
        proof {
            assert forall|r2: int, dy2: int, dx2: int|
                scan_before(r2, dy2, dx2, r + 1, -(r + 1), -(r + 1)) implies !#[trigger] scan_hit(*map, spawn, r2, dy2, dx2) by {
                if r2 == r {
                    if dy2 <= r {
                        assert(scan_before(r2, dy2, dx2, r as int, dy as int, -(r as int)));
                    } else {
                        assert(!scan_hit(*map, spawn, r2, dy2, dx2));
                    }
                }
            }
        }
        r = r + 1;
    }
    proof {
        assert forall|q: (usize, usize)| !#[trigger] near_walkable(*map, spawn, q) by {
            if near_walkable(*map, spawn, q) {
                lemma_near_is_hit(*map, spawn, q);
                assert(scan_before(40, q.1 - spawn.1, q.0 - spawn.0, 41, -41, -41));
            }
        }
    }
    (spawn.0 + STAIR_MIN_DIST, spawn.1)
}

/// `v` kept within `0..=hi`.
fn clamp_to(v: isize, hi: isize) -> (c: isize)
    requires
        hi >= 0,
    ensures
        c == if v < 0 { 0 } else if v > hi { hi as int } else { v as int },
{
    if v < 0 { 0 } else if v > hi { hi } else { v }
}

/// The places for the floor's items: one per item, in order, one cell right of the
/// centre of each room but the first; there are as many as rooms but the first and
/// items, whichever is fewer.
pub open spec fn spots_from_rooms(rooms: Seq<Room>, ids: Seq<usize>) -> Seq<(usize, usize, usize)> {
    let n = if rooms.len() - 1 < ids.len() { rooms.len() - 1 } else { ids.len() as int };
    Seq::new(
        n as nat,
        |i: int| (ids[i], (room_center(rooms[i + 1]).0 + 1) as usize, room_center(rooms[i + 1]).1 as usize),
    )
}

/// Where the floor's items go, as `(item, x, y)`. With two rooms or more, see
/// [`spots_from_rooms`]. With one room, 20 random cells inside it, at least 2 from its
/// left and top edges and short of its far edges by more than 2, are tried with a
/// generator seeded with 42; those walkable and not in `exclude` take the items in
/// order, each one cell to the right.
pub fn ground_item_spots(map: &DungeonMap, item_ids: &Vec<usize>, exclude: &Vec<(usize, usize)>) -> (spots: Vec<(usize, usize, usize)>)
    requires
        map.wf(),
        map.rooms@.len() >= 1,
        forall|k: int| 0 <= k < map.rooms@.len() ==> room_center(#[trigger] map.rooms@[k]).0 < usize::MAX,
        map.rooms@.len() == 1 ==> 4 < map.rooms@[0].w <= i32::MAX && 4 < map.rooms@[0].h <= i32::MAX
            && map.rooms@[0].x + map.rooms@[0].w <= usize::MAX && map.rooms@[0].y + map.rooms@[0].h <= usize::MAX,
    ensures
        map.rooms@.len() > 1 ==> spots@ == spots_from_rooms(map.rooms@, item_ids@),
        map.rooms@.len() == 1 ==> spots@.len() <= item_ids@.len() && forall|i: int|
            0 <= i < spots@.len() ==> {
                let (id, x, y) = #[trigger] spots@[i];
                &&& id == item_ids@[i]
                &&& x >= 1 && map.walkable_at(x - 1, y as int)
                &&& !exclude@.contains(((x - 1) as usize, y))
                &&& map.rooms@[0].x + 2 <= x - 1 < map.rooms@[0].x + map.rooms@[0].w - 2
                &&& map.rooms@[0].y + 2 <= y < map.rooms@[0].y + map.rooms@[0].h - 2
            },
{
    let mut spots: Vec<(usize, usize, usize)> = Vec::new();
    if map.rooms.len() > 1 {
        let mut i: usize = 0;
        while i < map.rooms.len() - 1 && i < item_ids.len()
            invariant
                map.wf(),
                map.rooms@.len() > 1,
                forall|k: int| 0 <= k < map.rooms@.len() ==> room_center(#[trigger] map.rooms@[k]).0 < usize::MAX,
                i <= map.rooms@.len() - 1,
                i <= item_ids@.len(),
                spots@ == spots_from_rooms(map.rooms@, item_ids@).take(i as int),
            decreases item_ids@.len() - i,
        {
            let c = map.rooms[i + 1].center();
            proof {
                assert(room_center(map.rooms@[i + 1]).0 < usize::MAX);
            }
            spots.push((item_ids[i], c.0 + 1, c.1));
            i = i + 1;
            assert(spots@ =~= spots_from_rooms(map.rooms@, item_ids@).take(i as int));
        }
        assert(spots@ =~= spots_from_rooms(map.rooms@, item_ids@));
        return spots;
    }
    let r = map.rooms[0];
    let mut rng2 = seeded_rng(42);
    let mut tries: usize = 0;
    while tries < 20
        invariant
            map.wf(),
            map.rooms@.len() == 1,
            r == map.rooms@[0],
            4 < r.w <= i32::MAX && 4 < r.h <= i32::MAX,
            r.x + r.w <= usize::MAX && r.y + r.h <= usize::MAX,
            spots@.len() <= item_ids@.len(),
            forall|i: int|
                0 <= i < spots@.len() ==> {
                    let (id, x, y) = #[trigger] spots@[i];
                    &&& id == item_ids@[i]
                    &&& x >= 1 && map.walkable_at(x - 1, y as int)
                    &&& !exclude@.contains(((x - 1) as usize, y))
                    &&& r.x + 2 <= x - 1 < r.x + r.w - 2
                    &&& r.y + 2 <= y < r.y + r.h - 2
                },
        decreases 20 - tries,
    {
        let ox = random_i32_in(&mut rng2, 2, (r.w - 2) as i32) as usize;
        let oy = random_i32_in(&mut rng2, 2, (r.h - 2) as i32) as usize;
        let px = r.x + ox;
        let py = r.y + oy;
        if px < MAP_WIDTH && py < MAP_HEIGHT && map.is_walkable(px, py) && !contains_cell(exclude, (px, py)) && spots.len()
            < item_ids.len() {
            spots.push((item_ids[spots.len()], px + 1, py));
        }
        tries = tries + 1;
    }
    spots
}

/// Whether `cells` holds `p`.
fn contains_cell(cells: &Vec<(usize, usize)>, p: (usize, usize)) -> (b: bool)
    ensures
        b == cells@.contains(p),
{
    let mut i: usize = 0;
    while i < cells.len()
        invariant
            i <= cells@.len(),
            forall|k: int| 0 <= k < i ==> cells@[k] != p,
        decreases cells@.len() - i,
    {
        let q = cells[i];
        if q.0 == p.0 && q.1 == p.1 {
            return true;
        }
        i = i + 1;
    }
    false
}

/// The log line announcing floor `f`.
pub fn floor_banner(f: u32) -> (s: String)
    ensures
        s@ == "=== 第 "@ + decimal(f as nat) + " 层 ==="@,
{
    let mut s = String::new();
    push_text(&mut s, "=== 第 ");
    push_decimal(&mut s, f as u64);
    push_text(&mut s, " 层 ===");
    assert(s@ =~= "=== 第 "@ + decimal(f as nat) + " 层 ==="@);
    s
}

} // verus!
