use vstd::prelude::*;
use symmetric_shadowcasting::compute_fov;
use crate::tile::{MAP_WIDTH, MAP_HEIGHT, tile_blocks_vision};
use crate::room::on_map;
use crate::map::{DungeonMap, cell_index, MAP_CELLS, lemma_cell_index};

verus! {

/// The positions that symmetric shadow casting from `origin` reports, in the order it
/// reports them, when a position blocks sight exactly if it lies off the map or its
/// entry in the row-major mask `blocking` is set.
pub uninterp spec fn shadowcast_marks(origin: (isize, isize), blocking: Seq<bool>) -> Seq<(isize, isize)>;

/// Whether `pos` stops sight under the row-major mask `blocking`: off the map, or a
/// cell whose entry is set.
pub open spec fn sight_blocked(blocking: Seq<bool>, pos: (isize, isize)) -> bool {
    !on_map(pos.0 as int, pos.1 as int) || blocking[cell_index(pos.0 as int, pos.1 as int)]
}

/// The sight mask of a map: which cells stop line of sight.
pub open spec fn vision_mask(m: DungeonMap) -> Seq<bool> {
    Seq::new(MAP_CELLS as nat, |i: int| tile_blocks_vision(m.tiles@[i]))
}

/// The reported positions that lie on the map within distance `sqrt(r2)` of `origin`,
/// in report order (repeats kept).
pub open spec fn seen_cells(marks: Seq<(isize, isize)>, origin: (int, int), r2: int) -> Seq<(usize, usize)>
    decreases marks.len(),
{
    if marks.len() == 0 {
        seq![]
    } else {
        let rest = seen_cells(marks.drop_last(), origin, r2);
        let p = marks.last();
        let dx = p.0 - origin.0;
        let dy = p.1 - origin.1;
        if on_map(p.0 as int, p.1 as int) && dx * dx + dy * dy <= r2 {
            rest.push((p.0 as usize, p.1 as usize))
        } else {
            rest
        }
    }
}

/// The cells seen are exactly the reported positions on the map within the circle:
/// each seen cell is a reported position, on the map, whose squared distance from the
/// origin is at most `r2` (the range squared), and each reported position on the map
/// within that distance is seen.
pub proof fn lemma_seen_within_range(marks: Seq<(isize, isize)>, origin: (int, int), r2: int)
    ensures
        forall|i: int|
            0 <= i < seen_cells(marks, origin, r2).len() ==> {
                let c = #[trigger] seen_cells(marks, origin, r2)[i];
                &&& on_map(c.0 as int, c.1 as int)
                &&& (c.0 - origin.0) * (c.0 - origin.0) + (c.1 - origin.1) * (c.1 - origin.1) <= r2
                &&& marks.contains((c.0 as isize, c.1 as isize))
            },
        forall|j: int|
            0 <= j < marks.len() && on_map(marks[j].0 as int, marks[j].1 as int) && (marks[j].0 - origin.0) * (marks[j].0
                - origin.0) + (marks[j].1 - origin.1) * (marks[j].1 - origin.1) <= r2 ==> seen_cells(marks, origin, r2).contains(
                ((#[trigger] marks[j]).0 as usize, marks[j].1 as usize),
            ),
    decreases marks.len(),
{
    if marks.len() > 0 {
        let m0 = marks.drop_last();
        lemma_seen_within_range(m0, origin, r2);
        let rest = seen_cells(m0, origin, r2);
        let all = seen_cells(marks, origin, r2);
        let p = marks.last();
        assert forall|i: int| 0 <= i < all.len() implies {
            let c = #[trigger] all[i];
            &&& on_map(c.0 as int, c.1 as int)
            &&& (c.0 - origin.0) * (c.0 - origin.0) + (c.1 - origin.1) * (c.1 - origin.1) <= r2
            &&& marks.contains((c.0 as isize, c.1 as isize))
        } by {
            if i < rest.len() {
                assert(all[i] == rest[i]);
                let c = rest[i];
                let k = choose|k: int| 0 <= k < m0.len() && m0[k] == (c.0 as isize, c.1 as isize);
                assert(marks[k] == m0[k]);
            } else {
                assert(all[i] == (p.0 as usize, p.1 as usize));
                assert(marks[marks.len() - 1] == p);
            }
        }
        assert forall|j: int|
            0 <= j < marks.len() && on_map(marks[j].0 as int, marks[j].1 as int) && (marks[j].0 - origin.0) * (marks[j].0
                - origin.0) + (marks[j].1 - origin.1) * (marks[j].1 - origin.1) <= r2 implies all.contains(
                ((#[trigger] marks[j]).0 as usize, marks[j].1 as usize),
            ) by {
            if j < marks.len() - 1 {
                assert(marks[j] == m0[j]);
                let k = choose|k: int| 0 <= k < rest.len() && rest[k] == (m0[j].0 as usize, m0[j].1 as usize);
                assert(all[k] == rest[k]);
            } else {
                assert(all[all.len() - 1] == (p.0 as usize, p.1 as usize));
            }
        }
    }
}

/// Whether `pos` stops sight under the mask `blocking`.
pub fn vision_blocked(blocking: &Vec<bool>, pos: (isize, isize)) -> (b: bool)
    requires
        blocking@.len() == MAP_CELLS,
    ensures
        b == sight_blocked(blocking@, pos),
{
    if pos.0 < 0 || pos.0 >= MAP_WIDTH as isize || pos.1 < 0 || pos.1 >= MAP_HEIGHT as isize {
        return true;
    }
    let x = pos.0 as usize;
    let y = pos.1 as usize;
    blocking[y * MAP_WIDTH + x]
}

/// Appends a reported position.
pub fn record_mark(marks: &mut Vec<(isize, isize)>, pos: (isize, isize))
    ensures
        final(marks)@ == old(marks)@.push(pos),
{
    marks.push(pos);
}

/// Runs symmetric shadow casting (`symmetric_shadowcasting::compute_fov`) from
/// `origin` with sight stopped by [`vision_blocked`] on `blocking`, and lists what it
/// marks visible. Its source marks the origin first; the rest of the list is named,
/// not stated. The origin lies on the map, so the source's offsets from it (rows and
/// columns of the scan, which stops at the map's edge) stay far inside `isize`.
#[verifier::external_body]
fn shadowcast(origin: (isize, isize), blocking: &Vec<bool>) -> (marks: Vec<(isize, isize)>)
    requires
        blocking@.len() == MAP_CELLS,
        on_map(origin.0 as int, origin.1 as int),
    ensures
        marks@ == shadowcast_marks(origin, blocking@),
        marks@.len() >= 1,
        marks@[0] == origin,
{
    let mut marks: Vec<(isize, isize)> = Vec::new();
    compute_fov(origin, &mut |pos: (isize, isize)| vision_blocked(blocking, pos), &mut |pos: (isize, isize)| record_mark(&mut marks, pos));
    marks
}

/// The sight mask of `map`, row by row.
pub fn vision_mask_of(map: &DungeonMap) -> (v: Vec<bool>)
    requires
        map.wf(),
    ensures
        v@ == vision_mask(*map),
{
    let mut v: Vec<bool> = Vec::new();
    let mut i: usize = 0;
    while i < MAP_CELLS
        invariant
            map.wf(),
            i <= MAP_CELLS,
            v@.len() == i,
            forall|k: int| 0 <= k < i ==> v@[k] == tile_blocks_vision(map.tiles@[k]),
        decreases MAP_CELLS - i,
    {
        v.push(map.tiles[i].blocks_vision());
        i = i + 1;
    }
    assert(v@ =~= vision_mask(*map));
    v
}

/// Of the positions reported by a sight scan from `(x, y)`, those on the map within
/// distance `range`, in report order.
pub fn visible_among(marks: &Vec<(isize, isize)>, x: usize, y: usize, range: usize) -> (v: Vec<(usize, usize)>)
    requires
        x <= i32::MAX,
        y <= i32::MAX,
        range * range <= isize::MAX,
    ensures
        v@ == seen_cells(marks@, (x as int, y as int), range * range),
{
    let r2: i128 = (range as i128) * (range as i128);
    let ox: i128 = x as i128;
    let oy: i128 = y as i128;
    let mut v: Vec<(usize, usize)> = Vec::new();
    let mut i: usize = 0;
    while i < marks.len()
        invariant
            i <= marks@.len(),
            r2 == range * range,
            ox == x,
            oy == y,
            x <= i32::MAX,
            y <= i32::MAX,
            v@ == seen_cells(marks@.take(i as int), (x as int, y as int), range * range),
        decreases marks@.len() - i,
    {
        let p = marks[i];
        proof {
            assert(marks@.take(i as int + 1).drop_last() =~= marks@.take(i as int));
        }
        if p.0 >= 0 && p.0 < MAP_WIDTH as isize && p.1 >= 0 && p.1 < MAP_HEIGHT as isize {
            let dx: i128 = p.0 as i128 - ox;
            let dy: i128 = p.1 as i128 - oy;
            proof {
                assert(0 <= dx * dx <= 0x1_0000_0000_0000_0000) by (nonlinear_arith)
                    requires -0x1_0000_0000 <= dx <= 0x1_0000_0000;
                assert(0 <= dy * dy <= 0x1_0000_0000_0000_0000) by (nonlinear_arith)
                    requires -0x1_0000_0000 <= dy <= 0x1_0000_0000;
            }
            if dx * dx + dy * dy <= r2 {
                v.push((p.0 as usize, p.1 as usize));
            }
        }
        i = i + 1;
    }
    assert(marks@.take(marks@.len() as int) =~= marks@);
    v
}

/// The cells seen from `(x, y)` within distance `range`, by symmetric shadow
/// casting over `map` (walls and stalactites stop sight, and so does the map's edge),
/// in the order the scan reports them; the viewer's own cell, on the map, comes first.
pub fn calculate_visible_tiles(x: usize, y: usize, range: usize, map: &DungeonMap) -> (v: Vec<(usize, usize)>)
    requires
        map.wf(),
        on_map(x as int, y as int),
        range * range <= isize::MAX,
    ensures
        v@ == seen_cells(
            shadowcast_marks((x as isize, y as isize), vision_mask(*map)),
            (x as int, y as int),
            range * range,
        ),
        v@.len() >= 1 && v@[0] == (x, y),
        forall|i: int|
            0 <= i < v@.len() ==> on_map((#[trigger] v@[i]).0 as int, v@[i].1 as int) && (v@[i].0 - x) * (v@[i].0 - x)
                + (v@[i].1 - y) * (v@[i].1 - y) <= range * range,
{
    let blocking = vision_mask_of(map);
    let marks = shadowcast((x as isize, y as isize), &blocking);
    let v = visible_among(&marks, x, y, range);
    proof {
        lemma_seen_first(marks@, (x as int, y as int), range * range);
        lemma_seen_within_range(marks@, (x as int, y as int), range * range);
    }
    v
}

/// When the first report is the origin and lies on the map, it is the first cell seen.
proof fn lemma_seen_first(marks: Seq<(isize, isize)>, origin: (int, int), r2: int)
    requires
        marks.len() >= 1,
        marks[0].0 == origin.0,
        marks[0].1 == origin.1,
        on_map(origin.0, origin.1) ==> r2 >= 0,
    ensures
        on_map(origin.0, origin.1) ==> seen_cells(marks, origin, r2).len() >= 1 && seen_cells(marks, origin, r2)[0]
            == (origin.0 as usize, origin.1 as usize),
    decreases marks.len(),
{
    if marks.len() > 1 {
        lemma_seen_first(marks.drop_last(), origin, r2);
        lemma_seen_prefix(marks.drop_last(), marks.last(), origin, r2);
        assert(marks.drop_last().push(marks.last()) =~= marks);
    } else {
        assert(marks.drop_last() =~= Seq::<(isize, isize)>::empty());
        assert(seen_cells(marks.drop_last(), origin, r2) =~= Seq::<(usize, usize)>::empty());
        assert(marks.last() == marks[0]);
        let dx = marks[0].0 - origin.0;
        assert(dx * dx == 0);
        let dy = marks[0].1 - origin.1;
        assert(dy * dy == 0);
    }
}

/// Reporting one more position only appends to what is seen.
proof fn lemma_seen_prefix(marks: Seq<(isize, isize)>, p: (isize, isize), origin: (int, int), r2: int)
    ensures
        seen_cells(marks.push(p), origin, r2).len() >= seen_cells(marks, origin, r2).len(),
        forall|k: int|
            0 <= k < seen_cells(marks, origin, r2).len() ==> #[trigger] seen_cells(marks.push(p), origin, r2)[k]
                == seen_cells(marks, origin, r2)[k],
{
    assert(marks.push(p).drop_last() =~= marks);
}

} // verus!
