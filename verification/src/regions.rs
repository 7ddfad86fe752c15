use vstd::prelude::*;
use crate::tile::{MAP_WIDTH, MAP_HEIGHT};
use crate::room::{Room, RoomShape, on_map, cell_before};
use crate::map::{DungeonMap, cell_index, MAP_CELLS, lemma_cell_index};
use crate::reach::{
    adjacent4, connected, marked, closed_but, count_true, cleared_flags, push_open_neighbors,
    lemma_connected_refl, lemma_connected_step, lemma_connected_sym, lemma_connected_trans,
    lemma_closed_reaches, lemma_closed_after_visit, lemma_count_true_bound, lemma_count_true_set,
};

verus! {

/// The integer cell of a coordinate pair.
pub open spec fn cell_of(p: (usize, usize)) -> (int, int) {
    (p.0 as int, p.1 as int)
}

/// Row-major order on integer cells.
pub open spec fn before_int(a: (int, int), b: (int, int)) -> bool {
    a.1 < b.1 || (a.1 == b.1 && a.0 < b.0)
}

/// `r` lists, each once, the cells reachable from its first cell, and that first
/// cell comes first in row-major order among them.
pub open spec fn lists_component(m: DungeonMap, r: Seq<(usize, usize)>) -> bool {
    &&& r.len() >= 1
    &&& r.no_duplicates()
    &&& forall|k: int| 0 <= k < r.len() ==> connected(m, cell_of(r[0]), cell_of(#[trigger] r[k]))
    &&& forall|c: (int, int)|
        #[trigger] connected(m, cell_of(r[0]), c) ==> r.contains((c.0 as usize, c.1 as usize))
    &&& forall|c: (int, int)| #[trigger] connected(m, cell_of(r[0]), c) ==> !before_int(c, cell_of(r[0]))
}

/// The cells reachable from `c` fit in a list shorter than `n`.
pub open spec fn component_smaller_than(m: DungeonMap, c: (int, int), n: int) -> bool {
    exists|s: Seq<(usize, usize)>|
        s.len() < n && forall|d: (int, int)| #[trigger] connected(m, c, d) ==> s.contains(
            (d.0 as usize, d.1 as usize),
        )
}

/// Larger regions first; of equal size, the one whose first cell comes first.
pub open spec fn region_before(a: Seq<(usize, usize)>, b: Seq<(usize, usize)>) -> bool {
    a.len() > b.len() || (a.len() == b.len() && cell_before(a[0], b[0]))
}

/// The contents of a list of cell vectors.
pub open spec fn region_views(rs: Seq<Vec<(usize, usize)>>) -> Seq<Seq<(usize, usize)>> {
    Seq::new(rs.len(), |i: int| rs[i]@)
}

/// Minimum size of a region that counts.
pub const MIN_REGION: usize = 6;

/// `rs` holds exactly the walkable regions (cells connected along the axes) of at
/// least six cells, each listed once, largest first, ties in row-major order of
/// their first cells.
pub open spec fn walkable_regions(m: DungeonMap, rs: Seq<Seq<(usize, usize)>>) -> bool {
    &&& forall|i: int|
        0 <= i < rs.len() ==> lists_component(m, #[trigger] rs[i]) && rs[i].len() >= MIN_REGION
    &&& forall|i: int, j: int| 0 <= i < j < rs.len() ==> region_before(#[trigger] rs[i], #[trigger] rs[j])
    &&& forall|c: (int, int)|
        #[trigger] m.walkable_at(c.0, c.1) ==> (exists|i: int|
            0 <= i < rs.len() && #[trigger] rs[i].contains((c.0 as usize, c.1 as usize)))
            || component_smaller_than(m, c, MIN_REGION as int)
}

/// Marks and lists every cell reachable from the walkable, unmarked `seed`.
fn fill_component(map: &DungeonMap, visited: &mut Vec<bool>, seed: (usize, usize)) -> (r: Vec<(usize, usize)>)
    requires
        map.wf(),
        old(visited)@.len() == MAP_CELLS,
        map.walkable_at(seed.0 as int, seed.1 as int),
        !marked(old(visited)@, cell_of(seed)),
        closed_but(*map, old(visited)@, Seq::empty()),
    ensures
        final(visited)@.len() == MAP_CELLS,
        closed_but(*map, final(visited)@, Seq::empty()),
        forall|c: (int, int)|
            #[trigger] marked(final(visited)@, c) <==> marked(old(visited)@, c) || connected(*map, cell_of(seed), c),
        r@.len() >= 1,
        r@[0] == seed,
        r@.no_duplicates(),
        forall|k: int| 0 <= k < r@.len() ==> connected(*map, cell_of(seed), cell_of(#[trigger] r@[k])),
        forall|c: (int, int)|
            #[trigger] connected(*map, cell_of(seed), c) ==> r@.contains((c.0 as usize, c.1 as usize)),
{
    let ghost m = *map;
    let ghost s = cell_of(seed);
    let ghost v0 = visited@;
    proof {
        lemma_connected_refl(m, s);
        lemma_count_true_bound(visited@);
        lemma_count_true_set(visited@, cell_index(s.0, s.1));
    }
    visited.set(seed.1 * MAP_WIDTH + seed.0, true);
    let mut region: Vec<(usize, usize)> = Vec::new();
    region.push(seed);
    let mut stack: Vec<(usize, usize)> = Vec::new();
    push_open_neighbors(map, visited, &mut stack, seed.0, seed.1);
    let ghost mut nvis: nat = count_true(visited@);
    proof {
        assert(region@[0] == seed);
        assert forall|c: (int, int)| #[trigger] marked(visited@, c) <==> marked(v0, c) || region@.contains(
            (c.0 as usize, c.1 as usize),
        ) && on_map(c.0, c.1) by {
            if on_map(c.0, c.1) {
                lemma_cell_index(c.0, c.1, s.0, s.1);
            }
            if region@.contains((c.0 as usize, c.1 as usize)) && on_map(c.0, c.1) {
                let k = choose|k: int| 0 <= k < region@.len() && region@[k] == (c.0 as usize, c.1 as usize);
                assert(k == 0);
                assert(c == s);
            }
            if c == s {
                assert(region@[0] == (c.0 as usize, c.1 as usize));
            }
        }
        assert forall|k: int| 0 <= k < stack@.len() implies on_map(#[trigger] stack@[k].0 as int, stack@[k].1 as int)
            && connected(m, s, cell_of(stack@[k])) by {
            lemma_connected_step(m, s, s, cell_of(stack@[k]));
        }
        lemma_closed_after_visit(m, v0, visited@, seq![seed], stack@, s);
        assert(region@.no_duplicates());
    }
    while stack.len() > 0
        invariant
            m == *map,
            map.wf(),
            s == cell_of(seed),
            visited@.len() == MAP_CELLS,
            nvis == count_true(visited@),
            m.walkable_at(s.0, s.1),
            !marked(v0, s),
            closed_but(m, v0, Seq::empty()),
            v0.len() == MAP_CELLS,
            forall|k: int|
                0 <= k < stack@.len() ==> on_map(#[trigger] stack@[k].0 as int, stack@[k].1 as int)
                    && connected(m, s, cell_of(stack@[k])),
            forall|c: (int, int)|
                #[trigger] marked(visited@, c) <==> marked(v0, c) || region@.contains((c.0 as usize, c.1 as usize)) && on_map(c.0, c.1),
            forall|k: int| 0 <= k < region@.len() ==> on_map(#[trigger] region@[k].0 as int, region@[k].1 as int)
                && connected(m, s, cell_of(region@[k])) && !marked(v0, cell_of(region@[k])),
            region@.len() >= 1,
            region@[0] == seed,
            region@.no_duplicates(),
            closed_but(m, visited@, stack@),
        decreases MAP_CELLS - nvis, stack@.len(),
    {
        proof {
            lemma_count_true_bound(visited@);
        }
        let ghost st0 = stack@;
        let (x, y) = stack.pop().unwrap();
        let ghost c = (x as int, y as int);
        assert(st0[st0.len() - 1] == (x, y));
        assert(stack@ == st0.drop_last());
        let i = y * MAP_WIDTH + x;
        if visited[i] {
            proof {
                assert forall|a: (int, int), b: (int, int)|
                    #![trigger marked(visited@, a), adjacent4(a, b)]
                    marked(visited@, a) && adjacent4(a, b) && m.walkable_at(b.0, b.1) implies marked(
                        visited@,
                        b,
                    ) || stack@.contains((b.0 as usize, b.1 as usize)) by {
                    if !marked(visited@, b) {
                        let k = choose|k: int| 0 <= k < st0.len() && st0[k] == (b.0 as usize, b.1 as usize);
                        if k == st0.len() - 1 {
                            lemma_cell_index(b.0, b.1, x as int, y as int);
                        } else {
                            assert(stack@[k] == st0[k]);
                        }
                    }
                }
            }
            continue;
        }
        proof {
            lemma_count_true_set(visited@, i as int);
            assert(on_map(c.0, c.1));
            assert(!marked(visited@, c));
            assert(!region@.contains((x, y)));
            if marked(v0, c) {
                lemma_connected_sym(m, s, c);
                lemma_closed_reaches(m, v0, c, s);
            }
        }
        let ghost vis0 = visited@;
        let ghost reg0 = region@;
        visited.set(i, true);
        region.push((x, y));
        proof {
            nvis = nvis + 1;
            lemma_count_true_bound(visited@);
            assert forall|d: (int, int)| #[trigger] marked(visited@, d) <==> marked(v0, d) || region@.contains(
                (d.0 as usize, d.1 as usize),
            ) && on_map(d.0, d.1) by {
                assert(marked(vis0, d) <==> marked(v0, d) || reg0.contains((d.0 as usize, d.1 as usize))
                    && on_map(d.0, d.1));
                if on_map(d.0, d.1) {
                    lemma_cell_index(d.0, d.1, x as int, y as int);
                    let dd = (d.0 as usize, d.1 as usize);
                    if d == c {
                        assert(region@[region@.len() - 1] == dd);
                    } else {
                        assert(dd != (x, y));
                        if region@.contains(dd) {
                            let k = choose|k: int| 0 <= k < region@.len() && region@[k] == dd;
                            assert(reg0[k] == region@[k]);
                        }
                        if reg0.contains(dd) {
                            let k = choose|k: int| 0 <= k < reg0.len() && reg0[k] == dd;
                            assert(region@[k] == reg0[k]);
                        }
                    }
                }
            }
            assert(region@.no_duplicates());
        }
        let ghost st1 = stack@;
        push_open_neighbors(map, visited, &mut stack, x, y);
        proof {
            assert forall|k: int|
                0 <= k < stack@.len() implies on_map(#[trigger] stack@[k].0 as int, stack@[k].1 as int)
                    && connected(m, s, cell_of(stack@[k])) by {
                if k < st1.len() {
                    assert(stack@[k] == st0[k]);
                } else {
                    lemma_connected_step(m, s, c, cell_of(stack@[k]));
                }
            }
            lemma_closed_after_visit(m, vis0, visited@, st0, stack@, c);
        }
    }
    proof {
        assert(stack@ =~= Seq::<(usize, usize)>::empty());
        assert forall|c: (int, int)| #[trigger] connected(m, s, c) implies region@.contains(
            (c.0 as usize, c.1 as usize),
        ) by {
            lemma_closed_reaches(m, visited@, s, c);
            if marked(v0, c) {
                lemma_connected_sym(m, s, c);
                lemma_closed_reaches(m, v0, c, s);
            }
        }
        assert forall|c: (int, int)| #[trigger] marked(visited@, c) <==> marked(v0, c) || connected(m, s, c) by {
            if marked(visited@, c) && !marked(v0, c) {
                let k = choose|k: int| 0 <= k < region@.len() && region@[k] == (c.0 as usize, c.1 as usize);
                assert(connected(m, s, cell_of(region@[k])));
            }
            if connected(m, s, c) {
                assert(region@.contains((c.0 as usize, c.1 as usize)));
                assert(on_map(c.0, c.1)) by {
                    let p = choose|p: Seq<(int, int)>| #[trigger] crate::reach::is_walk(m, p) && p[0] == s && p.last() == c;
                    assert(m.walkable_at(p[p.len() - 1].0, p[p.len() - 1].1));
                }
            }
        }
    }
    region
}

} // verus!

verus! {

/// Row-major order of on-map cells follows their positions in the tile vector.
pub proof fn lemma_before_index(a: (int, int), b: (int, int))
    requires
        on_map(a.0, a.1),
        on_map(b.0, b.1),
    ensures
        before_int(a, b) <==> cell_index(a.0, a.1) < cell_index(b.0, b.1),
{
}

/// Where a region of `len` cells goes in a list kept larger-first: after every
/// region at least as large.
fn insertion_point(regions: &Vec<Vec<(usize, usize)>>, len: usize) -> (j: usize)
    requires
        forall|a: int, b: int|
            0 <= a < b < regions@.len() ==> #[trigger] regions@[a]@.len() >= #[trigger] regions@[b]@.len(),
    ensures
        j <= regions@.len(),
        forall|a: int| 0 <= a < j ==> #[trigger] regions@[a]@.len() >= len,
        forall|a: int| j <= a < regions@.len() ==> #[trigger] regions@[a]@.len() < len,
{
    let mut j: usize = 0;
    while j < regions.len() && regions[j].len() >= len
        invariant
            j <= regions@.len(),
            forall|a: int, b: int|
                0 <= a < b < regions@.len() ==> #[trigger] regions@[a]@.len() >= #[trigger] regions@[b]@.len(),
            forall|a: int| 0 <= a < j ==> #[trigger] regions@[a]@.len() >= len,
        decreases regions@.len() - j,
    {
        j = j + 1;
    }
    proof {
        assert forall|a: int| j <= a < regions@.len() implies #[trigger] regions@[a]@.len() < len by {
            assert(regions@[j as int]@.len() >= regions@[a]@.len() || a == j);
        }
    }
    j
}

/// Every walkable region (cells connected along the axes) of at least six cells,
/// each as the list of its cells starting from its row-major first cell; largest
/// first, equal sizes in row-major order of their first cells.
#[verifier::rlimit(80)]
#[verifier::spinoff_prover]
pub fn collect_walkable_regions(map: &DungeonMap) -> (rs: Vec<Vec<(usize, usize)>>)
    requires
        map.wf(),
    ensures
        walkable_regions(*map, region_views(rs@)),
{
    let ghost m = *map;
    let mut visited = cleared_flags();
    let mut regions: Vec<Vec<(usize, usize)>> = Vec::new();
    let mut i: usize = 0;
    let mut x: usize = 0;
    let mut y: usize = 0;
    proof {
        assert forall|a: (int, int), b: (int, int)|
            #![trigger marked(visited@, a), adjacent4(a, b)]
            marked(visited@, a) && adjacent4(a, b) && m.walkable_at(b.0, b.1) implies marked(visited@, b)
                || Seq::<(usize, usize)>::empty().contains((b.0 as usize, b.1 as usize)) by {
            lemma_cell_index(a.0, a.1, 0, 0);
        }
    }
    while i < MAP_CELLS
        invariant
            m == *map,
            map.wf(),
            i <= MAP_CELLS,
            x < MAP_WIDTH,
            i == y * MAP_WIDTH + x,
            visited@.len() == MAP_CELLS,
            closed_but(m, visited@, Seq::empty()),
            forall|c: (int, int)|
                on_map(c.0, c.1) && cell_index(c.0, c.1) < i && m.walkable_at(c.0, c.1) ==> #[trigger] marked(
                    visited@,
                    c,
                ),
            forall|k: int|
                0 <= k < regions@.len() ==> lists_component(m, #[trigger] regions@[k]@) && regions@[k]@.len()
                    >= MIN_REGION && on_map(regions@[k]@[0].0 as int, regions@[k]@[0].1 as int) && cell_index(
                    regions@[k]@[0].0 as int,
                    regions@[k]@[0].1 as int,
                ) < i,
            forall|a: int, b: int|
                0 <= a < b < regions@.len() ==> region_before(#[trigger] regions@[a]@, #[trigger] regions@[b]@),
            forall|c: (int, int)|
                #[trigger] marked(visited@, c) ==> m.walkable_at(c.0, c.1) && ((exists|k: int|
                    0 <= k < regions@.len() && #[trigger] regions@[k]@.contains((c.0 as usize, c.1 as usize)))
                    || component_smaller_than(m, c, MIN_REGION as int)),
        decreases MAP_CELLS - i,
    {
        if !visited[i] && map.get(x, y).walkable() {
            let ghost seed = (x as int, y as int);
            let ghost v0 = visited@;
            proof {
                assert(cell_index(x as int, y as int) == i);
                assert(!marked(visited@, seed));
            }
            let r = fill_component(map, &mut visited, (x, y));
            proof {
                // the seed comes first in row-major order in its region
                assert forall|c: (int, int)| #[trigger] connected(m, cell_of(r@[0]), c) implies !before_int(
                    c,
                    cell_of(r@[0]),
                ) by {
                    if before_int(c, seed) {
                        assert(m.walkable_at(c.0, c.1)) by {
                            let p = choose|p: Seq<(int, int)>| #[trigger] crate::reach::is_walk(m, p) && p[0] == seed && p.last() == c;
                            assert(m.walkable_at(p[p.len() - 1].0, p[p.len() - 1].1));
                        }
                        lemma_before_index(c, seed);
                        assert(marked(v0, c));
                        lemma_connected_sym(m, seed, c);
                        lemma_closed_reaches(m, v0, c, seed);
                    }
                }
                assert(lists_component(m, r@));
            }
            let ghost old_regions = regions@;
            if r.len() >= MIN_REGION {
                let j = insertion_point(&regions, r.len());
                regions.insert(j, r);
                proof {
                    assert(regions@ == old_regions.insert(j as int, r));
                    lemma_insert_keeps_regions(m, old_regions, regions@, j as int, r, i as int);
                }
            }
            proof {
                assert forall|c: (int, int)| #[trigger] marked(visited@, c) implies m.walkable_at(c.0, c.1) && ((
                exists|k: int|
                    0 <= k < regions@.len() && #[trigger] regions@[k]@.contains((c.0 as usize, c.1 as usize)))
                    || component_smaller_than(m, c, MIN_REGION as int)) by {
                    if marked(v0, c) {
                        if !component_smaller_than(m, c, MIN_REGION as int) {
                            let k = choose|k: int|
                                0 <= k < old_regions.len() && #[trigger] old_regions[k]@.contains((c.0 as usize, c.1 as usize));
                            if regions@ != old_regions {
                                let j = choose|j: int| 0 <= j <= old_regions.len() && regions@ == old_regions.insert(j, r);
                                if k < j {
                                    assert(regions@[k] == old_regions[k]);
                                } else {
                                    assert(regions@[k + 1] == old_regions[k]);
                                }
                            }
                        }
                    } else {
                        assert(connected(m, seed, c));
                        assert(m.walkable_at(c.0, c.1)) by {
                            let p = choose|p: Seq<(int, int)>| #[trigger] crate::reach::is_walk(m, p) && p[0] == seed && p.last() == c;
                            assert(m.walkable_at(p[p.len() - 1].0, p[p.len() - 1].1));
                        }
                        if r@.len() >= MIN_REGION {
                            let j = choose|j: int| 0 <= j <= old_regions.len() && regions@ == old_regions.insert(j, r);
                            assert(regions@[j] == r);
                        } else {
                            assert forall|d: (int, int)| #[trigger] connected(m, c, d) implies r@.contains(
                                (d.0 as usize, d.1 as usize),
                            ) by {
                                lemma_connected_trans(m, seed, c, d);
                            }
                        }
                    }
                }
            }
        }
        proof {
            assert forall|c: (int, int)|
                on_map(c.0, c.1) && cell_index(c.0, c.1) < i + 1 && m.walkable_at(c.0, c.1) implies #[trigger] marked(
                visited@,
                c,
            ) by {
                if cell_index(c.0, c.1) == i {
                    assert(c == (x as int, y as int));
                }
            }
        }
        i = i + 1;
        if x + 1 < MAP_WIDTH {
            x = x + 1;
        } else {
            x = 0;
            y = y + 1;
        }
    }
    proof {
        assert forall|c: (int, int)| #[trigger] m.walkable_at(c.0, c.1) implies (exists|k: int|
            0 <= k < region_views(regions@).len() && #[trigger] region_views(regions@)[k].contains(
                (c.0 as usize, c.1 as usize),
            )) || component_smaller_than(m, c, MIN_REGION as int) by {
            assert(marked(visited@, c));
            if !component_smaller_than(m, c, MIN_REGION as int) {
                let k = choose|k: int|
                    0 <= k < regions@.len() && #[trigger] regions@[k]@.contains((c.0 as usize, c.1 as usize));
                assert(region_views(regions@)[k] == regions@[k]@);
            }
        }
        assert forall|k: int| 0 <= k < region_views(regions@).len() implies lists_component(
            m,
            #[trigger] region_views(regions@)[k],
        ) && region_views(regions@)[k].len() >= MIN_REGION by {
            assert(region_views(regions@)[k] == regions@[k]@);
        }
        assert forall|a: int, b: int|
            0 <= a < b < region_views(regions@).len() implies region_before(
            #[trigger] region_views(regions@)[a],
            #[trigger] region_views(regions@)[b],
        ) by {
            assert(region_views(regions@)[a] == regions@[a]@);
            assert(region_views(regions@)[b] == regions@[b]@);
        }
    }
    regions
}

/// Inserting a new region, whose first cell lies beyond every first cell so far, at
/// the point after all regions at least as large keeps the list ordered.
proof fn lemma_insert_keeps_regions(
    m: DungeonMap,
    old_rs: Seq<Vec<(usize, usize)>>,
    rs: Seq<Vec<(usize, usize)>>,
    j: int,
    r: Vec<(usize, usize)>,
    i: int,
)
    requires
        0 <= j <= old_rs.len(),
        rs == old_rs.insert(j, r),
        lists_component(m, r@),
        r@.len() >= MIN_REGION,
        on_map(r@[0].0 as int, r@[0].1 as int),
        cell_index(r@[0].0 as int, r@[0].1 as int) == i,
        forall|a: int| 0 <= a < j ==> #[trigger] old_rs[a]@.len() >= r@.len(),
        forall|a: int| j <= a < old_rs.len() ==> #[trigger] old_rs[a]@.len() < r@.len(),
        forall|k: int|
            0 <= k < old_rs.len() ==> lists_component(m, #[trigger] old_rs[k]@) && old_rs[k]@.len()
                >= MIN_REGION && on_map(old_rs[k]@[0].0 as int, old_rs[k]@[0].1 as int) && cell_index(
                old_rs[k]@[0].0 as int,
                old_rs[k]@[0].1 as int,
            ) < i,
        forall|a: int, b: int|
            0 <= a < b < old_rs.len() ==> region_before(#[trigger] old_rs[a]@, #[trigger] old_rs[b]@),
    ensures
        forall|k: int|
            0 <= k < rs.len() ==> lists_component(m, #[trigger] rs[k]@) && rs[k]@.len() >= MIN_REGION
                && on_map(rs[k]@[0].0 as int, rs[k]@[0].1 as int) && cell_index(
                rs[k]@[0].0 as int,
                rs[k]@[0].1 as int,
            ) < i + 1,
        forall|a: int, b: int| 0 <= a < b < rs.len() ==> region_before(#[trigger] rs[a]@, #[trigger] rs[b]@),
{
    assert forall|k: int| 0 <= k < rs.len() implies lists_component(m, #[trigger] rs[k]@) && rs[k]@.len()
        >= MIN_REGION && on_map(rs[k]@[0].0 as int, rs[k]@[0].1 as int) && cell_index(
        rs[k]@[0].0 as int,
        rs[k]@[0].1 as int,
    ) < i + 1 by {
        if k < j {
            assert(rs[k] == old_rs[k]);
        } else if k > j {
            assert(rs[k] == old_rs[k - 1]);
        }
    }
    assert forall|a: int, b: int| 0 <= a < b < rs.len() implies region_before(#[trigger] rs[a]@, #[trigger] rs[b]@) by {
        let ea = if a < j { old_rs[a] } else if a == j { r } else { old_rs[a - 1] };
        let eb = if b < j { old_rs[b] } else if b == j { r } else { old_rs[b - 1] };
        assert(rs[a] == ea);
        assert(rs[b] == eb);
        if a < j && b == j {
            lemma_before_index(
                (old_rs[a]@[0].0 as int, old_rs[a]@[0].1 as int),
                (r@[0].0 as int, r@[0].1 as int),
            );
        } else if a < j && b > j {
            assert(region_before(old_rs[a]@, old_rs[b - 1]@));
        } else if a > j {
            assert(region_before(old_rs[a - 1]@, old_rs[b - 1]@));
        }
    }
}

} // verus!

verus! {

/// `room` is the rectangle bounding the cells of `r`.
pub open spec fn bounds_region(room: Room, r: Seq<(usize, usize)>) -> bool {
    &&& room.shape == RoomShape::Rect
    &&& forall|k: int|
        0 <= k < r.len() ==> room.x <= (#[trigger] r[k]).0 < room.x + room.w && room.y <= r[k].1 < room.y
            + room.h
    &&& exists|k: int| 0 <= k < r.len() && (#[trigger] r[k]).0 == room.x
    &&& exists|k: int| 0 <= k < r.len() && (#[trigger] r[k]).0 == room.x + room.w - 1
    &&& exists|k: int| 0 <= k < r.len() && (#[trigger] r[k]).1 == room.y
    &&& exists|k: int| 0 <= k < r.len() && (#[trigger] r[k]).1 == room.y + room.h - 1
}

/// The bounding rectangle of a non-empty list of map cells.
fn bounding_room(r: &Vec<(usize, usize)>) -> (room: Room)
    requires
        r@.len() >= 1,
        forall|k: int| 0 <= k < r@.len() ==> on_map((#[trigger] r@[k]).0 as int, r@[k].1 as int),
    ensures
        bounds_region(room, r@),
        on_map(room.x as int, room.y as int),
        room.x + room.w <= MAP_WIDTH,
        room.y + room.h <= MAP_HEIGHT,
{
    let mut min_x = r[0].0;
    let mut max_x = r[0].0;
    let mut min_y = r[0].1;
    let mut max_y = r[0].1;
    let ghost mut kx0: int = 0;
    let ghost mut kx1: int = 0;
    let ghost mut ky0: int = 0;
    let ghost mut ky1: int = 0;
    let mut k: usize = 1;
    while k < r.len()
        invariant
            1 <= k <= r@.len(),
            forall|j: int| 0 <= j < r@.len() ==> on_map((#[trigger] r@[j]).0 as int, r@[j].1 as int),
            0 <= kx0 < k && r@[kx0].0 == min_x,
            0 <= kx1 < k && r@[kx1].0 == max_x,
            0 <= ky0 < k && r@[ky0].1 == min_y,
            0 <= ky1 < k && r@[ky1].1 == max_y,
            forall|j: int| 0 <= j < k ==> min_x <= (#[trigger] r@[j]).0 <= max_x && min_y <= r@[j].1 <= max_y,
        decreases r@.len() - k,
    {
        let (cx, cy) = r[k];
        if cx < min_x {
            min_x = cx;
            proof { kx0 = k as int; }
        }
        if cx > max_x {
            max_x = cx;
            proof { kx1 = k as int; }
        }
        if cy < min_y {
            min_y = cy;
            proof { ky0 = k as int; }
        }
        if cy > max_y {
            max_y = cy;
            proof { ky1 = k as int; }
        }
        k = k + 1;
    }
    let room = Room { x: min_x, y: min_y, w: max_x - min_x + 1, h: max_y - min_y + 1, shape: RoomShape::Rect };
    assert(r@[kx0].0 == room.x);
    assert(r@[kx1].0 == room.x + room.w - 1);
    assert(r@[ky0].1 == room.y);
    assert(r@[ky1].1 == room.y + room.h - 1);
    room
}

/// The rooms of a cave map: the bounding rectangles of its walkable regions of at
/// least six cells, largest first, at most `max_rooms` of them.
pub fn detect_cave_regions(map: &DungeonMap, max_rooms: usize) -> (rooms: Vec<Room>)
    requires
        map.wf(),
    ensures
        caves_found(*map, max_rooms as int, rooms@),
        forall|i: int|
            0 <= i < rooms@.len() ==> #[trigger] rooms@[i].x + rooms@[i].w <= MAP_WIDTH && rooms@[i].y
                + rooms@[i].h <= MAP_HEIGHT,
{
    let regions = collect_walkable_regions(map);
    let ghost rs = region_views(regions@);
    let mut rooms: Vec<Room> = Vec::new();
    let mut i: usize = 0;
    while i < regions.len() && i < max_rooms
        invariant
            rs == region_views(regions@),
            walkable_regions(*map, rs),
            i <= regions@.len(),
            i <= max_rooms,
            rooms@.len() == i,
            forall|k: int| 0 <= k < i ==> bounds_region(#[trigger] rooms@[k], rs[k]),
            forall|k: int|
                0 <= k < i ==> #[trigger] rooms@[k].x + rooms@[k].w <= MAP_WIDTH && rooms@[k].y + rooms@[k].h
                    <= MAP_HEIGHT,
        decreases regions@.len() - i,
    {
        assert(rs[i as int] == regions@[i as int]@);
        assert(lists_component(*map, rs[i as int]));
        proof {
            let r = rs[i as int];
            assert forall|k: int| 0 <= k < r.len() implies on_map((#[trigger] r[k]).0 as int, r[k].1 as int) by {
                assert(connected(*map, cell_of(r[0]), cell_of(r[k])));
                let p = choose|p: Seq<(int, int)>| #[trigger] crate::reach::is_walk(*map, p) && p[0] == cell_of(r[0]) && p.last() == cell_of(r[k]);
                assert(map.walkable_at(p[p.len() - 1].0, p[p.len() - 1].1));
            }
        }
        let room = bounding_room(&regions[i]);
        rooms.push(room);
        i = i + 1;
    }
    rooms
}

/// Two lists of the same region: the same length, the same first cell, the same cells.
pub open spec fn same_region(a: Seq<(usize, usize)>, b: Seq<(usize, usize)>) -> bool {
    &&& a.len() == b.len()
    &&& a.len() >= 1
    &&& a[0] == b[0]
    &&& forall|c: (usize, usize)| #[trigger] a.contains(c) <==> b.contains(c)
}

/// Both ends of a walk are walkable.
proof fn lemma_connected_walkable(m: DungeonMap, a: (int, int), b: (int, int))
    requires
        connected(m, a, b),
    ensures
        m.walkable_at(a.0, a.1),
        m.walkable_at(b.0, b.1),
{
    let p = choose|p: Seq<(int, int)>| #[trigger] crate::reach::is_walk(m, p) && p[0] == a && p.last() == b;
    assert(m.walkable_at(p[0].0, p[0].1));
    assert(m.walkable_at(p[p.len() - 1].0, p[p.len() - 1].1));
}

/// Two lists of regions that share a cell list the same region.
proof fn lemma_shared_cell_same_region(m: DungeonMap, a: Seq<(usize, usize)>, b: Seq<(usize, usize)>, x: (usize, usize))
    requires
        lists_component(m, a),
        lists_component(m, b),
        a.contains(x),
        b.contains(x),
    ensures
        same_region(a, b),
{
    let ka = choose|k: int| 0 <= k < a.len() && a[k] == x;
    let kb = choose|k: int| 0 <= k < b.len() && b[k] == x;
    assert(connected(m, cell_of(a[0]), cell_of(a[ka])));
    assert(connected(m, cell_of(b[0]), cell_of(b[kb])));
    lemma_connected_sym(m, cell_of(b[0]), cell_of(x));
    lemma_connected_trans(m, cell_of(a[0]), cell_of(x), cell_of(b[0]));
    lemma_connected_sym(m, cell_of(a[0]), cell_of(b[0]));
    assert(!before_int(cell_of(b[0]), cell_of(a[0])));
    assert(!before_int(cell_of(a[0]), cell_of(b[0])));
    assert(a[0] == b[0]);
    assert forall|c: (usize, usize)| #[trigger] a.contains(c) implies b.contains(c) by {
        let k = choose|k: int| 0 <= k < a.len() && a[k] == c;
        assert(connected(m, cell_of(a[0]), cell_of(a[k])));
    }
    assert forall|c: (usize, usize)| #[trigger] b.contains(c) implies a.contains(c) by {
        let k = choose|k: int| 0 <= k < b.len() && b[k] == c;
        assert(connected(m, cell_of(b[0]), cell_of(b[k])));
    }
    assert(a.to_set() =~= b.to_set()) by {
        assert forall|c: (usize, usize)| a.to_set().contains(c) <==> b.to_set().contains(c) by {
            assert(a.contains(c) <==> b.contains(c));
        }
    }
    a.unique_seq_to_set();
    b.unique_seq_to_set();
}

/// A listed region of at least six cells is among the regions of `rs`.
proof fn lemma_region_listed(m: DungeonMap, rs: Seq<Seq<(usize, usize)>>, r: Seq<(usize, usize)>)
    requires
        walkable_regions(m, rs),
        lists_component(m, r),
        r.len() >= MIN_REGION,
    ensures
        exists|j: int| 0 <= j < rs.len() && same_region(r, #[trigger] rs[j]),
{
    let c0 = cell_of(r[0]);
    assert(connected(m, c0, cell_of(r[0])));
    lemma_connected_walkable(m, c0, c0);
    assert(m.walkable_at(c0.0, c0.1));
    if exists|i: int| 0 <= i < rs.len() && #[trigger] rs[i].contains((c0.0 as usize, c0.1 as usize)) {
        let j = choose|i: int| 0 <= i < rs.len() && #[trigger] rs[i].contains((c0.0 as usize, c0.1 as usize));
        assert(r.contains(r[0]));
        assert((c0.0 as usize, c0.1 as usize) == r[0]);
        lemma_shared_cell_same_region(m, r, rs[j], r[0]);
    } else {
        assert(component_smaller_than(m, c0, MIN_REGION as int));
        let sm = choose|sm: Seq<(usize, usize)>|
            sm.len() < MIN_REGION && forall|d: (int, int)| #[trigger] connected(m, c0, d) ==> sm.contains(
                (d.0 as usize, d.1 as usize),
            );
        assert(r.to_set().subset_of(sm.to_set())) by {
            assert forall|c: (usize, usize)| r.to_set().contains(c) implies sm.to_set().contains(c) by {
                let k = choose|k: int| 0 <= k < r.len() && r[k] == c;
                assert(connected(m, c0, cell_of(r[k])));
                assert((cell_of(c).0 as usize, cell_of(c).1 as usize) == c);
            }
        }
        sm.lemma_cardinality_of_set();
        r.unique_seq_to_set();
        vstd::set_lib::lemma_len_subset(r.to_set(), sm.to_set());
    }
}

/// Each region of `rs1` is the same as some region of `rs2`.
proof fn lemma_match_in(m: DungeonMap, rs1: Seq<Seq<(usize, usize)>>, rs2: Seq<Seq<(usize, usize)>>, i: int)
    requires
        walkable_regions(m, rs1),
        walkable_regions(m, rs2),
        0 <= i < rs1.len(),
    ensures
        exists|j: int| 0 <= j < rs2.len() && same_region(rs1[i], #[trigger] rs2[j]),
{
    assert(lists_component(m, rs1[i]) && rs1[i].len() >= MIN_REGION);
    lemma_region_listed(m, rs2, rs1[i]);
}

/// The first `n` regions of two such lists are the same, one by one.
proof fn lemma_regions_agree_upto(m: DungeonMap, rs1: Seq<Seq<(usize, usize)>>, rs2: Seq<Seq<(usize, usize)>>, n: int)
    requires
        walkable_regions(m, rs1),
        walkable_regions(m, rs2),
        0 <= n <= rs1.len(),
    ensures
        n <= rs2.len(),
        forall|i: int| 0 <= i < n ==> same_region(#[trigger] rs1[i], rs2[i]),
    decreases n,
{
    if n > 0 {
        lemma_regions_agree_upto(m, rs1, rs2, n - 1);
        let t = n - 1;
        lemma_match_in(m, rs1, rs2, t);
        let j = choose|j: int| 0 <= j < rs2.len() && same_region(rs1[t], #[trigger] rs2[j]);
        if j < t {
            assert(same_region(rs1[j], rs2[j]));
            assert(region_before(rs1[j], rs1[t]));
        } else if j > t {
            lemma_match_in(m, rs2, rs1, t);
            let k = choose|k: int| 0 <= k < rs1.len() && same_region(rs2[t], #[trigger] rs1[k]);
            assert(region_before(rs2[t], rs2[j]));
            if k < t {
                assert(same_region(rs1[k], rs2[k]));
                assert(region_before(rs2[k], rs2[t]));
            } else if k > t {
                assert(region_before(rs1[t], rs1[k]));
            }
            assert(false);
        }
        assert(j == t);
    }
}

/// The walkable regions of a map are listed in one way only, up to the order of the
/// cells within each region: two lists that both hold them have the same length and,
/// place by place, the same first cell and the same cells.
pub proof fn lemma_regions_unique(m: DungeonMap, rs1: Seq<Seq<(usize, usize)>>, rs2: Seq<Seq<(usize, usize)>>)
    requires
        walkable_regions(m, rs1),
        walkable_regions(m, rs2),
    ensures
        rs1.len() == rs2.len(),
        forall|i: int| 0 <= i < rs1.len() ==> same_region(#[trigger] rs1[i], rs2[i]),
{
    lemma_regions_agree_upto(m, rs1, rs2, rs1.len() as int);
    lemma_regions_agree_upto(m, rs2, rs1, rs2.len() as int);
}

/// A rectangle that bounds a list of cells bounds every list with the same cells.
proof fn lemma_bounds_same_cells(room: Room, a: Seq<(usize, usize)>, b: Seq<(usize, usize)>)
    requires
        bounds_region(room, a),
        same_region(a, b),
    ensures
        bounds_region(room, b),
{
    assert forall|k: int| 0 <= k < b.len() implies room.x <= (#[trigger] b[k]).0 < room.x + room.w && room.y
        <= b[k].1 < room.y + room.h by {
        assert(b.contains(b[k]));
        assert(a.contains(b[k]));
        let ka = choose|ka: int| 0 <= ka < a.len() && a[ka] == b[k];
        assert(room.x <= a[ka].0 < room.x + room.w && room.y <= a[ka].1 < room.y + room.h);
    }
    let k1 = choose|k: int| 0 <= k < a.len() && (#[trigger] a[k]).0 == room.x;
    lemma_in_both(a, b, k1);
    let k2 = choose|k: int| 0 <= k < a.len() && (#[trigger] a[k]).0 == room.x + room.w - 1;
    lemma_in_both(a, b, k2);
    let k3 = choose|k: int| 0 <= k < a.len() && (#[trigger] a[k]).1 == room.y;
    lemma_in_both(a, b, k3);
    let k4 = choose|k: int| 0 <= k < a.len() && (#[trigger] a[k]).1 == room.y + room.h - 1;
    lemma_in_both(a, b, k4);
}

/// A cell of one list of a region is at some place of the other.
proof fn lemma_in_both(a: Seq<(usize, usize)>, b: Seq<(usize, usize)>, k: int)
    requires
        same_region(a, b),
        0 <= k < a.len(),
    ensures
        exists|kb: int| 0 <= kb < b.len() && b[kb] == a[k],
{
    assert(a.contains(a[k]));
    assert(b.contains(a[k]));
}

/// What [`detect_cave_regions`] gives on `m` with at most `max_rooms` rooms.
pub open spec fn caves_found(m: DungeonMap, max_rooms: int, rooms: Seq<Room>) -> bool {
    exists|rs: Seq<Seq<(usize, usize)>>|
        #[trigger] walkable_regions(m, rs) && rooms.len() == (if rs.len() <= max_rooms {
            rs.len() as int
        } else {
            max_rooms
        }) && forall|i: int| 0 <= i < rooms.len() ==> bounds_region(#[trigger] rooms[i], rs[i])
}

/// Cave detection agrees with region collection: for the regions `rs` that
/// [`collect_walkable_regions`] lists and the rooms that [`detect_cave_regions`] finds
/// with at most `max_rooms`, the rooms are the bounding rectangles of the first
/// regions, one for each of the first `min(rs.len(), max_rooms)` of them.
pub proof fn lemma_caves_bound_regions(m: DungeonMap, rs: Seq<Seq<(usize, usize)>>, max_rooms: int, rooms: Seq<Room>)
    requires
        walkable_regions(m, rs),
        caves_found(m, max_rooms, rooms),
    ensures
        rooms.len() == if rs.len() <= max_rooms { rs.len() as int } else { max_rooms },
        forall|i: int| 0 <= i < rooms.len() ==> bounds_region(#[trigger] rooms[i], rs[i]),
{
    let rs2 = choose|rs2: Seq<Seq<(usize, usize)>>|
        #[trigger] walkable_regions(m, rs2) && rooms.len() == (if rs2.len() <= max_rooms {
            rs2.len() as int
        } else {
            max_rooms
        }) && forall|i: int| 0 <= i < rooms.len() ==> bounds_region(#[trigger] rooms[i], rs2[i]);
    lemma_regions_unique(m, rs2, rs);
    assert forall|i: int| 0 <= i < rooms.len() implies bounds_region(#[trigger] rooms[i], rs[i]) by {
        lemma_bounds_same_cells(rooms[i], rs2[i], rs[i]);
    }
}

} // verus!
