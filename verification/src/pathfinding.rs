use vstd::prelude::*;
use vstd::set_lib::{set_int_range, lemma_int_range, lemma_len_subset};
use crate::tile::{MAP_WIDTH, MAP_HEIGHT};
use crate::room::{on_map, abs_int};
use crate::map::{DungeonMap, cell_index, MAP_CELLS, lemma_cell_index, cheb, abs_diff};
use crate::occupancy::OccupancyMap;
use crate::regions::cell_of;

verus! {

/// One of the eight cells around `a`.
pub open spec fn step8(a: (int, int), b: (int, int)) -> bool {
    cheb(b.0 - a.0, b.1 - a.1) == 1
}

/// Whether a route may enter `c`: a walkable map cell that, when an occupancy map is
/// given, is free or is the goal.
pub open spec fn passable(m: DungeonMap, occupied: Option<&OccupancyMap>, goal: (int, int), c: (int, int)) -> bool {
    &&& m.walkable_at(c.0, c.1)
    &&& match occupied {
        None => true,
        Some(o) => c == goal || !o.occupied_at(c.0, c.1),
    }
}

/// `nodes` goes from `start` to `goal` in steps to one of the eight surrounding
/// cells, entering only passable cells (the start itself is not checked).
pub open spec fn is_route_nodes(
    m: DungeonMap,
    occupied: Option<&OccupancyMap>,
    start: (int, int),
    goal: (int, int),
    nodes: Seq<(int, int)>,
) -> bool {
    &&& nodes.len() >= 1
    &&& nodes[0] == start
    &&& nodes.last() == goal
    &&& forall|i: int| 1 <= i < nodes.len() ==> passable(m, occupied, goal, #[trigger] nodes[i])
    &&& forall|i: int| 0 <= i < nodes.len() - 1 ==> step8(#[trigger] nodes[i], nodes[i + 1])
}

/// The cells of `path` after `start`, as a route.
pub open spec fn route_nodes(start: (int, int), path: Seq<(usize, usize)>) -> Seq<(int, int)> {
    seq![start] + Seq::new(path.len(), |i: int| cell_of(path[i]))
}

/// `path` lists the cells of a route from `start` to `goal`, without the start.
pub open spec fn is_route(
    m: DungeonMap,
    occupied: Option<&OccupancyMap>,
    start: (int, int),
    goal: (int, int),
    path: Seq<(usize, usize)>,
) -> bool {
    is_route_nodes(m, occupied, start, goal, route_nodes(start, path))
}

/// A route exists whose list of cells is `path`... for some `path`.
pub open spec fn route_exists(m: DungeonMap, occupied: Option<&OccupancyMap>, start: (int, int), goal: (int, int)) -> bool {
    exists|nodes: Seq<(int, int)>| #[trigger] is_route_nodes(m, occupied, start, goal, nodes)
}

/// A search node: cost so far and the estimate (Chebyshev distance) to the goal.
#[derive(Clone, Copy)]
struct AStarNode {
    cost: u32,
    heuristic: u32,
    x: usize,
    y: usize,
}

spec fn f_of(e: AStarNode) -> int {
    e.cost + e.heuristic
}

spec fn node_cell(e: AStarNode) -> (int, int) {
    (e.x as int, e.y as int)
}

spec fn cost_at(costs: Seq<u32>, c: (int, int)) -> u32 {
    costs[cell_index(c.0, c.1)]
}

spec fn dist_to(c: (int, int), goal: (int, int)) -> int {
    cheb(goal.0 - c.0, goal.1 - c.1)
}

/// The costs of all cells that a walk has set; it only goes down.
spec fn cost_sum(s: Seq<u32>) -> nat
    decreases s.len(),
{
    if s.len() == 0 { 0 } else { cost_sum(s.drop_last()) + s.last() as nat }
}

proof fn lemma_cost_sum_lower(s: Seq<u32>, i: int, v: u32)
    requires
        0 <= i < s.len(),
        v < s[i],
    ensures
        cost_sum(s.update(i, v)) < cost_sum(s),
    decreases s.len(),
{
    let t = s.update(i, v);
    if i == s.len() - 1 {
        assert(t.drop_last() =~= s.drop_last());
    } else {
        assert(t.drop_last() =~= s.drop_last().update(i, v));
        lemma_cost_sum_lower(s.drop_last(), i, v);
    }
}

/// Every waiting node lies on the map, carries the exact estimate, and costs at
/// least the best cost known for its cell.
spec fn heap_ok(goal: (int, int), heap: Seq<AStarNode>, costs: Seq<u32>) -> bool {
    forall|j: int|
        0 <= j < heap.len() ==> {
            let e = #[trigger] heap[j];
            &&& on_map(e.x as int, e.y as int)
            &&& e.heuristic == dist_to(node_cell(e), goal)
            &&& e.cost >= cost_at(costs, node_cell(e))
            &&& e.cost < u32::MAX
        }
}

/// A waiting node for `c` with exactly its best known cost.
spec fn waits_exact(heap: Seq<AStarNode>, costs: Seq<u32>, c: (int, int)) -> bool {
    exists|j: int| 0 <= j < heap.len() && node_cell(#[trigger] heap[j]) == c && heap[j].cost == cost_at(costs, c)
}

/// Every reached cell but `skip` waits with its best cost or has been expanded.
spec fn waiting_ok(heap: Seq<AStarNode>, costs: Seq<u32>, expanded: Seq<bool>, skip: (int, int)) -> bool {
    forall|c: (int, int)|
        on_map(c.0, c.1) && c != skip && #[trigger] cost_at(costs, c) < u32::MAX ==> waits_exact(heap, costs, c)
            || expanded[cell_index(c.0, c.1)]
}

/// Every expanded cell but `skip` has a known cost, and each passable neighbour costs at
/// most one more.
spec fn expanded_ok(
    m: DungeonMap,
    occupied: Option<&OccupancyMap>,
    goal: (int, int),
    costs: Seq<u32>,
    expanded: Seq<bool>,
    skip: (int, int),
) -> bool {
    forall|c: (int, int)|
        on_map(c.0, c.1) && c != skip && #[trigger] expanded[cell_index(c.0, c.1)] ==> cost_at(costs, c)
            < u32::MAX && forall|d: (int, int)|
            step8(c, d) && passable(m, occupied, goal, d) ==> #[trigger] cost_at(costs, d) <= cost_at(costs, c)
                + 1
}

/// Each reached cell but the start records a passable step from a cheaper neighbour.
spec fn came_ok(
    m: DungeonMap,
    occupied: Option<&OccupancyMap>,
    start: (int, int),
    goal: (int, int),
    costs: Seq<u32>,
    came: Seq<Option<(usize, usize)>>,
) -> bool {
    forall|c: (int, int)|
        on_map(c.0, c.1) ==> match #[trigger] came[cell_index(c.0, c.1)] {
            Some(p) => on_map(p.0 as int, p.1 as int) && step8(cell_of(p), c) && passable(m, occupied, goal, c)
                && cost_at(costs, cell_of(p)) < cost_at(costs, c) && cost_at(costs, c) < u32::MAX,
            None => cost_at(costs, c) < u32::MAX ==> c == start,
        }
}

/// The search state's invariant, except for the node `skip` (the one being expanded).
spec fn search_inv(
    m: DungeonMap,
    occupied: Option<&OccupancyMap>,
    start: (int, int),
    goal: (int, int),
    heap: Seq<AStarNode>,
    costs: Seq<u32>,
    came: Seq<Option<(usize, usize)>>,
    expanded: Seq<bool>,
    skip: (int, int),
) -> bool {
    &&& on_map(start.0, start.1)
    &&& on_map(goal.0, goal.1)
    &&& costs.len() == MAP_CELLS
    &&& came.len() == MAP_CELLS
    &&& expanded.len() == MAP_CELLS
    &&& cost_at(costs, start) == 0
    &&& heap_ok(goal, heap, costs)
    &&& waiting_ok(heap, costs, expanded, skip)
    &&& expanded_ok(m, occupied, goal, costs, expanded, skip)
    &&& !expanded[cell_index(goal.0, goal.1)]
    &&& came_ok(m, occupied, start, goal, costs, came)
}

/// Along a route, the Chebyshev distance to its end is at most the steps left.
proof fn lemma_route_dist(nodes: Seq<(int, int)>, goal: (int, int), i: int)
    requires
        nodes.len() >= 1,
        nodes.last() == goal,
        0 <= i < nodes.len(),
        forall|k: int| 0 <= k < nodes.len() - 1 ==> step8(#[trigger] nodes[k], nodes[k + 1]),
    ensures
        dist_to(nodes[i], goal) <= nodes.len() - 1 - i,
    decreases nodes.len() - i,
{
    if i < nodes.len() - 1 {
        lemma_route_dist(nodes, goal, i + 1);
        assert(step8(nodes[i], nodes[i + 1]));
    }
}

/// While the goal is unexpanded, some waiting node on any route of at most
/// `MAP_CELLS` steps has an estimate no larger than the route's length.
proof fn lemma_frontier(
    m: DungeonMap,
    occupied: Option<&OccupancyMap>,
    start: (int, int),
    goal: (int, int),
    heap: Seq<AStarNode>,
    costs: Seq<u32>,
    came: Seq<Option<(usize, usize)>>,
    expanded: Seq<bool>,
    nodes: Seq<(int, int)>,
    i: int,
)
    requires
        search_inv(m, occupied, start, goal, heap, costs, came, expanded, (-1, -1)),
        is_route_nodes(m, occupied, start, goal, nodes),
        on_map(start.0, start.1),
        on_map(goal.0, goal.1),
        nodes.len() - 1 <= MAP_CELLS,
        0 <= i < nodes.len(),
        cost_at(costs, nodes[i]) <= i,
    ensures
        exists|j: int| 0 <= j < heap.len() && f_of(#[trigger] heap[j]) <= nodes.len() - 1,
    decreases nodes.len() - i,
{
    let n = nodes[i];
    assert(on_map(n.0, n.1)) by {
        if i > 0 {
            assert(passable(m, occupied, goal, nodes[i]));
        }
    }
    lemma_route_dist(nodes, goal, i);
    if waits_exact(heap, costs, n) {
        let j = choose|j: int| 0 <= j < heap.len() && node_cell(#[trigger] heap[j]) == n && heap[j].cost == cost_at(costs, n);
        assert(f_of(heap[j]) <= nodes.len() - 1);
    } else {
        assert(expanded[cell_index(n.0, n.1)]);
        if i == nodes.len() - 1 {
            assert(n == goal);
        }
        let d = nodes[i + 1];
        assert(step8(nodes[i], nodes[i + 1]));
        assert(passable(m, occupied, goal, nodes[i + 1]));
        assert(cost_at(costs, d) <= cost_at(costs, n) + 1);
        lemma_frontier(m, occupied, start, goal, heap, costs, came, expanded, nodes, i + 1);
    }
}

/// More than `MAP_CELLS` map cells after the first entry: some cell comes twice.
proof fn lemma_repeated_cell(nodes: Seq<(int, int)>) -> (pair: (int, int))
    requires
        nodes.len() - 1 > MAP_CELLS,
        forall|k: int| 1 <= k < nodes.len() ==> on_map(#[trigger] nodes[k].0, nodes[k].1),
    ensures
        1 <= pair.0 < pair.1 < nodes.len(),
        nodes[pair.0] == nodes[pair.1],
{
    let s = Seq::new(MAP_CELLS as nat + 1, |k: int| cell_index(nodes[k + 1].0, nodes[k + 1].1));
    assert forall|k: int| 0 <= k < s.len() implies 0 <= #[trigger] s[k] < MAP_CELLS by {
        assert(on_map(nodes[k + 1].0, nodes[k + 1].1));
        lemma_cell_index(nodes[k + 1].0, nodes[k + 1].1, 0, 0);
    }
    if s.no_duplicates() {
        s.unique_seq_to_set();
        lemma_int_range(0, MAP_CELLS as int);
        assert(s.to_set().subset_of(set_int_range(0, MAP_CELLS as int)));
        lemma_len_subset(s.to_set(), set_int_range(0, MAP_CELLS as int));
        assert(false);
    }
    let (a, b) = choose|a: int, b: int| 0 <= a < s.len() && 0 <= b < s.len() && a != b && s[a] == s[b];
    let (lo, hi) = if a < b { (a + 1, b + 1) } else { (b + 1, a + 1) };
    assert(s[lo - 1] == s[hi - 1]);
    assert(on_map(nodes[lo].0, nodes[lo].1));
    assert(on_map(nodes[hi].0, nodes[hi].1));
    lemma_cell_index(nodes[lo].0, nodes[lo].1, nodes[hi].0, nodes[hi].1);
    (lo, hi)
}

/// Leaving out the loop between two visits of one cell keeps every entered cell one
/// that `ok` accepts, keeps every step a step to a neighbour, and keeps both ends.
#[verifier::rlimit(40)]
#[verifier::spinoff_prover]
proof fn lemma_cut_loop(nodes: Seq<(int, int)>, ok: spec_fn((int, int)) -> bool, lo: int, hi: int)
    requires
        1 <= lo < hi < nodes.len(),
        nodes[lo] == nodes[hi],
        forall|i: int| 1 <= i < nodes.len() ==> ok(#[trigger] nodes[i]),
        forall|i: int| 0 <= i < nodes.len() - 1 ==> step8(#[trigger] nodes[i], nodes[i + 1]),
    ensures
        ({
            let cut = nodes.take(lo + 1) + nodes.skip(hi + 1);
            &&& cut.len() < nodes.len()
            &&& cut[0] == nodes[0]
            &&& cut.last() == nodes.last()
            &&& forall|i: int| 1 <= i < cut.len() ==> ok(#[trigger] cut[i])
            &&& forall|i: int| 0 <= i < cut.len() - 1 ==> step8(#[trigger] cut[i], cut[i + 1])
        }),
{
    let cut = nodes.take(lo + 1) + nodes.skip(hi + 1);
    assert forall|i: int| 1 <= i < cut.len() implies ok(#[trigger] cut[i]) by {
        if i <= lo {
            assert(cut[i] == nodes[i]);
        } else {
            assert(cut[i] == nodes[i - lo + hi]);
        }
    }
    assert forall|i: int| 0 <= i < cut.len() - 1 implies step8(#[trigger] cut[i], cut[i + 1]) by {
        if i < lo {
            assert(cut[i] == nodes[i] && cut[i + 1] == nodes[i + 1]);
        } else if i == lo {
            assert(cut[i] == nodes[hi] && cut[i + 1] == nodes[hi + 1]);
        } else {
            assert(cut[i] == nodes[i - lo + hi] && cut[i + 1] == nodes[i + 1 - lo + hi]);
        }
    }
    if hi + 1 < nodes.len() {
        assert(cut.last() == nodes.last());
    } else {
        assert(cut.last() == nodes[lo]);
    }
}

/// A walk through map cells that `ok` accepts can be cut down to at most
/// `MAP_CELLS` steps with the same ends.
proof fn lemma_shorten(nodes: Seq<(int, int)>, ok: spec_fn((int, int)) -> bool) -> (short: Seq<(int, int)>)
    requires
        nodes.len() >= 1,
        forall|c: (int, int)| #[trigger] ok(c) ==> on_map(c.0, c.1),
        forall|i: int| 1 <= i < nodes.len() ==> ok(#[trigger] nodes[i]),
        forall|i: int| 0 <= i < nodes.len() - 1 ==> step8(#[trigger] nodes[i], nodes[i + 1]),
    ensures
        short.len() >= 1,
        short[0] == nodes[0],
        short.last() == nodes.last(),
        forall|i: int| 1 <= i < short.len() ==> ok(#[trigger] short[i]),
        forall|i: int| 0 <= i < short.len() - 1 ==> step8(#[trigger] short[i], short[i + 1]),
        short.len() <= nodes.len(),
        short.len() - 1 <= MAP_CELLS,
    decreases nodes.len(),
{
    if nodes.len() - 1 <= MAP_CELLS {
        return nodes;
    }
    assert forall|k: int| 1 <= k < nodes.len() implies on_map(#[trigger] nodes[k].0, nodes[k].1) by {
        assert(ok(nodes[k]));
    }
    let (lo, hi) = lemma_repeated_cell(nodes);
    lemma_cut_loop(nodes, ok, lo, hi);
    lemma_shorten(nodes.take(lo + 1) + nodes.skip(hi + 1), ok)
}

/// Any route can be shortened to one of at most `MAP_CELLS` steps.
proof fn lemma_short_route(
    m: DungeonMap,
    occupied: Option<&OccupancyMap>,
    start: (int, int),
    goal: (int, int),
    nodes: Seq<(int, int)>,
) -> (short: Seq<(int, int)>)
    requires
        is_route_nodes(m, occupied, start, goal, nodes),
    ensures
        is_route_nodes(m, occupied, start, goal, short),
        short.len() <= nodes.len(),
        short.len() - 1 <= MAP_CELLS,
{
    let ok = |c: (int, int)| passable(m, occupied, goal, c);
    assert forall|i: int| 1 <= i < nodes.len() implies ok(#[trigger] nodes[i]) by {
        assert(passable(m, occupied, goal, nodes[i]));
    }
    let short = lemma_shorten(nodes, ok);
    assert forall|i: int| 1 <= i < short.len() implies passable(m, occupied, goal, #[trigger] short[i]) by {
        assert(ok(short[i]));
    }
    short
}

/// Removing the expanded node keeps the invariant; a node whose cost is out of date
/// leaves nothing to exclude.
proof fn lemma_after_pop(
    m: DungeonMap,
    occupied: Option<&OccupancyMap>,
    start: (int, int),
    goal: (int, int),
    heap: Seq<AStarNode>,
    costs: Seq<u32>,
    came: Seq<Option<(usize, usize)>>,
    expanded: Seq<bool>,
    k: int,
)
    requires
        search_inv(m, occupied, start, goal, heap, costs, came, expanded, (-1, -1)),
        0 <= k < heap.len(),
    ensures
        ({
            let c = node_cell(heap[k]);
            let skip = if heap[k].cost == cost_at(costs, c) { c } else { (-1, -1) };
            search_inv(m, occupied, start, goal, heap.remove(k), costs, came, expanded, skip)
        }),
{
    let c = node_cell(heap[k]);
    let skip = if heap[k].cost == cost_at(costs, c) { c } else { (-1, -1) };
    let h2 = heap.remove(k);
    assert forall|j: int| 0 <= j < h2.len() implies #[trigger] h2[j] == heap[if j < k { j } else { j + 1 }] by {}
    assert(heap_ok(goal, h2, costs)) by {
        assert forall|j: int| 0 <= j < h2.len() implies {
            let e = #[trigger] h2[j];
            &&& on_map(e.x as int, e.y as int)
            &&& e.heuristic == dist_to(node_cell(e), goal)
            &&& e.cost >= cost_at(costs, node_cell(e))
            &&& e.cost < u32::MAX
        } by {
            let i = if j < k { j } else { j + 1 };
            assert(h2[j] == heap[i]);
        }
    }
    assert forall|d: (int, int)|
        on_map(d.0, d.1) && d != skip && #[trigger] cost_at(costs, d) < u32::MAX implies waits_exact(h2, costs, d)
            || expanded[cell_index(d.0, d.1)] by {
        assert(on_map(d.0, d.1) && d != (-1int, -1int));
        if !expanded[cell_index(d.0, d.1)] {
            assert(waits_exact(heap, costs, d));
            let j = choose|j: int| 0 <= j < heap.len() && node_cell(#[trigger] heap[j]) == d && heap[j].cost == cost_at(costs, d);
            assert(j != k);
            let j2 = if j < k { j } else { j - 1 };
            assert(h2[j2] == heap[j]);
        }
    }
}

/// Lowering the cost of a passable neighbour `n` of the expanded node to `nc`, through
/// that node, keeps the invariant.
proof fn lemma_relax(
    m: DungeonMap,
    occupied: Option<&OccupancyMap>,
    start: (int, int),
    goal: (int, int),
    heap: Seq<AStarNode>,
    costs: Seq<u32>,
    came: Seq<Option<(usize, usize)>>,
    expanded: Seq<bool>,
    skip: (int, int),
    from: (usize, usize),
    n: (usize, usize),
    nc: u32,
)
    requires
        search_inv(m, occupied, start, goal, heap, costs, came, expanded, skip),
        on_map(from.0 as int, from.1 as int),
        on_map(n.0 as int, n.1 as int),
        step8(cell_of(from), cell_of(n)),
        passable(m, occupied, goal, cell_of(n)),
        cell_of(n) != skip,
        cost_at(costs, cell_of(from)) < nc,
        nc < cost_at(costs, cell_of(n)),
    ensures
        ({
            let ni = cell_index(n.0 as int, n.1 as int);
            let e = AStarNode { cost: nc, heuristic: dist_to(cell_of(n), goal) as u32, x: n.0, y: n.1 };
            search_inv(
                m,
                occupied,
                start,
                goal,
                heap.push(e),
                costs.update(ni, nc),
                came.update(ni, Some(from)),
                expanded.update(ni, false),
                skip,
            )
        }),
{
    let nn = cell_of(n);
    let ni = cell_index(nn.0, nn.1);
    lemma_cell_index(nn.0, nn.1, 0, 0);
    let e = AStarNode { cost: nc, heuristic: dist_to(nn, goal) as u32, x: n.0, y: n.1 };
    let h2 = heap.push(e);
    let c2 = costs.update(ni, nc);
    let m2 = came.update(ni, Some(from));
    let x2 = expanded.update(ni, false);
    assert(0 <= dist_to(nn, goal) < 100);
    assert forall|c: (int, int)| on_map(c.0, c.1) implies (#[trigger] cost_at(c2, c) == if c == nn {
        nc
    } else {
        cost_at(costs, c)
    }) && x2[cell_index(c.0, c.1)] == (c != nn && expanded[cell_index(c.0, c.1)]) && m2[cell_index(c.0, c.1)] == if c
        == nn {
        Some(from)
    } else {
        came[cell_index(c.0, c.1)]
    } by {
        lemma_cell_index(c.0, c.1, nn.0, nn.1);
    }
    assert(nn != start);
    assert(nn != goal ==> cell_index(goal.0, goal.1) != ni) by {
        lemma_cell_index(goal.0, goal.1, nn.0, nn.1);
    }
    assert(heap_ok(goal, h2, c2)) by {
        assert forall|j: int| 0 <= j < h2.len() implies {
            let f = #[trigger] h2[j];
            &&& on_map(f.x as int, f.y as int)
            &&& f.heuristic == dist_to(node_cell(f), goal)
            &&& f.cost >= cost_at(c2, node_cell(f))
            &&& f.cost < u32::MAX
        } by {
            if j < heap.len() {
                assert(h2[j] == heap[j]);
            }
        }
    }
    assert forall|c: (int, int)|
        on_map(c.0, c.1) && c != skip && #[trigger] cost_at(c2, c) < u32::MAX implies waits_exact(h2, c2, c)
            || x2[cell_index(c.0, c.1)] by {
        if c == nn {
            assert(node_cell(h2[heap.len() as int]) == c);
        } else if !expanded[cell_index(c.0, c.1)] {
            assert(waits_exact(heap, costs, c));
            let j = choose|j: int| 0 <= j < heap.len() && node_cell(#[trigger] heap[j]) == c && heap[j].cost == cost_at(costs, c);
            assert(h2[j] == heap[j]);
        }
    }
    assert forall|c: (int, int)|
        on_map(c.0, c.1) && c != skip && #[trigger] x2[cell_index(c.0, c.1)] implies cost_at(c2, c) < u32::MAX
            && forall|d: (int, int)|
            step8(c, d) && passable(m, occupied, goal, d) ==> #[trigger] cost_at(c2, d) <= cost_at(c2, c) + 1 by {
        assert(c != nn);
        assert forall|d: (int, int)| step8(c, d) && passable(m, occupied, goal, d) implies #[trigger] cost_at(
            c2,
            d,
        ) <= cost_at(c2, c) + 1 by {
            assert(cost_at(costs, d) <= cost_at(costs, c) + 1);
        }
    }
    assert forall|c: (int, int)| on_map(c.0, c.1) implies match #[trigger] m2[cell_index(c.0, c.1)] {
        Some(p) => on_map(p.0 as int, p.1 as int) && step8(cell_of(p), c) && passable(m, occupied, goal, c)
            && cost_at(c2, cell_of(p)) < cost_at(c2, c) && cost_at(c2, c) < u32::MAX,
        None => cost_at(c2, c) < u32::MAX ==> c == start,
    } by {
        if c != nn {
            match came[cell_index(c.0, c.1)] {
                Some(p) => {
                    assert(cost_at(c2, cell_of(p)) <= cost_at(costs, cell_of(p)));
                },
                None => {},
            }
        }
    }
}

/// Once every passable neighbour of `c` costs at most one more than `c`, `c` counts as
/// expanded.
proof fn lemma_finish_expand(
    m: DungeonMap,
    occupied: Option<&OccupancyMap>,
    start: (int, int),
    goal: (int, int),
    heap: Seq<AStarNode>,
    costs: Seq<u32>,
    came: Seq<Option<(usize, usize)>>,
    expanded: Seq<bool>,
    c: (int, int),
)
    requires
        search_inv(m, occupied, start, goal, heap, costs, came, expanded, c),
        on_map(c.0, c.1),
        c != goal,
        cost_at(costs, c) < u32::MAX,
        forall|d: (int, int)| step8(c, d) && passable(m, occupied, goal, d) ==> #[trigger] cost_at(costs, d) <= cost_at(costs, c) + 1,
    ensures
        search_inv(m, occupied, start, goal, heap, costs, came, expanded.update(cell_index(c.0, c.1), true), (-1, -1)),
{
    let ci = cell_index(c.0, c.1);
    let x2 = expanded.update(ci, true);
    lemma_cell_index(c.0, c.1, goal.0, goal.1);
    assert forall|d: (int, int)| on_map(d.0, d.1) implies #[trigger] x2[cell_index(d.0, d.1)] == (d == c
        || expanded[cell_index(d.0, d.1)]) by {
        lemma_cell_index(c.0, c.1, d.0, d.1);
    }
}

/// The eight offsets, in the order the search tries them.
spec fn dir_of(j: int) -> (int, int) {
    if j == 0 { (0, -1) }
    else if j == 1 { (0, 1) }
    else if j == 2 { (-1, 0) }
    else if j == 3 { (1, 0) }
    else if j == 4 { (-1, -1) }
    else if j == 5 { (1, -1) }
    else if j == 6 { (-1, 1) }
    else { (1, 1) }
}

/// Every neighbour is reached by one of the eight offsets.
proof fn lemma_step8_dir(c: (int, int), d: (int, int)) -> (j: int)
    requires
        step8(c, d),
    ensures
        0 <= j < 8,
        d == (c.0 + dir_of(j).0, c.1 + dir_of(j).1),
{
    let dx = d.0 - c.0;
    let dy = d.1 - c.1;
    if dx == 0 && dy == -1 { 0 }
    else if dx == 0 && dy == 1 { 1 }
    else if dx == -1 && dy == 0 { 2 }
    else if dx == 1 && dy == 0 { 3 }
    else if dx == -1 && dy == -1 { 4 }
    else if dx == 1 && dy == -1 { 5 }
    else if dx == -1 && dy == 1 { 6 }
    else { 7 }
}

/// The offset tried at position `j` of the eight.
fn dir_offset(j: usize) -> (d: (isize, isize))
    requires
        j < 8,
    ensures
        d.0 == dir_of(j as int).0,
        d.1 == dir_of(j as int).1,
{
    if j == 0 { (0, -1) }
    else if j == 1 { (0, 1) }
    else if j == 2 { (-1, 0) }
    else if j == 3 { (1, 0) }
    else if j == 4 { (-1, -1) }
    else if j == 5 { (1, -1) }
    else if j == 6 { (-1, 1) }
    else { (1, 1) }
}

/// The cell at offset `d` from `(x, y)`, when it lies on the map.
fn step_on_map(x: usize, y: usize, d: (isize, isize)) -> (r: Option<(usize, usize)>)
    requires
        on_map(x as int, y as int),
        -1 <= d.0 <= 1,
        -1 <= d.1 <= 1,
    ensures
        match r {
            Some(n) => on_map(x + d.0, y + d.1) && cell_of(n) == (x + d.0, y + d.1),
            None => !on_map(x + d.0, y + d.1),
        },
{
    let nx = if d.0 < 0 {
        if x == 0 {
            return None;
        }
        x - 1
    } else if d.0 == 0 {
        x
    } else {
        x + 1
    };
    let ny = if d.1 < 0 {
        if y == 0 {
            return None;
        }
        y - 1
    } else if d.1 == 0 {
        y
    } else {
        y + 1
    };
    if nx >= MAP_WIDTH || ny >= MAP_HEIGHT {
        return None;
    }
    Some((nx, ny))
}

/// Chebyshev distance from `(x, y)` to `goal`, the number of steps without obstacles.
fn estimate(x: usize, y: usize, goal: (usize, usize)) -> (h: u32)
    requires
        on_map(x as int, y as int),
        on_map(goal.0 as int, goal.1 as int),
    ensures
        h == dist_to((x as int, y as int), cell_of(goal)),
{
    let dx = abs_diff(x, goal.0);
    let dy = abs_diff(y, goal.1);
    let d = if dx >= dy { dx } else { dy };
    d as u32
}

/// Removes and returns a waiting node whose cost plus estimate is smallest.
fn take_best(heap: &mut Vec<AStarNode>) -> (r: (usize, AStarNode))
    requires
        old(heap)@.len() > 0,
    ensures
        r.0 < old(heap)@.len(),
        r.1 == old(heap)@[r.0 as int],
        final(heap)@ == old(heap)@.remove(r.0 as int),
        forall|j: int| 0 <= j < old(heap)@.len() ==> f_of(r.1) <= f_of(#[trigger] old(heap)@[j]),
{
    let mut best: usize = 0;
    let mut best_f: u64 = heap[0].cost as u64 + heap[0].heuristic as u64;
    let mut i: usize = 1;
    while i < heap.len()
        invariant
            1 <= i <= heap@.len(),
            best < heap@.len(),
            best_f == f_of(heap@[best as int]),
            forall|j: int| 0 <= j < i ==> best_f <= f_of(#[trigger] heap@[j]),
        decreases heap@.len() - i,
    {
        let f: u64 = heap[i].cost as u64 + heap[i].heuristic as u64;
        if f < best_f {
            best = i;
            best_f = f;
        }
        i = i + 1;
    }
    let e = heap.remove(best);
    (best, e)
}

/// Follows the recorded steps back from `goal` to the start, and lists the cells
/// after the start in walking order.
fn trace_path(
    map: &DungeonMap,
    occupied: Option<&OccupancyMap>,
    came: &Vec<Option<(usize, usize)>>,
    goal: (usize, usize),
    Ghost(start): Ghost<(int, int)>,
    Ghost(costs): Ghost<Seq<u32>>,
) -> (path: Vec<(usize, usize)>)
    requires
        came@.len() == MAP_CELLS,
        costs.len() == MAP_CELLS,
        on_map(start.0, start.1),
        on_map(goal.0 as int, goal.1 as int),
        came_ok(*map, occupied, start, cell_of(goal), costs, came@),
        cost_at(costs, cell_of(goal)) < u32::MAX,
    ensures
        is_route(*map, occupied, start, cell_of(goal), path@),
        path@.len() <= cost_at(costs, cell_of(goal)),
{
    let ghost g = cell_of(goal);
    let mut back: Vec<(usize, usize)> = Vec::new();
    let mut cur = goal;
    while came[cur.1 * MAP_WIDTH + cur.0].is_some()
        invariant
            came@.len() == MAP_CELLS,
            costs.len() == MAP_CELLS,
            on_map(cur.0 as int, cur.1 as int),
            came_ok(*map, occupied, start, g, costs, came@),
            cost_at(costs, g) < u32::MAX,
            back@.len() + cost_at(costs, cell_of(cur)) <= cost_at(costs, g),
            back@.len() == 0 ==> cur == goal,
            back@.len() > 0 ==> back@[0] == goal && step8(cell_of(cur), cell_of(back@.last())),
            forall|i: int| 0 <= i < back@.len() ==> passable(*map, occupied, g, #[trigger] cell_of(back@[i])),
            forall|i: int| 0 <= i < back@.len() - 1 ==> step8(cell_of(#[trigger] back@[i + 1]), cell_of(back@[i])),
        decreases cost_at(costs, cell_of(cur)),
    {
        let prev = came[cur.1 * MAP_WIDTH + cur.0].unwrap();
        proof {
            let c = cell_of(cur);
            assert(came@[cell_index(c.0, c.1)] == Some(prev));
        }
        back.push(cur);
        cur = prev;
    }
    proof {
        let c = cell_of(cur);
        assert(came@[cell_index(c.0, c.1)] is None);
        assert(c == start);
    }
    let mut path: Vec<(usize, usize)> = Vec::new();
    let mut i: usize = back.len();
    while i > 0
        invariant
            i <= back@.len(),
            path@.len() + i == back@.len(),
            forall|k: int| 0 <= k < path@.len() ==> #[trigger] path@[k] == back@[back@.len() - 1 - k],
        decreases i,
    {
        i = i - 1;
        path.push(back[i]);
    }
    proof {
        let nodes = route_nodes(start, path@);
        let n = back@.len() as int;
        assert forall|k: int| 1 <= k < nodes.len() implies passable(*map, occupied, g, #[trigger] nodes[k]) by {
            assert(nodes[k] == cell_of(back@[n - k]));
        }
        assert forall|k: int| 0 <= k < nodes.len() - 1 implies step8(#[trigger] nodes[k], nodes[k + 1]) by {
            if k == 0 {
                assert(nodes[0] == start);
                assert(nodes[1] == cell_of(back@[n - 1]));
            } else {
                let j = n - k - 1;
                assert(nodes[k] == cell_of(back@[j + 1]));
                assert(nodes[k + 1] == cell_of(back@[j]));
                assert(step8(cell_of(back@[j + 1]), cell_of(back@[j])));
            }
        }
        if n > 0 {
            assert(nodes.last() == cell_of(back@[0]));
        }
        assert(is_route_nodes(*map, occupied, start, g, nodes));
    }
    path
}

/// The search state before the first step: only the start is reached, and it waits.
fn initial_search(
    map: &DungeonMap,
    occupied: Option<&OccupancyMap>,
    start: (usize, usize),
    goal: (usize, usize),
) -> (r: (Vec<AStarNode>, Vec<u32>, Vec<Option<(usize, usize)>>))
    requires
        on_map(start.0 as int, start.1 as int),
        on_map(goal.0 as int, goal.1 as int),
    ensures
        search_inv(
            *map,
            occupied,
            cell_of(start),
            cell_of(goal),
            r.0@,
            r.1@,
            r.2@,
            Seq::new(MAP_CELLS as nat, |i: int| false),
            (-1, -1),
        ),
{
    let mut costs: Vec<u32> = Vec::new();
    let mut came: Vec<Option<(usize, usize)>> = Vec::new();
    let mut i: usize = 0;
    while i < MAP_CELLS
        invariant
            i <= MAP_CELLS,
            costs@.len() == i,
            came@.len() == i,
            forall|k: int| 0 <= k < i ==> costs@[k] == u32::MAX,
            forall|k: int| 0 <= k < i ==> came@[k] is None,
        decreases MAP_CELLS - i,
    {
        costs.push(u32::MAX);
        came.push(None);
        i = i + 1;
    }
    let si = start.1 * MAP_WIDTH + start.0;
    costs.set(si, 0);
    let mut heap: Vec<AStarNode> = Vec::new();
    let h = estimate(start.0, start.1, goal);
    heap.push(AStarNode { cost: 0, heuristic: h, x: start.0, y: start.1 });
    proof {
        let s = cell_of(start);
        let g = cell_of(goal);
        let expanded = Seq::new(MAP_CELLS as nat, |i: int| false);
        assert forall|c: (int, int)| on_map(c.0, c.1) && c != s implies #[trigger] cost_at(costs@, c) == u32::MAX by {
            lemma_cell_index(c.0, c.1, s.0, s.1);
        }
        assert(node_cell(heap@[0]) == s);
        assert(waiting_ok(heap@, costs@, expanded, (-1, -1)));
        lemma_cell_index(g.0, g.1, 0, 0);
        assert(came_ok(*map, occupied, s, g, costs@, came@)) by {
            assert forall|c: (int, int)| on_map(c.0, c.1) implies #[trigger] came@[cell_index(c.0, c.1)] is None by {
                lemma_cell_index(c.0, c.1, 0, 0);
            }
        }
    }
    (heap, costs, came)
}

/// Finds a shortest route from `start` to `goal` in steps to any of the eight
/// surrounding cells, over walkable cells, and, when `occupied` is given, around taken
/// cells (the goal may be taken). The route is returned without the start and with
/// the goal; `None` when the goal cannot be walked on or cannot be reached.
pub fn astar(
    start: (usize, usize),
    goal: (usize, usize),
    map: &DungeonMap,
    occupied: Option<&OccupancyMap>,
) -> (r: Option<Vec<(usize, usize)>>)
    requires
        map.wf(),
        on_map(start.0 as int, start.1 as int),
        on_map(goal.0 as int, goal.1 as int),
        occupied matches Some(o) ==> o.wf(),
    ensures
        r is Some <==> map.walkable_at(goal.0 as int, goal.1 as int) && route_exists(
            *map,
            occupied,
            cell_of(start),
            cell_of(goal),
        ),
        r matches Some(p) ==> is_route(*map, occupied, cell_of(start), cell_of(goal), p@) && forall|
            nodes: Seq<(int, int)>,
        |
            #[trigger] is_route_nodes(*map, occupied, cell_of(start), cell_of(goal), nodes) ==> p@.len() + 1
                <= nodes.len(),
{
    let ghost s = cell_of(start);
    let ghost g = cell_of(goal);
    if !map.is_walkable(goal.0, goal.1) {
        return None;
    }
    let (mut heap, mut costs, mut came) = initial_search(map, occupied, start, goal);
    let ghost mut expanded: Seq<bool> = Seq::new(MAP_CELLS as nat, |i: int| false);
    while heap.len() > 0
        invariant
            map.wf(),
            occupied matches Some(o) ==> o.wf(),
            map.walkable_at(g.0, g.1),
            s == cell_of(start),
            g == cell_of(goal),
            search_inv(*map, occupied, s, g, heap@, costs@, came@, expanded, (-1, -1)),
        decreases cost_sum(costs@), heap@.len(),
    {
        let ghost h0 = heap@;
        let ghost c0 = costs@;
        let (k, node) = take_best(&mut heap);
        proof {
            lemma_after_pop(*map, occupied, s, g, h0, c0, came@, expanded, k as int);
            assert(on_map(node.x as int, node.y as int));
        }
        if node.x == goal.0 && node.y == goal.1 {
            proof {
                assert(node.heuristic == 0);
                assert forall|nodes: Seq<(int, int)>|
                    #[trigger] is_route_nodes(*map, occupied, s, g, nodes) implies node.cost + 1 <= nodes.len() by {
                    let short = lemma_short_route(*map, occupied, s, g, nodes);
                    lemma_frontier(*map, occupied, s, g, h0, c0, came@, expanded, short, 0);
                    let j = choose|j: int| 0 <= j < h0.len() && f_of(#[trigger] h0[j]) <= short.len() - 1;
                    assert(f_of(node) <= f_of(h0[j]));
                }
            }
            let path = trace_path(map, occupied, &came, goal, Ghost(s), Ghost(costs@));
            return Some(path);
        }
        let ci = node.y * MAP_WIDTH + node.x;
        let fresh = node.cost == costs[ci];
        let ghost c = node_cell(node);
        let ghost skip: (int, int) = if fresh { c } else { (-1, -1) };
        let next_cost = node.cost + 1;
        let mut j: usize = 0;
        while j < 8
            invariant
                j <= 8,
                map.wf(),
                occupied matches Some(o) ==> o.wf(),
                s == cell_of(start),
                g == cell_of(goal),
                search_inv(*map, occupied, s, g, heap@, costs@, came@, expanded, skip),
                on_map(c.0, c.1),
                c == node_cell(node),
                c != g,
                ci == cell_index(c.0, c.1),
                skip == if fresh { c } else { (-1, -1) },
                cost_at(costs@, c) <= node.cost,
                fresh ==> cost_at(costs@, c) == node.cost,
                node.cost < u32::MAX,
                next_cost == node.cost + 1,
                forall|t: int|
                    0 <= t < j ==> {
                        let d = (c.0 + #[trigger] dir_of(t).0, c.1 + dir_of(t).1);
                        passable(*map, occupied, g, d) ==> cost_at(costs@, d) <= next_cost
                    },
                (costs@ == c0 && heap@.len() == h0.len() - 1) || cost_sum(costs@) < cost_sum(c0),
            decreases 8 - j,
        {
            let d = dir_offset(j);
            match step_on_map(node.x, node.y, d) {
                Some(n) => {
                    let nx = n.0;
                    let ny = n.1;
                    if map.is_walkable(nx, ny) {
                        let free = match occupied {
                            None => true,
                            Some(o) => (nx == goal.0 && ny == goal.1) || !o.is_occupied(nx, ny),
                        };
                        if free {
                            let ni = ny * MAP_WIDTH + nx;
                            if next_cost < costs[ni] {
                                let h = estimate(nx, ny, goal);
                                proof {
                                    lemma_relax(
                                        *map,
                                        occupied,
                                        s,
                                        g,
                                        heap@,
                                        costs@,
                                        came@,
                                        expanded,
                                        skip,
                                        (node.x, node.y),
                                        n,
                                        next_cost,
                                    );
                                    lemma_cost_sum_lower(costs@, ni as int, next_cost);
                                    assert forall|q: (int, int)| on_map(q.0, q.1) && q != cell_of(n) implies #[trigger] cost_at(
                                        costs@.update(ni as int, next_cost),
                                        q,
                                    ) == cost_at(costs@, q) by {
                                        lemma_cell_index(q.0, q.1, nx as int, ny as int);
                                    }
                                }
                                costs.set(ni, next_cost);
                                came.set(ni, Some((node.x, node.y)));
                                heap.push(AStarNode { cost: next_cost, heuristic: h, x: nx, y: ny });
                                proof {
                                    expanded = expanded.update(ni as int, false);
                                }
                            }
                        }
                    }
                },
                None => {},
            }
            j = j + 1;
        }
        if fresh {
            proof {
                assert forall|d: (int, int)| step8(c, d) && passable(*map, occupied, g, d) implies #[trigger] cost_at(
                    costs@,
                    d,
                ) <= cost_at(costs@, c) + 1 by {
                    let t = lemma_step8_dir(c, d);
                    assert(dir_of(t) == dir_of(t));
                }
                lemma_finish_expand(*map, occupied, s, g, heap@, costs@, came@, expanded, c);
                expanded = expanded.update(ci as int, true);
            }
        }
    }
    proof {
        if route_exists(*map, occupied, s, g) {
            let nodes = choose|nodes: Seq<(int, int)>| #[trigger] is_route_nodes(*map, occupied, s, g, nodes);
            let short = lemma_short_route(*map, occupied, s, g, nodes);
            lemma_frontier(*map, occupied, s, g, heap@, costs@, came@, expanded, short, 0);
        }
    }
    None
}

} // verus!
