use vstd::prelude::*;
use crate::tile::{MAP_WIDTH, MAP_HEIGHT};
use crate::room::on_map;
use crate::map::{DungeonMap, manhattan, cell_index, MAP_CELLS, lemma_cell_index, corridor_covers};
use crate::tile::Tile;

verus! {

/// Two cells that share a side.
pub open spec fn adjacent4(a: (int, int), b: (int, int)) -> bool {
    manhattan(a, b) == 1
}

/// A walk over walkable cells, each step to a cell sharing a side.
pub open spec fn is_walk(m: DungeonMap, p: Seq<(int, int)>) -> bool {
    &&& p.len() >= 1
    &&& forall|i: int| 0 <= i < p.len() ==> m.walkable_at(#[trigger] p[i].0, p[i].1)
    &&& forall|i: int| 0 <= i < p.len() - 1 ==> adjacent4(#[trigger] p[i], p[i + 1])
}

/// Whether a walk over walkable cells, in steps along the axes, leads from `a` to `b`.
pub open spec fn connected(m: DungeonMap, a: (int, int), b: (int, int)) -> bool {
    exists|p: Seq<(int, int)>| #[trigger] is_walk(m, p) && p[0] == a && p.last() == b
}

/// A walkable cell reaches itself.
pub proof fn lemma_connected_refl(m: DungeonMap, a: (int, int))
    requires
        m.walkable_at(a.0, a.1),
    ensures
        connected(m, a, a),
{
    let p = seq![a];
    assert(is_walk(m, p));
}

/// One more step along a side extends a walk.
pub proof fn lemma_connected_step(m: DungeonMap, a: (int, int), b: (int, int), c: (int, int))
    requires
        connected(m, a, b),
        adjacent4(b, c),
        m.walkable_at(c.0, c.1),
    ensures
        connected(m, a, c),
{
    let p = choose|p: Seq<(int, int)>| #[trigger] is_walk(m, p) && p[0] == a && p.last() == b;
    let q = p.push(c);
    assert forall|i: int| 0 <= i < q.len() - 1 implies adjacent4(#[trigger] q[i], q[i + 1]) by {
        if i < p.len() - 1 {
            assert(q[i] == p[i] && q[i + 1] == p[i + 1]);
        }
    }
    assert forall|i: int| 0 <= i < q.len() implies m.walkable_at(#[trigger] q[i].0, q[i].1) by {
        if i < p.len() {
            assert(q[i] == p[i]);
        }
    }
    assert(is_walk(m, q));
}

/// A walk can be taken backwards.
pub proof fn lemma_connected_sym(m: DungeonMap, a: (int, int), b: (int, int))
    requires
        connected(m, a, b),
    ensures
        connected(m, b, a),
{
    let p = choose|p: Seq<(int, int)>| #[trigger] is_walk(m, p) && p[0] == a && p.last() == b;
    let q = Seq::new(p.len(), |i: int| p[p.len() - 1 - i]);
    assert forall|i: int| 0 <= i < q.len() implies m.walkable_at(#[trigger] q[i].0, q[i].1) by {
        assert(q[i] == p[p.len() - 1 - i]);
    }
    assert forall|i: int| 0 <= i < q.len() - 1 implies adjacent4(#[trigger] q[i], q[i + 1]) by {
        let j = p.len() - 2 - i;
        assert(adjacent4(p[j], p[j + 1]));
    }
    assert(is_walk(m, q));
}

/// Two walks that meet make one.
pub proof fn lemma_connected_trans(m: DungeonMap, a: (int, int), b: (int, int), c: (int, int))
    requires
        connected(m, a, b),
        connected(m, b, c),
    ensures
        connected(m, a, c),
{
    let p = choose|p: Seq<(int, int)>| #[trigger] is_walk(m, p) && p[0] == a && p.last() == b;
    let q = choose|q: Seq<(int, int)>| #[trigger] is_walk(m, q) && q[0] == b && q.last() == c;
    let r = p + q.drop_first();
    assert forall|i: int| 0 <= i < r.len() implies m.walkable_at(#[trigger] r[i].0, r[i].1) by {
        if i < p.len() {
            assert(r[i] == p[i]);
        } else {
            assert(r[i] == q[i - p.len() + 1]);
        }
    }
    assert forall|i: int| 0 <= i < r.len() - 1 implies adjacent4(#[trigger] r[i], r[i + 1]) by {
        if i < p.len() - 1 {
            assert(r[i] == p[i] && r[i + 1] == p[i + 1]);
        } else if i == p.len() - 1 {
            assert(r[i] == b && r[i + 1] == q[1]);
            assert(adjacent4(q[0], q[1]));
        } else {
            let j = i - p.len() + 1;
            assert(r[i] == q[j] && r[i + 1] == q[j + 1]);
        }
    }
    if q.len() == 1 {
        assert(r =~= p);
    } else {
        assert(r.last() == q.last());
    }
    assert(is_walk(m, r));
}

/// Whether the on-map cell is marked in a per-cell flag vector.
pub open spec fn marked(vis: Seq<bool>, c: (int, int)) -> bool {
    on_map(c.0, c.1) && vis[cell_index(c.0, c.1)]
}

/// Marked cells whose walkable side-neighbours are all marked or waiting in `stack`.
pub open spec fn closed_but(m: DungeonMap, vis: Seq<bool>, stack: Seq<(usize, usize)>) -> bool {
    forall|a: (int, int), b: (int, int)|
        #![trigger marked(vis, a), adjacent4(a, b)]
        marked(vis, a) && adjacent4(a, b) && m.walkable_at(b.0, b.1) ==> marked(vis, b)
            || stack.contains((b.0 as usize, b.1 as usize))
}

/// A set of cells closed under walkable steps holds every cell a walk from it reaches.
pub proof fn lemma_closed_reaches(m: DungeonMap, vis: Seq<bool>, a: (int, int), b: (int, int))
    requires
        closed_but(m, vis, Seq::empty()),
        marked(vis, a),
        connected(m, a, b),
    ensures
        marked(vis, b),
{
    let p = choose|p: Seq<(int, int)>| #[trigger] is_walk(m, p) && p[0] == a && p.last() == b;
    lemma_walk_marked(m, vis, p, p.len() - 1);
}

proof fn lemma_walk_marked(m: DungeonMap, vis: Seq<bool>, p: Seq<(int, int)>, i: int)
    requires
        closed_but(m, vis, Seq::empty()),
        is_walk(m, p),
        marked(vis, p[0]),
        0 <= i < p.len(),
    ensures
        marked(vis, p[i]),
    decreases i,
{
    if i > 0 {
        lemma_walk_marked(m, vis, p, i - 1);
        assert(adjacent4(p[i - 1], p[i]));
        assert(m.walkable_at(p[i].0, p[i].1));
        assert(!Seq::<(usize, usize)>::empty().contains((p[i].0 as usize, p[i].1 as usize)));
    }
}

/// A side neighbour of an on-map cell is one of its four side cells.
pub proof fn lemma_side_neighbors(c: (int, int), n: (int, int))
    requires
        adjacent4(c, n),
    ensures
        n == (c.0, c.1 - 1) || n == (c.0, c.1 + 1) || n == (c.0 - 1, c.1) || n == (c.0 + 1, c.1),
{
}

/// Pushing keeps earlier elements where they were.
proof fn lemma_prefix_contains(
    s1: Seq<(usize, usize)>,
    s2: Seq<(usize, usize)>,
    s3: Seq<(usize, usize)>,
    s4: Seq<(usize, usize)>,
    s5: Seq<(usize, usize)>,
)
    requires
        s2 == s1 || (s2.len() == s1.len() + 1 && s2.drop_last() == s1),
        s3 == s2 || (s3.len() == s2.len() + 1 && s3.drop_last() == s2),
        s4 == s3 || (s4.len() == s3.len() + 1 && s4.drop_last() == s3),
        s5 == s4 || (s5.len() == s4.len() + 1 && s5.drop_last() == s4),
    ensures
        forall|k: int| 0 <= k < s1.len() ==> s5[k] == s1[k],
        forall|k: int| 0 <= k < s2.len() ==> s5[k] == s2[k],
        forall|k: int| 0 <= k < s3.len() ==> s5[k] == s3[k],
        forall|k: int| 0 <= k < s4.len() ==> s5[k] == s4[k],
        s1.len() <= s2.len() <= s3.len() <= s4.len() <= s5.len(),
        forall|e: (usize, usize)| s2.contains(e) ==> s5.contains(e),
        forall|e: (usize, usize)| s3.contains(e) ==> s5.contains(e),
        forall|e: (usize, usize)| s4.contains(e) ==> s5.contains(e),
{
    assert forall|e: (usize, usize)| s2.contains(e) implies s5.contains(e) by {
        let k = choose|k: int| 0 <= k < s2.len() && s2[k] == e;
        assert(s5[k] == s2[k]);
    }
    assert forall|e: (usize, usize)| s3.contains(e) implies s5.contains(e) by {
        let k = choose|k: int| 0 <= k < s3.len() && s3[k] == e;
        assert(s5[k] == s3[k]);
    }
    assert forall|e: (usize, usize)| s4.contains(e) implies s5.contains(e) by {
        let k = choose|k: int| 0 <= k < s4.len() && s4[k] == e;
        assert(s5[k] == s4[k]);
    }
}

/// Marking the cell just popped keeps the frontier property, given that its
/// unmarked walkable side neighbours were pushed.
pub proof fn lemma_closed_after_visit(
    m: DungeonMap,
    vis0: Seq<bool>,
    vis: Seq<bool>,
    st0: Seq<(usize, usize)>,
    st: Seq<(usize, usize)>,
    c: (int, int),
)
    requires
        vis0.len() == MAP_CELLS,
        closed_but(m, vis0, st0),
        on_map(c.0, c.1),
        st0.len() > 0,
        st0.last() == (c.0 as usize, c.1 as usize),
        vis == vis0.update(cell_index(c.0, c.1), true),
        st.len() >= st0.len() - 1,
        forall|k: int| 0 <= k < st0.len() - 1 ==> st[k] == st0[k],
        forall|n: (int, int)|
            adjacent4(c, n) && m.walkable_at(n.0, n.1) && !marked(vis, n) ==> st.contains(
                (n.0 as usize, n.1 as usize),
            ),
    ensures
        closed_but(m, vis, st),
{
    assert forall|a: (int, int), b: (int, int)|
        #![trigger marked(vis, a), adjacent4(a, b)]
        marked(vis, a) && adjacent4(a, b) && m.walkable_at(b.0, b.1) implies marked(vis, b)
            || st.contains((b.0 as usize, b.1 as usize)) by {
        if a == c {
        } else {
            lemma_cell_index(a.0, a.1, c.0, c.1);
            assert(marked(vis0, a));
            lemma_cell_index(b.0, b.1, c.0, c.1);
            if marked(vis0, b) {
                assert(marked(vis, b));
            } else {
                assert(st0.contains((b.0 as usize, b.1 as usize)));
                let k = choose|k: int| 0 <= k < st0.len() && st0[k] == (b.0 as usize, b.1 as usize);
                if k == st0.len() - 1 {
                    assert(b == c);
                } else {
                    assert(st[k] == st0[k]);
                }
            }
        }
    }
}

/// Pushes onto `stack` each side neighbour of `(x, y)` that is walkable and not yet
/// marked: above, below, left, right.
#[verifier::spinoff_prover]
#[verifier::rlimit(40)]
pub fn push_open_neighbors(
    map: &DungeonMap,
    visited: &Vec<bool>,
    stack: &mut Vec<(usize, usize)>,
    x: usize,
    y: usize,
)
    requires
        map.wf(),
        visited@.len() == MAP_CELLS,
        on_map(x as int, y as int),
    ensures
        final(stack)@.len() >= old(stack)@.len(),
        forall|k: int| 0 <= k < old(stack)@.len() ==> final(stack)@[k] == old(stack)@[k],
        forall|k: int|
            old(stack)@.len() <= k < final(stack)@.len() ==> {
                let n = (#[trigger] final(stack)@[k].0 as int, final(stack)@[k].1 as int);
                &&& on_map(n.0, n.1)
                &&& map.walkable_at(n.0, n.1)
                &&& adjacent4((x as int, y as int), n)
                &&& !marked(visited@, n)
            },
        forall|n: (int, int)|
            adjacent4((x as int, y as int), n) && map.walkable_at(n.0, n.1) && !marked(visited@, n)
                ==> final(stack)@.contains((n.0 as usize, n.1 as usize)),
{
    let ghost st1 = stack@;
    if y > 0 && !visited[(y - 1) * MAP_WIDTH + x] && map.get(x, y - 1).walkable() {
        stack.push((x, y - 1));
        assert(stack@.drop_last() =~= st1);
        assert(stack@[stack@.len() - 1] == (x, (y - 1) as usize));
    }
    let ghost st2 = stack@;
    if y + 1 < MAP_HEIGHT && !visited[(y + 1) * MAP_WIDTH + x] && map.get(x, y + 1).walkable() {
        stack.push((x, y + 1));
        assert(stack@.drop_last() =~= st2);
        assert(stack@[stack@.len() - 1] == (x, (y + 1) as usize));
    }
    let ghost st3 = stack@;
    if x > 0 && !visited[y * MAP_WIDTH + x - 1] && map.get(x - 1, y).walkable() {
        stack.push((x - 1, y));
        assert(stack@.drop_last() =~= st3);
        assert(stack@[stack@.len() - 1] == ((x - 1) as usize, y));
    }
    let ghost st4 = stack@;
    if x + 1 < MAP_WIDTH && !visited[y * MAP_WIDTH + x + 1] && map.get(x + 1, y).walkable() {
        stack.push((x + 1, y));
        assert(stack@.drop_last() =~= st4);
        assert(stack@[stack@.len() - 1] == ((x + 1) as usize, y));
    }
    proof {
        lemma_prefix_contains(st1, st2, st3, st4, stack@);
        let c = (x as int, y as int);
        assert forall|n: (int, int)|
            adjacent4(c, n) && map.walkable_at(n.0, n.1) && !marked(visited@, n) implies stack@.contains(
                (n.0 as usize, n.1 as usize),
            ) by {
            lemma_side_neighbors(c, n);
            if n == (x as int, y - 1) {
                assert(st2.contains((x, (y - 1) as usize)));
            } else if n == (x as int, y + 1) {
                assert(st3.contains((x, (y + 1) as usize)));
            } else if n == (x - 1, y as int) {
                assert(st4.contains(((x - 1) as usize, y)));
            } else {
                assert(stack@.contains(((x + 1) as usize, y)));
            }
        }
    }
}

/// Number of set flags.
pub open spec fn count_true(s: Seq<bool>) -> nat
    decreases s.len(),
{
    if s.len() == 0 {
        0
    } else {
        count_true(s.drop_last()) + if s.last() { 1nat } else { 0nat }
    }
}

/// No more cells are marked than there are.
pub proof fn lemma_count_true_bound(s: Seq<bool>)
    ensures
        count_true(s) <= s.len(),
    decreases s.len(),
{
    if s.len() > 0 {
        lemma_count_true_bound(s.drop_last());
    }
}

/// Marking an unmarked cell adds one to the count of marked cells.
pub proof fn lemma_count_true_set(s: Seq<bool>, i: int)
    requires
        0 <= i < s.len(),
        !s[i],
    ensures
        count_true(s.update(i, true)) == count_true(s) + 1,
    decreases s.len(),
{
    let t = s.update(i, true);
    if i == s.len() - 1 {
        assert(t.drop_last() =~= s.drop_last());
    } else {
        assert(t.drop_last() =~= s.drop_last().update(i, true));
        lemma_count_true_set(s.drop_last(), i);
    }
}

/// A vector of `MAP_CELLS` cleared flags.
pub fn cleared_flags() -> (v: Vec<bool>)
    ensures
        v@.len() == MAP_CELLS,
        forall|i: int| 0 <= i < MAP_CELLS ==> !v@[i],
        count_true(v@) == 0,
{
    let mut v: Vec<bool> = Vec::new();
    let mut i: usize = 0;
    while i < MAP_CELLS
        invariant
            i <= MAP_CELLS,
            v@.len() == i,
            forall|k: int| 0 <= k < i ==> !v@[k],
            count_true(v@) == 0,
        decreases MAP_CELLS - i,
    {
        let ghost v0 = v@;
        v.push(false);
        assert(v@.drop_last() =~= v0);
        i = i + 1;
    }
    v
}

/// Whether a walk over walkable cells, in steps along the axes, leads from `from`
/// to `to` (both must be walkable).
#[verifier::rlimit(60)]
#[verifier::spinoff_prover]
pub fn has_path_between(map: &DungeonMap, from: (usize, usize), to: (usize, usize)) -> (b: bool)
    requires
        map.wf(),
        on_map(from.0 as int, from.1 as int),
        on_map(to.0 as int, to.1 as int),
    ensures
        b == connected(*map, (from.0 as int, from.1 as int), (to.0 as int, to.1 as int)),
{
    let ghost m = *map;
    let ghost fi = (from.0 as int, from.1 as int);
    let ghost ti = (to.0 as int, to.1 as int);
    if !map.get(from.0, from.1).walkable() || !map.get(to.0, to.1).walkable() {
        proof {
            if connected(m, fi, ti) {
                let p = choose|p: Seq<(int, int)>| #[trigger] is_walk(m, p) && p[0] == fi && p.last() == ti;
                assert(m.walkable_at(p[0].0, p[0].1));
                assert(m.walkable_at(p[p.len() - 1].0, p[p.len() - 1].1));
            }
        }
        return false;
    }
    let mut visited = cleared_flags();
    let mut stack: Vec<(usize, usize)> = Vec::new();
    stack.push(from);
    proof {
        lemma_connected_refl(m, fi);
        assert(stack@[0] == from);
    }
    let ghost mut nvis: nat = 0;
    while stack.len() > 0
        invariant
            m == *map,
            map.wf(),
            visited@.len() == MAP_CELLS,
            nvis == count_true(visited@),
            m.walkable_at(fi.0, fi.1),
            fi == (from.0 as int, from.1 as int),
            ti == (to.0 as int, to.1 as int),
            on_map(ti.0, ti.1),
            forall|k: int|
                0 <= k < stack@.len() ==> on_map(#[trigger] stack@[k].0 as int, stack@[k].1 as int)
                    && connected(m, fi, (stack@[k].0 as int, stack@[k].1 as int)),
            forall|c: (int, int)|
                #[trigger] marked(visited@, c) ==> connected(m, fi, c) && c != ti,
            closed_but(m, visited@, stack@),
            marked(visited@, fi) || stack@.contains(from),
        decreases MAP_CELLS - nvis, stack@.len(),
    {
        proof {
            lemma_count_true_bound(visited@);
        }
        let ghost st0 = stack@;
        let (x, y) = stack.pop().unwrap();
        let ghost c = (x as int, y as int);
        assert(st0[st0.len() - 1] == (x, y));
        assert(stack@ == st0.drop_last());
        if x == to.0 && y == to.1 {
            return true;
        }
        let i = y * MAP_WIDTH + x;
        if visited[i] {
            proof {
                assert forall|a: (int, int), b: (int, int)|
                    #![trigger marked(visited@, a), adjacent4(a, b)]
                    marked(visited@, a) && adjacent4(a, b) && m.walkable_at(b.0, b.1) implies marked(
                        visited@,
                        b,
                    ) || stack@.contains((b.0 as usize, b.1 as usize)) by {
                    if !marked(visited@, b) {
                        let k = choose|k: int| 0 <= k < st0.len() && st0[k] == (b.0 as usize, b.1 as usize);
                        if k == st0.len() - 1 {
                            lemma_cell_index(b.0, b.1, x as int, y as int);
                        } else {
                            assert(stack@[k] == st0[k]);
                        }
                    }
                }
                if !marked(visited@, fi) {
                    let k = choose|k: int| 0 <= k < st0.len() && st0[k] == from;
                    if k == st0.len() - 1 {
                    } else {
                        assert(stack@[k] == st0[k]);
                    }
                }
            }
            continue;
        }
        proof {
            lemma_count_true_set(visited@, i as int);
        }
        let ghost vis0 = visited@;
        visited.set(i, true);
        proof {
            nvis = nvis + 1;
            lemma_count_true_bound(visited@);
            assert(connected(m, fi, c));
            assert forall|d: (int, int)| #[trigger] marked(visited@, d) implies connected(m, fi, d)
                && d != ti by {
                if d != c {
                    lemma_cell_index(d.0, d.1, x as int, y as int);
                    assert(marked(vis0, d));
                }
            }
        }
        let ghost st1 = stack@;
        push_open_neighbors(map, &visited, &mut stack, x, y);
        proof {
            assert forall|k: int|
                0 <= k < stack@.len() implies on_map(#[trigger] stack@[k].0 as int, stack@[k].1 as int)
                    && connected(m, fi, (stack@[k].0 as int, stack@[k].1 as int)) by {
                if k < st1.len() {
                    assert(stack@[k] == st0[k]);
                } else {
                    lemma_connected_step(m, fi, c, (stack@[k].0 as int, stack@[k].1 as int));
                }
            }
            lemma_closed_after_visit(m, vis0, visited@, st0, stack@, c);
            if !marked(visited@, fi) {
                let k = choose|k: int| 0 <= k < st0.len() && st0[k] == from;
                if k == st0.len() - 1 {
                } else {
                    assert(stack@[k] == st0[k]);
                }
            }
        }
    }
    proof {
        assert(stack@ =~= Seq::<(usize, usize)>::empty());
        if connected(m, fi, ti) {
            lemma_closed_reaches(m, visited@, fi, ti);
        }
    }
    false
}

/// Walkable cells all along row `a.1` from column `a.0` to column `x` connect the two ends.
proof fn lemma_row_connects(m: DungeonMap, a: (int, int), x: int)
    requires
        forall|t: int|
            (a.0 <= t <= x || x <= t <= a.0) ==> #[trigger] m.walkable_at(t, a.1),
    ensures
        connected(m, a, (x, a.1)),
    decreases abs_diff_int(x, a.0),
{
    if x == a.0 {
        assert(m.walkable_at(a.0, a.1));
        lemma_connected_refl(m, a);
    } else {
        let prev = if x > a.0 { x - 1 } else { x + 1 };
        lemma_row_connects(m, a, prev);
        assert(m.walkable_at(x, a.1));
        lemma_connected_step(m, a, (prev, a.1), (x, a.1));
    }
}

/// Walkable cells all along column `a.0` from row `a.1` to row `y` connect the two ends.
proof fn lemma_column_connects(m: DungeonMap, a: (int, int), y: int)
    requires
        forall|t: int|
            (a.1 <= t <= y || y <= t <= a.1) ==> #[trigger] m.walkable_at(a.0, t),
    ensures
        connected(m, a, (a.0, y)),
    decreases abs_diff_int(y, a.1),
{
    if y == a.1 {
        assert(m.walkable_at(a.0, a.1));
        lemma_connected_refl(m, a);
    } else {
        let prev = if y > a.1 { y - 1 } else { y + 1 };
        lemma_column_connects(m, a, prev);
        assert(m.walkable_at(a.0, y));
        lemma_connected_step(m, a, (a.0, prev), (a.0, y));
    }
}

/// The distance between two integers.
pub open spec fn abs_diff_int(a: int, b: int) -> nat {
    if a >= b { (a - b) as nat } else { (b - a) as nat }
}

/// A carved corridor joins its ends: when `after` is `before` with the L-shaped
/// corridor from `from` to `to` floored (what `DungeonMap::carve_corridor` gives), a
/// walk along the axes over walkable cells leads from `from` to `to`.
pub proof fn lemma_corridor_connects(before: DungeonMap, after: DungeonMap, from: (usize, usize), to: (usize, usize))
    requires
        on_map(from.0 as int, from.1 as int),
        on_map(to.0 as int, to.1 as int),
        forall|x: int, y: int|
            on_map(x, y) ==> #[trigger] after.tile_at(x, y) == if corridor_covers(from, to, x, y) {
                Tile::Floor
            } else {
                before.tile_at(x, y)
            },
    ensures
        connected(after, (from.0 as int, from.1 as int), (to.0 as int, to.1 as int)),
{
    let a = (from.0 as int, from.1 as int);
    let corner = (to.0 as int, from.1 as int);
    let b = (to.0 as int, to.1 as int);
    assert forall|t: int| (a.0 <= t <= corner.0 || corner.0 <= t <= a.0) implies #[trigger] after.walkable_at(t, a.1) by {
        assert(on_map(t, a.1));
        assert(corridor_covers(from, to, t, a.1));
        assert(after.tile_at(t, a.1) == Tile::Floor);
    }
    lemma_row_connects(after, a, corner.0);
    assert forall|t: int| (corner.1 <= t <= b.1 || b.1 <= t <= corner.1) implies #[trigger] after.walkable_at(corner.0, t) by {
        assert(on_map(corner.0, t));
        assert(corridor_covers(from, to, corner.0, t));
        assert(after.tile_at(corner.0, t) == Tile::Floor);
    }
    lemma_column_connects(after, corner, b.1);
    lemma_connected_trans(after, a, corner, b);
}

} // verus!
