use vstd::prelude::*;
use crate::room::abs_int;

verus! {

/// A Bresenham walk in progress: the position, the error term, and what stays fixed
/// (the target, the distances `dx >= 0` and `dy <= 0`, and the step signs).
#[derive(Clone, Copy)]
pub struct LineWalk {
    pub x: int,
    pub y: int,
    pub err: int,
    pub dx: int,
    pub dy: int,
    pub sx: int,
    pub sy: int,
    pub tx: int,
    pub ty: int,
}

/// One step of Bresenham's walk: along x when twice the error reaches `dy`, along y
/// when it stays within `dx` (both for a diagonal step).
pub open spec fn line_step(w: LineWalk) -> LineWalk {
    let e2 = 2 * w.err;
    let (err1, x1) = if e2 >= w.dy { (w.err + w.dy, w.x + w.sx) } else { (w.err, w.x) };
    let (err2, y1) = if e2 <= w.dx { (err1 + w.dx, w.y + w.sy) } else { (err1, w.y) };
    LineWalk { x: x1, y: y1, err: err2, ..w }
}

/// The cells the walk enters, up to and including its target (at most `fuel + 1`).
pub open spec fn line_cells(w: LineWalk, fuel: nat) -> Seq<(int, int)>
    decreases fuel,
{
    let n = line_step(w);
    if (n.x, n.y) == (n.tx, n.ty) || fuel == 0 {
        seq![(n.x, n.y)]
    } else {
        seq![(n.x, n.y)] + line_cells(n, (fuel - 1) as nat)
    }
}

/// The walk from `(x0, y0)` towards `(x1, y1)` before its first step.
pub open spec fn line_start(x0: int, y0: int, x1: int, y1: int) -> LineWalk {
    let dx = abs_int(x1 - x0);
    let dy = -abs_int(y1 - y0);
    LineWalk {
        x: x0,
        y: y0,
        err: dx + dy,
        dx,
        dy,
        sx: if x0 < x1 { 1 } else { -1 },
        sy: if y0 < y1 { 1 } else { -1 },
        tx: x1,
        ty: y1,
    }
}

/// What Bresenham's walk keeps: the steps taken along each axis (`u`, `v`) stay within
/// the distances, the position is the start moved by them, and the error term is
/// `dx + dy + u * dy + v * dx`.
pub open spec fn walk_inv(w: LineWalk, x0: int, y0: int) -> bool {
    let u = abs_int(w.x - x0);
    let v = abs_int(w.y - y0);
    &&& w.dx == abs_int(w.tx - x0)
    &&& w.dy == -abs_int(w.ty - y0)
    &&& w.sx == if x0 < w.tx { 1int } else { -1int }
    &&& w.sy == if y0 < w.ty { 1int } else { -1int }
    &&& 0 <= u <= w.dx
    &&& 0 <= v <= -w.dy
    &&& w.x == if w.sx == 1 { x0 + u } else { x0 - u }
    &&& w.y == if w.sy == 1 { y0 + v } else { y0 - v }
    &&& w.err == w.dx + w.dy + u * w.dy + v * w.dx
    &&& !(u == w.dx && v == -w.dy)
}

/// A step keeps the walk inside the box of the line and makes progress; it reaches
/// the target or keeps the invariant.
pub proof fn lemma_line_step(w: LineWalk, x0: int, y0: int)
    requires
        walk_inv(w, x0, y0),
    ensures
        ({
            let n = line_step(w);
            let u = abs_int(w.x - x0);
            let v = abs_int(w.y - y0);
            let u2 = abs_int(n.x - x0);
            let v2 = abs_int(n.y - y0);
            &&& u <= u2 <= u + 1 && v <= v2 <= v + 1 && u2 + v2 > u + v
            &&& u2 <= w.dx && v2 <= -w.dy
            &&& n.x == (if w.sx == 1 { x0 + u2 } else { x0 - u2 })
            &&& n.y == (if w.sy == 1 { y0 + v2 } else { y0 - v2 })
            &&& ((n.x, n.y) == (n.tx, n.ty) || walk_inv(n, x0, y0))
            &&& n.dx == w.dx && n.dy == w.dy && n.sx == w.sx && n.sy == w.sy && n.tx == w.tx && n.ty == w.ty
        }),
{
    let u = abs_int(w.x - x0);
    let v = abs_int(w.y - y0);
    let dxx = w.dx;
    let dyy = -w.dy;
    let e = w.err;
    assert(u * w.dy == -(u * dyy)) by (nonlinear_arith)
        requires dyy == -w.dy;
    assert(e == dxx - dyy - u * dyy + v * dxx);
    // No step along x once x is done, and none along y once y is done.
    if u == dxx {
        assert(v <= dyy - 1);
        assert(e <= -dyy) by (nonlinear_arith)
            requires e == dxx - dyy - u * dyy + v * dxx, u == dxx, v <= dyy - 1, dxx >= 0, dyy >= 0;
        assert(2 * e < w.dy);
    }
    if v == dyy {
        assert(u <= dxx - 1);
        assert(e >= dxx) by (nonlinear_arith)
            requires e == dxx - dyy - u * dyy + v * dxx, v == dyy, u <= dxx - 1, dxx >= 0, dyy >= 0;
        assert(2 * e > w.dx);
    }
    assert(u * w.dy + w.dy == (u + 1) * w.dy) by (nonlinear_arith);
    assert(v * w.dx + w.dx == (v + 1) * w.dx) by (nonlinear_arith);
    let n = line_step(w);
    if w.sx == 1 {
        assert(w.x == x0 + u);
    } else {
        assert(w.x == x0 - u);
    }
    if w.sy == 1 {
        assert(w.y == y0 + v);
    } else {
        assert(w.y == y0 - v);
    }
    let u2 = abs_int(n.x - x0);
    let v2 = abs_int(n.y - y0);
    if 2 * e >= w.dy {
        assert(u2 == u + 1);
    } else {
        assert(u2 == u);
    }
    if 2 * e <= w.dx {
        assert(v2 == v + 1);
    } else {
        assert(v2 == v);
    }
    if u2 == dxx && v2 == dyy {
        if w.sx == 1 {
            assert(n.x == w.tx);
        } else {
            assert(n.x == w.tx);
        }
        if w.sy == 1 {
            assert(n.y == w.ty);
        } else {
            assert(n.y == w.ty);
        }
    }
}

/// A walk between two different cells starts with the invariant and balanced.
proof fn lemma_start_walks(x0: int, y0: int, x1: int, y1: int)
    requires
        x0 != x1 || y0 != y1,
    ensures
        walk_inv(line_start(x0, y0, x1, y1), x0, y0),
        balanced(line_start(x0, y0, x1, y1), x0, y0),
{
    let w = line_start(x0, y0, x1, y1);
    assert(abs_int(w.x - x0) == 0 && abs_int(w.y - y0) == 0);
    assert(0 * w.dy == 0 && 0 * w.dx == 0);
}

/// The cells of the straight line from `(x0, y0)` to `(x1, y1)` by Bresenham's walk,
/// without the start: as many cells as the longer of the two distances, each one of
/// the eight around the one before (the first around the start), the last the target
/// (see also [`lemma_line_steps`]); no cell when the two ends are the same.
pub fn line_bresenham(x0: usize, y0: usize, x1: usize, y1: usize) -> (points: Vec<(usize, usize)>)
    requires
        x0 <= isize::MAX && y0 <= isize::MAX && x1 <= isize::MAX && y1 <= isize::MAX,
    ensures
        x0 == x1 && y0 == y1 ==> points@.len() == 0,
        x0 != x1 || y0 != y1 ==> points@.len() >= 1 && points@.last() == (x1, y1),
        x0 != x1 || y0 != y1 ==> forall|i: int|
            0 <= i < points@.len() ==> (#[trigger] points@[i]) == {
                let c = line_cells(
                    line_start(x0 as int, y0 as int, x1 as int, y1 as int),
                    (abs_int(x1 - x0) + abs_int(y1 - y0)) as nat,
                );
                (c[i].0 as usize, c[i].1 as usize)
            },
        x0 != x1 || y0 != y1 ==> points@.len() == line_cells(
            line_start(x0 as int, y0 as int, x1 as int, y1 as int),
            (abs_int(x1 - x0) + abs_int(y1 - y0)) as nat,
        ).len(),
        x0 != x1 || y0 != y1 ==> points@.len() == if abs_int(x1 - x0) >= abs_int(y1 - y0) {
            abs_int(x1 - x0)
        } else {
            abs_int(y1 - y0)
        },
        x0 != x1 || y0 != y1 ==> king_step((x0 as int, y0 as int), (points@[0].0 as int, points@[0].1 as int)),
        forall|i: int|
            0 <= i < points@.len() - 1 ==> king_step(
                ((#[trigger] points@[i]).0 as int, points@[i].1 as int),
                (points@[i + 1].0 as int, points@[i + 1].1 as int),
            ),
{
    if x0 == x1 && y0 == y1 {
        return Vec::new();
    }
    assert(x0 != x1 || y0 != y1);
    let ghost w0 = line_start(x0 as int, y0 as int, x1 as int, y1 as int);
    let ghost fuel0: nat = (abs_int(x1 - x0) + abs_int(y1 - y0)) as nat;
    let ghost all = line_cells(w0, fuel0);
    let tx: i64 = x1 as i64;
    let ty: i64 = y1 as i64;
    let dx: i64 = if x1 >= x0 { (x1 - x0) as i64 } else { (x0 - x1) as i64 };
    let dy: i64 = if y1 >= y0 { -((y1 - y0) as i64) } else { -((y0 - y1) as i64) };
    let sx: i64 = if x0 < x1 { 1 } else { -1 };
    let sy: i64 = if y0 < y1 { 1 } else { -1 };
    let mut err: i128 = (dx + dy) as i128;
    let mut x: i64 = x0 as i64;
    let mut y: i64 = y0 as i64;
    let mut points: Vec<(usize, usize)> = Vec::new();
    let ghost mut w = w0;
    let ghost mut fuel: nat = fuel0;
    proof {
        lemma_start_walks(x0 as int, y0 as int, x1 as int, y1 as int);
    }
    loop
        invariant_except_break
            walk_inv(w, x0 as int, y0 as int),
            balanced(w, x0 as int, y0 as int),
            w.x == x && w.y == y && w.err == err && w.dx == dx && w.dy == dy && w.sx == sx && w.sy == sy,
            w.tx == tx && w.ty == ty,
            tx == x1 && ty == y1,
            x0 <= isize::MAX && y0 <= isize::MAX && x1 <= isize::MAX && y1 <= isize::MAX,
            fuel >= (w.dx - abs_int(w.x - x0)) + (-w.dy - abs_int(w.y - y0)),
            fuel0 == abs_int(x1 - x0) + abs_int(y1 - y0),
            all == line_cells(w0, fuel0),
            forall|i: int| 0 <= i < points@.len() ==> (#[trigger] points@[i]) == (all[i].0 as usize, all[i].1 as usize),
            points@.len() + line_cells(w, fuel).len() == all.len(),
            forall|i: int| 0 <= i < line_cells(w, fuel).len() ==> #[trigger] line_cells(w, fuel)[i] == all[points@.len() + i],
        ensures
            points@.len() == all.len(),
            points@.len() >= 1,
            points@.last() == (x1, y1),
            forall|i: int| 0 <= i < points@.len() ==> (#[trigger] points@[i]) == (all[i].0 as usize, all[i].1 as usize),
        decreases fuel,
    {
        proof {
            lemma_line_step(w, x0 as int, y0 as int);
            lemma_step_balanced(w, x0 as int, y0 as int);
            let u = abs_int(w.x - x0);
            let v = abs_int(w.y - y0);
            assert(u * w.dy == -(u * (-w.dy))) by (nonlinear_arith);
            assert(w.err == w.dx + w.dy + (v * w.dx - u * (-w.dy)));
        }
        let e2: i128 = 2 * err;
        if e2 >= dy as i128 {
            err = err + dy as i128;
            x = x + sx;
        }
        if e2 <= dx as i128 {
            err = err + dx as i128;
            y = y + sy;
        }
        let ghost n = line_step(w);
        assert(n.x == x && n.y == y && n.err == err);
        let ghost cells = line_cells(w, fuel);
        assert(cells[0] == (n.x, n.y));
        if x == tx && y == ty {
            points.push((x as usize, y as usize));
            proof {
                assert(cells.len() == 1);
                assert(all[points@.len() - 1] == cells[0]);
            }
            break;
        }
        proof {
            assert(0 <= x <= isize::MAX && 0 <= y <= isize::MAX);
        }
        points.push((x as usize, y as usize));
        proof {
            assert(fuel > 0);
            assert(cells == seq![(n.x, n.y)] + line_cells(n, (fuel - 1) as nat));
            assert forall|i: int| 0 <= i < line_cells(n, (fuel - 1) as nat).len() implies #[trigger] line_cells(
                n,
                (fuel - 1) as nat,
            )[i] == all[points@.len() + i] by {
                assert(line_cells(n, (fuel - 1) as nat)[i] == cells[i + 1]);
            }
            w = n;
            fuel = (fuel - 1) as nat;
        }
    }
    proof {
        lemma_line_steps(x0 as int, y0 as int, x1 as int, y1 as int);
        assert forall|i: int| 0 <= i < all.len() implies (all[i].0 as usize) as int == all[i].0 && (
        all[i].1 as usize) as int == all[i].1 by {
            assert(in_box(all[i], x0 as int, y0 as int, x1 as int, y1 as int));
        }
        assert forall|i: int| 0 <= i < points@.len() - 1 implies king_step(
            ((#[trigger] points@[i]).0 as int, points@[i].1 as int),
            (points@[i + 1].0 as int, points@[i + 1].1 as int),
        ) by {
            assert(king_step(all[i], all[i + 1]));
        }
    }
    points
}

/// Two cells are neighbours among the eight.
pub open spec fn king_step(a: (int, int), b: (int, int)) -> bool {
    abs_int(b.0 - a.0) <= 1 && abs_int(b.1 - a.1) <= 1 && a != b
}

/// Whether `c` lies in the box spanned by `(x0, y0)` and `(x1, y1)`.
pub open spec fn in_box(c: (int, int), x0: int, y0: int, x1: int, y1: int) -> bool {
    &&& (x0 <= c.0 <= x1 || x1 <= c.0 <= x0)
    &&& (y0 <= c.1 <= y1 || y1 <= c.1 <= y0)
}

proof fn lemma_cells_shape(w: LineWalk, x0: int, y0: int, fuel: nat)
    requires
        walk_inv(w, x0, y0),
        fuel >= (w.dx - abs_int(w.x - x0)) + (-w.dy - abs_int(w.y - y0)),
    ensures
        ({
            let c = line_cells(w, fuel);
            &&& c.len() >= 1
            &&& c.last() == (w.tx, w.ty)
            &&& king_step((w.x, w.y), c[0])
            &&& forall|i: int| 0 <= i < c.len() - 1 ==> king_step(#[trigger] c[i], c[i + 1])
            &&& forall|i: int| 0 <= i < c.len() ==> in_box(#[trigger] c[i], x0, y0, w.tx, w.ty)
        }),
    decreases fuel,
{
    lemma_line_step(w, x0, y0);
    let n = line_step(w);
    let c = line_cells(w, fuel);
    if (n.x, n.y) == (n.tx, n.ty) {
    } else {
        assert(fuel > 0);
        lemma_cells_shape(n, x0, y0, (fuel - 1) as nat);
        let r = line_cells(n, (fuel - 1) as nat);
        assert(c == seq![(n.x, n.y)] + r);
        assert forall|i: int| 0 <= i < c.len() - 1 implies king_step(#[trigger] c[i], c[i + 1]) by {
            if i > 0 {
                assert(c[i] == r[i - 1] && c[i + 1] == r[i]);
            }
        }
        assert forall|i: int| 0 <= i < c.len() implies in_box(#[trigger] c[i], x0, y0, w.tx, w.ty) by {
            if i > 0 {
                assert(c[i] == r[i - 1]);
            }
        }
    }
}

/// How far the walk is off the straight line, scaled: `v * dx - u * dy'` with `u`,
/// `v` the steps taken and `dy' = -dy`; Bresenham's walk keeps twice it within the
/// longer of the two distances.
pub open spec fn balanced(w: LineWalk, x0: int, y0: int) -> bool {
    let d = w.dx;
    let e = -w.dy;
    let f = abs_int(w.y - y0) * d - abs_int(w.x - x0) * e;
    if d >= e {
        -d <= 2 * f <= d
    } else {
        -e <= 2 * f <= e
    }
}

/// The steps taken along the longer axis.
pub open spec fn major_steps(w: LineWalk, x0: int, y0: int) -> int {
    if w.dx >= -w.dy {
        abs_int(w.x - x0)
    } else {
        abs_int(w.y - y0)
    }
}

/// The larger of the walk's two distances.
pub open spec fn walk_span(w: LineWalk) -> int {
    if w.dx >= -w.dy {
        w.dx
    } else {
        -w.dy
    }
}

/// Each step moves one cell along the longer axis and keeps the walk balanced; the
/// walk is at its target once it has gone the whole longer distance.
proof fn lemma_step_balanced(w: LineWalk, x0: int, y0: int)
    requires
        walk_inv(w, x0, y0),
        balanced(w, x0, y0),
    ensures
        ({
            let n = line_step(w);
            &&& major_steps(n, x0, y0) == major_steps(w, x0, y0) + 1
            &&& major_steps(n, x0, y0) <= walk_span(w)
            &&& walk_span(n) == walk_span(w)
            &&& ((n.x, n.y) == (n.tx, n.ty) <==> major_steps(n, x0, y0) == walk_span(w))
            &&& ((n.x, n.y) == (n.tx, n.ty) || (walk_inv(n, x0, y0) && balanced(n, x0, y0)))
        }),
{
    lemma_line_step(w, x0, y0);
    let n = line_step(w);
    let d = w.dx;
    let e = -w.dy;
    let u = abs_int(w.x - x0);
    let v = abs_int(w.y - y0);
    let u2 = abs_int(n.x - x0);
    let v2 = abs_int(n.y - y0);
    let f = v * d - u * e;
    let f2 = v2 * d - u2 * e;
    assert(u * w.dy == -(u * e)) by (nonlinear_arith)
        requires e == -w.dy;
    assert(w.err == d - e + f);
    if w.sx == 1 {
        assert(w.x == x0 + u);
    } else {
        assert(w.x == x0 - u);
    }
    if w.sy == 1 {
        assert(w.y == y0 + v);
    } else {
        assert(w.y == y0 - v);
    }
    let xs = 2 * w.err >= w.dy;
    let ys = 2 * w.err <= w.dx;
    if xs {
        assert(u2 == u + 1);
    } else {
        assert(u2 == u);
    }
    if ys {
        assert(v2 == v + 1);
    } else {
        assert(v2 == v);
    }
    assert((u + 1) * e == u * e + e) by (nonlinear_arith);
    assert((v + 1) * d == v * d + d) by (nonlinear_arith);
    assert(f2 == f + (if ys { d } else { 0 }) - (if xs { e } else { 0 }));
    let at = (n.x, n.y) == (n.tx, n.ty);
    assert(at <==> (u2 == d && v2 == e)) by {
        if u2 == d && v2 == e {
            if w.sx == 1 { assert(n.x == n.tx); } else { assert(n.x == n.tx); }
            if w.sy == 1 { assert(n.y == n.ty); } else { assert(n.y == n.ty); }
        }
        if at {
            if w.sx == 1 { assert(u2 == d); } else { assert(u2 == d); }
            if w.sy == 1 { assert(v2 == e); } else { assert(v2 == e); }
        }
    }
    if d >= e {
        assert(d > 0);
        assert(xs);
        if u2 == d {
            assert(v2 == e) by (nonlinear_arith)
                requires f2 == v2 * d - u2 * e, u2 == d, -d <= 2 * f2 <= d, d > 0, 0 <= v2 <= e;
        }
    } else {
        assert(ys);
        if v2 == e {
            assert(u2 == d) by (nonlinear_arith)
                requires f2 == v2 * d - u2 * e, v2 == e, -e <= 2 * f2 <= e, e > 0, 0 <= u2 <= d;
        }
    }
}

/// A balanced walk enters as many cells as it has steps left along the longer axis.
proof fn lemma_cells_len(w: LineWalk, x0: int, y0: int, fuel: nat)
    requires
        walk_inv(w, x0, y0),
        balanced(w, x0, y0),
        fuel + 1 >= walk_span(w) - major_steps(w, x0, y0),
    ensures
        line_cells(w, fuel).len() == walk_span(w) - major_steps(w, x0, y0),
    decreases fuel,
{
    lemma_step_balanced(w, x0, y0);
    let n = line_step(w);
    if (n.x, n.y) == (n.tx, n.ty) {
    } else {
        assert(fuel > 0);
        lemma_cells_len(n, x0, y0, (fuel - 1) as nat);
    }
}

/// The shape of a line: it ends at its target, each cell is one of the eight around
/// the one before (the first around the start), and it stays in the box of its two
/// ends.
pub proof fn lemma_line_steps(x0: int, y0: int, x1: int, y1: int)
    requires
        x0 != x1 || y0 != y1,
    ensures
        ({
            let c = line_cells(line_start(x0, y0, x1, y1), (abs_int(x1 - x0) + abs_int(y1 - y0)) as nat);
            &&& c.len() >= 1
            &&& c.len() == if abs_int(x1 - x0) >= abs_int(y1 - y0) { abs_int(x1 - x0) } else { abs_int(y1 - y0) }
            &&& c.last() == (x1, y1)
            &&& king_step((x0, y0), c[0])
            &&& forall|i: int| 0 <= i < c.len() - 1 ==> king_step(#[trigger] c[i], c[i + 1])
            &&& forall|i: int| 0 <= i < c.len() ==> in_box(#[trigger] c[i], x0, y0, x1, y1)
        }),
{
    let w = line_start(x0, y0, x1, y1);
    lemma_start_walks(x0, y0, x1, y1);
    lemma_cells_shape(w, x0, y0, (abs_int(x1 - x0) + abs_int(y1 - y0)) as nat);
    lemma_cells_len(w, x0, y0, (abs_int(x1 - x0) + abs_int(y1 - y0)) as nat);
}

} // verus!
