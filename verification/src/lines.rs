//! The points of a straight line between two pixels (Bresenham's walk).
use vstd::prelude::*;

verus! {

/// Rust's division by two, rounding toward zero.
pub open spec fn half_toward_zero(v: int) -> int {
    if v >= 0 {
        v / 2
    } else {
        -((-v) / 2)
    }
}

pub open spec fn dist1(a: int, b: int) -> int {
    if a > b {
        a - b
    } else {
        b - a
    }
}

pub open spec fn dir(a: int, b: int) -> int {
    if a < b {
        1
    } else {
        -1
    }
}

/// The error term the walk from (x1, y1) to (x2, y2) starts with.
pub open spec fn start_err(x1: int, y1: int, x2: int, y2: int) -> int {
    let dx = dist1(x1, x2);
    let dy = dist1(y1, y2);
    half_toward_zero(if dx > dy { dx } else { -dy })
}

/// One step of the walk: from position (x, y) with error `err`, move along
/// x when twice the error exceeds `-dx`, along y when it is below `dy`.
pub open spec fn line_next(x: int, y: int, err: int, dx: int, dy: int, sx: int, sy: int) -> (int, int, int) {
    let e2 = 2 * err;
    let x_ = if e2 > -dx { x + sx } else { x };
    let err_ = if e2 > -dx { err - dy } else { err };
    if e2 < dy {
        (x_, y + sy, err_ + dx)
    } else {
        (x_, y, err_)
    }
}

/// The points met by the walk from (x, y) until it reaches (x2, y2), taking
/// at most `fuel` steps.
pub open spec fn line_walk(
    x: int,
    y: int,
    err: int,
    x2: int,
    y2: int,
    dx: int,
    dy: int,
    sx: int,
    sy: int,
    fuel: nat,
) -> Seq<(int, int)>
    decreases fuel,
{
    if (x == x2 && y == y2) || fuel == 0 {
        seq![(x, y)]
    } else {
        let n = line_next(x, y, err, dx, dy, sx, sy);
        seq![(x, y)] + line_walk(n.0, n.1, n.2, x2, y2, dx, dy, sx, sy, (fuel - 1) as nat)
    }
}

/// The points of the line from (x1, y1) to (x2, y2), in drawing order.
pub open spec fn line_points(x1: int, y1: int, x2: int, y2: int) -> Seq<(int, int)> {
    let dx = dist1(x1, x2);
    let dy = dist1(y1, y2);
    line_walk(
        x1,
        y1,
        start_err(x1, y1, x2, y2),
        x2,
        y2,
        dx,
        dy,
        dir(x1, x2),
        dir(y1, y2),
        (dx + dy) as nat,
    )
}

/// The coordinate differences of a line fit the arithmetic of the walk.
pub open spec fn line_fits(x1: int, y1: int, x2: int, y2: int) -> bool {
    dist1(x1, x2) < 0x4000_0000 && dist1(y1, y2) < 0x4000_0000
}

/// How far along the walk (x, y) is, counted in each axis.
pub open spec fn steps_done(a1: int, a: int, s: int) -> int {
    if s == 1 {
        a - a1
    } else {
        a1 - a
    }
}

/// The state reached by the walk: positions between the ends, the error
/// term tied to the steps taken, and the error within one step length.
pub open spec fn walk_ok(x1: int, y1: int, x2: int, y2: int, x: int, y: int, err: int, pi: int, pj: int) -> bool {
    let dx = dist1(x1, x2);
    let dy = dist1(y1, y2);
    let m = if dx > dy { dx } else { dy };
    let i = steps_done(x1, x, dir(x1, x2));
    let j = steps_done(y1, y, dir(y1, y2));
    &&& 0 <= i <= dx
    &&& 0 <= j <= dy
    &&& pi == i * dy
    &&& pj == j * dx
    &&& err == start_err(x1, y1, x2, y2) + pj - pi
    &&& -m <= err <= m
}

proof fn lemma_mul_step(a: int, b: int)
    by (nonlinear_arith)
    ensures
        (a + 1) * b == a * b + b,
{
}

proof fn lemma_mul_le(a: int, b: int, c: int)
    by (nonlinear_arith)
    requires
        a <= b,
        0 <= c,
    ensures
        a * c <= b * c,
{
}

/// A step from a state that is not the end keeps the walk on track and
/// gets strictly closer to the end.
pub proof fn lemma_walk_step(x1: int, y1: int, x2: int, y2: int, x: int, y: int, err: int, pi: int, pj: int)
    requires
        walk_ok(x1, y1, x2, y2, x, y, err, pi, pj),
        !(x == x2 && y == y2),
    ensures
        ({
            let dx = dist1(x1, x2);
            let dy = dist1(y1, y2);
            let n = line_next(x, y, err, dx, dy, dir(x1, x2), dir(y1, y2));
            let i = steps_done(x1, x, dir(x1, x2));
            let j = steps_done(y1, y, dir(y1, y2));
            let ni = steps_done(x1, n.0, dir(x1, x2));
            let nj = steps_done(y1, n.1, dir(y1, y2));
            let npi = if n.0 != x { pi + dy } else { pi };
            let npj = if n.1 != y { pj + dx } else { pj };
            &&& walk_ok(x1, y1, x2, y2, n.0, n.1, n.2, npi, npj)
            &&& ni + nj > i + j
            &&& ni - i <= 1
            &&& nj - j <= 1
        }),
{
    let dx = dist1(x1, x2);
    let dy = dist1(y1, y2);
    let sx = dir(x1, x2);
    let sy = dir(y1, y2);
    let i = steps_done(x1, x, sx);
    let j = steps_done(y1, y, sy);
    let e0 = start_err(x1, y1, x2, y2);
    lemma_mul_step(i, dy);
    lemma_mul_step(j, dx);
    // at the end of an axis the walk does not move along it
    if i == dx {
        assert(j < dy);
        lemma_mul_le(j, dy - 1, dx);
        assert((dy - 1) * dx == dy * dx - dx) by (nonlinear_arith);
        assert(dx * dy == dy * dx) by (nonlinear_arith);
        assert(2 * err <= -dx);
    }
    if j == dy {
        assert(i < dx);
        lemma_mul_le(i, dx - 1, dy);
        assert((dx - 1) * dy == dx * dy - dy) by (nonlinear_arith);
        assert(dx * dy == dy * dx) by (nonlinear_arith);
        assert(2 * err >= dy);
    }
}

/// Following the walk from a state on track with enough fuel ends exactly
/// at the end point, with every step moving to one of the 8 neighbours.
pub proof fn lemma_walk_ends(x1: int, y1: int, x2: int, y2: int, x: int, y: int, err: int, pi: int, pj: int, fuel: nat)
    requires
        walk_ok(x1, y1, x2, y2, x, y, err, pi, pj),
        fuel >= (dist1(x1, x2) - steps_done(x1, x, dir(x1, x2))) + (dist1(y1, y2) - steps_done(y1, y, dir(y1, y2))),
    ensures
        ({
            let w = line_walk(x, y, err, x2, y2, dist1(x1, x2), dist1(y1, y2), dir(x1, x2), dir(y1, y2), fuel);
            &&& w.len() >= 1
            &&& w[0] == (x, y)
            &&& w.last() == (x2, y2)
            &&& forall|k: int| 0 <= k < w.len() - 1 ==> dist1(#[trigger] w[k].0, w[k + 1].0) <= 1
                && dist1(w[k].1, w[k + 1].1) <= 1
            &&& forall|k: int| 0 <= k < w.len() ==> in_box(x1, y1, x2, y2, #[trigger] w[k])
        }),
    decreases fuel,
{
    let dx = dist1(x1, x2);
    let dy = dist1(y1, y2);
    let sx = dir(x1, x2);
    let sy = dir(y1, y2);
    let w = line_walk(x, y, err, x2, y2, dx, dy, sx, sy, fuel);
    if x == x2 && y == y2 {
    } else {
        lemma_walk_step(x1, y1, x2, y2, x, y, err, pi, pj);
        let n = line_next(x, y, err, dx, dy, sx, sy);
        let npi = if n.0 != x { pi + dy } else { pi };
        let npj = if n.1 != y { pj + dx } else { pj };
        assert(fuel > 0);
        lemma_walk_ends(x1, y1, x2, y2, n.0, n.1, n.2, npi, npj, (fuel - 1) as nat);
        let rest = line_walk(n.0, n.1, n.2, x2, y2, dx, dy, sx, sy, (fuel - 1) as nat);
        assert(w == seq![(x, y)] + rest);
        assert forall|k: int| 0 <= k < w.len() - 1 implies dist1(#[trigger] w[k].0, w[k + 1].0) <= 1
            && dist1(w[k].1, w[k + 1].1) <= 1 by {
            if k > 0 {
                assert(w[k] == rest[k - 1]);
                assert(w[k + 1] == rest[k]);
            }
        }
        assert forall|k: int| 0 <= k < w.len() implies in_box(x1, y1, x2, y2, #[trigger] w[k]) by {
            if k > 0 {
                assert(w[k] == rest[k - 1]);
            }
        }
    }
}

/// (p.0, p.1) lies in the rectangle spanned by (x1, y1) and (x2, y2).
pub open spec fn in_box(x1: int, y1: int, x2: int, y2: int, p: (int, int)) -> bool {
    &&& (if x1 <= x2 { x1 <= p.0 <= x2 } else { x2 <= p.0 <= x1 })
    &&& (if y1 <= y2 { y1 <= p.1 <= y2 } else { y2 <= p.1 <= y1 })
}

/// A line starts at its first end point, ends at its second one, each
/// point is one of the 8 neighbours of the point before it, and every point
/// lies in the rectangle spanned by the two end points.
pub proof fn lemma_line_ends(x1: int, y1: int, x2: int, y2: int)
    ensures
        ({
            let p = line_points(x1, y1, x2, y2);
            &&& p.len() >= 1
            &&& p[0] == (x1, y1)
            &&& p.last() == (x2, y2)
            &&& forall|k: int| 0 <= k < p.len() - 1 ==> dist1(#[trigger] p[k].0, p[k + 1].0) <= 1
                && dist1(p[k].1, p[k + 1].1) <= 1
            &&& forall|k: int| 0 <= k < p.len() ==> in_box(x1, y1, x2, y2, #[trigger] p[k])
        }),
{
    let dx = dist1(x1, x2);
    let dy = dist1(y1, y2);
    assert(0 * dy == 0 && 0 * dx == 0) by (nonlinear_arith);
    lemma_walk_ends(x1, y1, x2, y2, x1, y1, start_err(x1, y1, x2, y2), 0, 0, (dx + dy) as nat);
}

/// The view of a list of points as pairs of integers.
pub open spec fn points_view(pts: Seq<(i32, i32)>) -> Seq<(int, int)> {
    Seq::new(pts.len(), |k: int| (pts[k].0 as int, pts[k].1 as int))
}

/// Computes the points of the line from (argx1, argy1) to (argx2, argy2).
pub fn line_points_of(argx1: i32, argy1: i32, argx2: i32, argy2: i32) -> (pts: Vec<(i32, i32)>)
    requires
        line_fits(argx1 as int, argy1 as int, argx2 as int, argy2 as int),
    ensures
        points_view(pts@) == line_points(argx1 as int, argy1 as int, argx2 as int, argy2 as int),
{
    let ghost (x1, y1, x2, y2) = (argx1 as int, argy1 as int, argx2 as int, argy2 as int);
    let ghost spec = line_points(x1, y1, x2, y2);
    let mut x = argx1;
    let mut y = argy1;

    let dx = if argx1 > argx2 { argx1 - argx2 } else { argx2 - argx1 };
    let dy = if argy1 > argy2 { argy1 - argy2 } else { argy2 - argy1 };

    let sx: i32 = if argx1 < argx2 { 1 } else { -1 };
    let sy: i32 = if argy1 < argy2 { 1 } else { -1 };

    let mut err: i32 = (if dx > dy { dx } else { -dy }) / 2;
    let mut err_tolerance: i32;
    let mut pts: Vec<(i32, i32)> = Vec::new();

    let ghost mut pi: int = 0;
    let ghost mut pj: int = 0;
    let ghost mut fuel: nat = (dx + dy) as nat;
    let ghost mut drawn: Seq<(int, int)> = Seq::empty();
    proof {
        assert(0 * (dy as int) == 0 && 0 * (dx as int) == 0) by (nonlinear_arith);
    }
    loop
        invariant_except_break
            line_fits(x1, y1, x2, y2),
            x1 == argx1,
            y1 == argy1,
            x2 == argx2,
            y2 == argy2,
            dx == dist1(x1, x2),
            dy == dist1(y1, y2),
            sx == dir(x1, x2),
            sy == dir(y1, y2),
            spec == line_points(x1, y1, x2, y2),
            walk_ok(x1, y1, x2, y2, x as int, y as int, err as int, pi, pj),
            fuel >= (dx - steps_done(x1, x as int, sx as int)) + (dy - steps_done(y1, y as int, sy as int)),
            spec == drawn + line_walk(x as int, y as int, err as int, x2, y2, dx as int, dy as int, sx as int, sy as int, fuel),
            points_view(pts@) == drawn,
        ensures
            points_view(pts@) == spec,
        decreases fuel,
    {
        let ghost before = pts@;
        pts.push((x, y));
        proof {
            assert(points_view(pts@) =~= drawn.push((x as int, y as int)));
        }
        if x == argx2 && y == argy2 {
            proof {
                assert(spec =~= drawn.push((x as int, y as int)));
            }
            break;
        }
        proof {
            lemma_walk_step(x1, y1, x2, y2, x as int, y as int, err as int, pi, pj);
        }
        let ghost n = line_next(x as int, y as int, err as int, dx as int, dy as int, sx as int, sy as int);
        let ghost w = line_walk(x as int, y as int, err as int, x2, y2, dx as int, dy as int, sx as int, sy as int, fuel);
        let ghost (ox, oy) = (x as int, y as int);
        err_tolerance = 2 * err;

        if err_tolerance > -dx {
            err -= dy;
            x += sx;
        }
        if err_tolerance < dy {
            err += dx;
            y += sy;
        }
        proof {
            assert(n == (x as int, y as int, err as int));
            pi = if x as int != ox { pi + dy } else { pi };
            pj = if y as int != oy { pj + dx } else { pj };
            let rest = line_walk(x as int, y as int, err as int, x2, y2, dx as int, dy as int, sx as int, sy as int, (fuel - 1) as nat);
            assert(w == seq![(ox, oy)] + rest);
            assert(spec =~= drawn.push((ox, oy)) + rest);
            drawn = drawn.push((ox, oy));
            fuel = (fuel - 1) as nat;
        }
    }
    pts
}

} // verus!

verus! {

/// A walk of integers that moves by at most one at each step meets every
/// value between its first and its last one.
proof fn lemma_steps_meet(s: Seq<int>, q: int)
    requires
        s.len() >= 1,
        (s[0] <= q <= s.last()) || (s.last() <= q <= s[0]),
        forall|k: int| 0 <= k < s.len() - 1 ==> dist1(#[trigger] s[k], s[k + 1]) <= 1,
    ensures
        exists|k: int| 0 <= k < s.len() && s[k] == q,
    decreases s.len(),
{
    let n = s.len() - 1;
    if s[n] == q {
        assert(s[n] == q);
    } else {
        assert(n >= 1);
        let t = s.drop_last();
        assert(dist1(s[n - 1], s[n]) <= 1);
        assert(t.last() == s[n - 1]);
        assert forall|k: int| 0 <= k < t.len() - 1 implies dist1(#[trigger] t[k], t[k + 1]) <= 1 by {
            assert(t[k] == s[k] && t[k + 1] == s[k + 1]);
        }
        lemma_steps_meet(t, q);
        let k = choose|k: int| 0 <= k < t.len() && t[k] == q;
        assert(s[k] == q);
    }
}

/// A horizontal line passes through every pixel between its ends.
pub proof fn lemma_line_covers_row(x1: int, x2: int, y: int, q: int)
    requires
        (x1 <= q <= x2) || (x2 <= q <= x1),
    ensures
        line_points(x1, y, x2, y).contains((q, y)),
{
    let p = line_points(x1, y, x2, y);
    lemma_line_ends(x1, y, x2, y);
    let s = Seq::new(p.len(), |k: int| p[k].0);
    assert forall|k: int| 0 <= k < s.len() - 1 implies dist1(#[trigger] s[k], s[k + 1]) <= 1 by {
        assert(dist1(p[k].0, p[k + 1].0) <= 1);
    }
    assert(s.last() == p.last().0);
    lemma_steps_meet(s, q);
    let k = choose|k: int| 0 <= k < s.len() && s[k] == q;
    assert(in_box(x1, y, x2, y, p[k]));
    assert(p[k] == (q, y));
}

/// A vertical line passes through every pixel between its ends.
pub proof fn lemma_line_covers_column(x: int, y1: int, y2: int, q: int)
    requires
        (y1 <= q <= y2) || (y2 <= q <= y1),
    ensures
        line_points(x, y1, x, y2).contains((x, q)),
{
    let p = line_points(x, y1, x, y2);
    lemma_line_ends(x, y1, x, y2);
    let s = Seq::new(p.len(), |k: int| p[k].1);
    assert forall|k: int| 0 <= k < s.len() - 1 implies dist1(#[trigger] s[k], s[k + 1]) <= 1 by {
        assert(dist1(p[k].1, p[k + 1].1) <= 1);
    }
    assert(s.last() == p.last().1);
    lemma_steps_meet(s, q);
    let k = choose|k: int| 0 <= k < s.len() && s[k] == q;
    assert(in_box(x, y1, x, y2, p[k]));
    assert(p[k] == (x, q));
}

} // verus!
