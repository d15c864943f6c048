//! The points that circles and rectangles are drawn with.
use vstd::prelude::*;
use crate::lines::{line_points, line_points_of, line_fits, points_view, dist1, in_box, lemma_line_ends, lemma_line_covers_row, lemma_line_covers_column};

verus! {

/// The eight mirror images of (x, y) around (x0, y0), in drawing order.
pub open spec fn eight(x0: int, y0: int, x: int, y: int) -> Seq<(int, int)> {
    seq![
        (x0 - x, y0 + y),
        (x0 + x, y0 + y),
        (x0 - y, y0 + x),
        (x0 + y, y0 + x),
        (x0 - x, y0 - y),
        (x0 + x, y0 - y),
        (x0 - y, y0 - x),
        (x0 + y, y0 - x),
    ]
}

/// One step of the outline walk: y moves up by one, and x moves in by one
/// when the error says the outline has drifted outside.
pub open spec fn ring_next(x: int, y: int, err: int) -> (int, int, int) {
    let y2 = y + 1;
    let e = err + 1 + 2 * y2;
    if 2 * (e - x) + 1 > 0 {
        (x - 1, y2, e + 1 - 2 * (x - 1))
    } else {
        (x, y2, e)
    }
}

/// The points of the outline walk from (x, y) while x >= y.
pub open spec fn ring_walk(x0: int, y0: int, x: int, y: int, err: int, fuel: nat) -> Seq<(int, int)>
    decreases fuel,
{
    if x < y || fuel == 0 {
        Seq::empty()
    } else {
        let n = ring_next(x, y, err);
        eight(x0, y0, x, y) + ring_walk(x0, y0, n.0, n.1, n.2, (fuel - 1) as nat)
    }
}

/// The two horizontal lines `y0 + y` and `y0 - y` from `x0 - x` to
/// `x0 + x` (one line when y is 0).
pub open spec fn line4(x0: int, y0: int, x: int, y: int) -> Seq<(int, int)> {
    line_points(x0 - x, y0 + y, x + x0, y0 + y) + if y != 0 {
        line_points(x0 - x, y0 - y, x + x0, y0 - y)
    } else {
        Seq::empty()
    }
}

/// One step of the filled walk.
pub open spec fn disc_next(x: int, y: int, err: int) -> (int, int, int) {
    let e = err + y + (y + 1);
    if e >= 0 {
        (x - 1, y + 1, e - x - (x - 1))
    } else {
        (x, y + 1, e)
    }
}

/// The points of the filled walk from (x, y) while x >= y: the lines of
/// the current row pair, then, when x moves in, the lines of the mirrored
/// rows.
pub open spec fn disc_walk(x0: int, y0: int, x: int, y: int, err: int, fuel: nat) -> Seq<(int, int)>
    decreases fuel,
{
    if x < y || fuel == 0 {
        Seq::empty()
    } else {
        let n = disc_next(x, y, err);
        let e = err + y + (y + 1);
        line4(x0, y0, x, y) + (if e >= 0 && x != y {
            line4(x0, y0, y, x)
        } else {
            Seq::empty()
        }) + disc_walk(x0, y0, n.0, n.1, n.2, (fuel - 1) as nat)
    }
}

/// The points a circle around (x0, y0) is drawn with: the outline for a
/// positive radius, the filled disc for a negative one, the center alone
/// for radius 0.
pub open spec fn circle_points(x0: int, y0: int, radius: int) -> Seq<(int, int)> {
    if radius > 0 {
        ring_walk(x0, y0, radius, 0, 0, (radius + 1) as nat)
    } else if radius < 0 {
        disc_walk(x0, y0, -radius, 0, radius, (-radius + 1) as nat)
    } else {
        seq![(x0, y0)]
    }
}

/// The circle's coordinates fit the arithmetic of the drawing.
pub open spec fn circle_fits(x0: int, y0: int, radius: int) -> bool {
    let r = if radius < 0 { -radius } else { radius };
    &&& r < 0x2000_0000
    &&& i32::MIN <= x0 - r
    &&& x0 + r <= i32::MAX
    &&& i32::MIN <= y0 - r
    &&& y0 + r <= i32::MAX
}

pub proof fn lemma_sq_bound(a: int, r: int)
    by (nonlinear_arith)
    requires
        0 <= a <= r + 1,
        0 <= r < 0x2000_0000,
    ensures
        0 <= a * a <= 0x4000_0002_0000_0001,
{
    assert(a * a <= (r + 1) * (r + 1));
}

fn push_eight(pts: &mut Vec<(i32, i32)>, x0: i32, y0: i32, x: i32, y: i32)
    requires
        0 <= y <= x,
        i32::MIN <= x0 - x,
        x0 + x <= i32::MAX,
        i32::MIN <= y0 - x,
        y0 + x <= i32::MAX,
    ensures
        points_view(final(pts)@) == points_view(old(pts)@) + eight(x0 as int, y0 as int, x as int, y as int),
{
    pts.push((x0 - x, y0 + y));
    pts.push((x0 + x, y0 + y));
    pts.push((x0 - y, y0 + x));
    pts.push((x0 + y, y0 + x));
    pts.push((x0 - x, y0 - y));
    pts.push((x0 + x, y0 - y));
    pts.push((x0 - y, y0 - x));
    pts.push((x0 + y, y0 - x));
    assert(points_view(pts@) =~= points_view(old(pts)@) + eight(x0 as int, y0 as int, x as int, y as int));
}

fn push_line(pts: &mut Vec<(i32, i32)>, x1: i32, y1: i32, x2: i32, y2: i32)
    requires
        line_fits(x1 as int, y1 as int, x2 as int, y2 as int),
    ensures
        points_view(final(pts)@) == points_view(old(pts)@) + line_points(x1 as int, y1 as int, x2 as int, y2 as int),
{
    let mut l = line_points_of(x1, y1, x2, y2);
    let ghost lv = l@;
    pts.append(&mut l);
    assert(points_view(pts@) =~= points_view(old(pts)@) + points_view(lv));
}

fn push_line4(pts: &mut Vec<(i32, i32)>, x0: i32, y0: i32, x: i32, y: i32)
    requires
        0 <= x < 0x2000_0000,
        0 <= y,
        i32::MIN <= x0 - x,
        x0 + x <= i32::MAX,
        i32::MIN <= y0 - y,
        y0 + y <= i32::MAX,
    ensures
        points_view(final(pts)@) == points_view(old(pts)@) + line4(x0 as int, y0 as int, x as int, y as int),
{
    push_line(pts, x0 - x, y0 + y, x + x0, y0 + y);
    if y != 0 {
        push_line(pts, x0 - x, y0 - y, x + x0, y0 - y);
    }
    assert(points_view(pts@) =~= points_view(old(pts)@) + line4(x0 as int, y0 as int, x as int, y as int));
}

/// Computes the points a circle around (x0, y0) is drawn with.
pub fn circle_points_of(x0: i32, y0: i32, radius: i32) -> (pts: Vec<(i32, i32)>)
    requires
        circle_fits(x0 as int, y0 as int, radius as int),
    ensures
        points_view(pts@) == circle_points(x0 as int, y0 as int, radius as int),
{
    let mut pts: Vec<(i32, i32)> = Vec::new();
    let r: i32 = if radius < 0 { -radius } else { radius };
    let mut x: i32 = r;
    let mut y: i32 = 0;
    let ghost spec = circle_points(x0 as int, y0 as int, radius as int);
    if radius > 0 {
        let mut err: i64 = 0;
        let ghost mut fuel: nat = (r + 1) as nat;
        proof {
            assert(err == x * x + y * y - r * r + 2 * (y + r - x)) by (nonlinear_arith)
                requires
                    x == r,
                    y == 0,
                    err == 0,
            ;
            assert(spec =~= points_view(pts@) + ring_walk(x0 as int, y0 as int, x as int, y as int, err as int, fuel));
        }
        while x >= y
            invariant
                circle_fits(x0 as int, y0 as int, radius as int),
                r == radius,
                r > 0,
                0 <= y <= r + 1,
                -1 <= x <= r,
                y <= x + 2,
                err == x * x + y * y - r * r + 2 * (y + r - x),
                fuel >= x - y + 1,
                spec == circle_points(x0 as int, y0 as int, radius as int),
                spec == points_view(pts@) + ring_walk(x0 as int, y0 as int, x as int, y as int, err as int, fuel),
            decreases x - y + 2,
        {
            proof {
                lemma_sq_bound(x as int, r as int);
                lemma_sq_bound(y as int, r as int);
                lemma_sq_bound(r as int, r as int);
                lemma_sq_bound(y + 1, r as int);
                assert(-0x1000_0000_0000_0000 <= err <= 0x1000_0000_0000_0000) by (nonlinear_arith)
                    requires
                        err == x * x + y * y - r * r + 2 * (y + r - x),
                        0 <= x <= r + 1,
                        0 <= y <= r + 1,
                        0 <= r < 0x2000_0000,
                {
                    lemma_sq_bound(x as int, r as int);
                    lemma_sq_bound(y as int, r as int);
                    lemma_sq_bound(r as int, r as int);
                }
            }
            let ghost (ox, oy, oerr) = (x as int, y as int, err as int);
            let ghost n = ring_next(ox, oy, oerr);
            let ghost before = points_view(pts@);
            push_eight(&mut pts, x0, y0, x, y);
            y += 1;
            err += 1 + 2 * (y as i64);
            if 2 * (err - (x as i64)) + 1 > 0 {
                x -= 1;
                err += 1 - 2 * (x as i64);
            }
            proof {
                assert(n == (x as int, y as int, err as int));
                assert(err == x * x + y * y - r * r + 2 * (y + r - x)) by (nonlinear_arith)
                    requires
                        oerr == ox * ox + oy * oy - r * r + 2 * (oy + r - ox),
                        y == oy + 1,
                        (x == ox && err == oerr + 1 + 2 * y) || (x == ox - 1 && err == oerr + 1 + 2 * y + 1 - 2 * x),
                ;
                assert(ring_walk(x0 as int, y0 as int, ox, oy, oerr, fuel) == eight(x0 as int, y0 as int, ox, oy)
                    + ring_walk(x0 as int, y0 as int, x as int, y as int, err as int, (fuel - 1) as nat));
                assert(spec =~= points_view(pts@) + ring_walk(x0 as int, y0 as int, x as int, y as int, err as int, (fuel - 1) as nat));
                fuel = (fuel - 1) as nat;
            }
        }
        proof {
            assert(spec =~= points_view(pts@));
        }
    } else if radius < 0 {
        let mut err: i64 = radius as i64;
        let ghost mut fuel: nat = (r + 1) as nat;
        proof {
            assert(err == x * x + y * y - r * r - r) by (nonlinear_arith)
                requires
                    x == r,
                    y == 0,
                    err == -r,
            ;
            assert(spec =~= points_view(pts@) + disc_walk(x0 as int, y0 as int, x as int, y as int, err as int, fuel));
        }
        while x >= y
            invariant
                circle_fits(x0 as int, y0 as int, radius as int),
                r == -radius,
                r > 0,
                0 <= y <= r + 1,
                -1 <= x <= r,
                y <= x + 2,
                err == x * x + y * y - r * r - r,
                fuel >= x - y + 1,
                spec == circle_points(x0 as int, y0 as int, radius as int),
                spec == points_view(pts@) + disc_walk(x0 as int, y0 as int, x as int, y as int, err as int, fuel),
            decreases x - y + 2,
        {
            proof {
                lemma_sq_bound(x as int, r as int);
                lemma_sq_bound(y as int, r as int);
                lemma_sq_bound(r as int, r as int);
                lemma_sq_bound(y + 1, r as int);
                assert(-0x1000_0000_0000_0000 <= err <= 0x1000_0000_0000_0000) by (nonlinear_arith)
                    requires
                        err == x * x + y * y - r * r - r,
                        0 <= x <= r + 1,
                        0 <= y <= r + 1,
                        0 <= r < 0x2000_0000,
                {
                    lemma_sq_bound(x as int, r as int);
                    lemma_sq_bound(y as int, r as int);
                    lemma_sq_bound(r as int, r as int);
                }
            }
            let ghost (ox, oy, oerr) = (x as int, y as int, err as int);
            let ghost n = disc_next(ox, oy, oerr);
            let lasty = y;
            err += y as i64;
            y += 1;
            err += y as i64;
            push_line4(&mut pts, x0, y0, x, lasty);
            if err >= 0 {
                if x != lasty {
                    push_line4(&mut pts, x0, y0, lasty, x);
                }
                err -= x as i64;
                x -= 1;
                err -= x as i64;
            }
            proof {
                assert(n == (x as int, y as int, err as int));
                assert(err == x * x + y * y - r * r - r) by (nonlinear_arith)
                    requires
                        oerr == ox * ox + oy * oy - r * r - r,
                        y == oy + 1,
                        (x == ox && err == oerr + oy + y) || (x == ox - 1 && err == oerr + oy + y - ox - x),
                ;
                let e = oerr + oy + (oy + 1);
                assert(disc_walk(x0 as int, y0 as int, ox, oy, oerr, fuel) == line4(x0 as int, y0 as int, ox, oy) + (if e >= 0 && ox != oy {
                    line4(x0 as int, y0 as int, oy, ox)
                } else {
                    Seq::empty()
                }) + disc_walk(x0 as int, y0 as int, x as int, y as int, err as int, (fuel - 1) as nat));
                assert(spec =~= points_view(pts@) + disc_walk(x0 as int, y0 as int, x as int, y as int, err as int, (fuel - 1) as nat));
                fuel = (fuel - 1) as nat;
            }
        }
        proof {
            assert(spec =~= points_view(pts@));
        }
    } else {
        pts.push((x0, y0));
        assert(points_view(pts@) =~= seq![(x0 as int, y0 as int)]);
    }
    pts
}

/// The outline of the rectangle with corner (x, y), `l` wide and `w` high,
/// as four lines: top, left side, bottom, right side.
pub open spec fn rect_points(x: int, y: int, l: int, w: int) -> Seq<(int, int)> {
    line_points(x, y, x + l, y) + line_points(x, y + 1, x, y + w) + line_points(x + 1, y + w, x + l - 1, y + w)
        + line_points(x + l, y + w, x + l, y + 1)
}

/// The rectangle's size and position fit the arithmetic of the drawing.
pub open spec fn rect_fits(x: int, y: int, l: int, w: int) -> bool {
    &&& 0 <= l < 0x2000_0000
    &&& 0 <= w < 0x2000_0000
    &&& x + l <= i32::MAX
    &&& y + w <= i32::MAX
    &&& x < i32::MAX
    &&& y < i32::MAX
    &&& i32::MIN < x + l
}

/// Computes the points of a rectangle outline.
pub fn rect_points_of(x: i32, y: i32, lenght: u32, width: u32) -> (pts: Vec<(i32, i32)>)
    requires
        rect_fits(x as int, y as int, lenght as int, width as int),
    ensures
        points_view(pts@) == rect_points(x as int, y as int, lenght as int, width as int),
{
    let lenght = lenght as i32;
    let width = width as i32;
    let mut pts: Vec<(i32, i32)> = Vec::new();
    push_line(&mut pts, x, y, x + lenght, y);
    push_line(&mut pts, x, y + 1, x, y + width);
    push_line(&mut pts, x + 1, y + width, x + lenght - 1, y + width);
    push_line(&mut pts, x + lenght, y + width, x + lenght, y + 1);
    assert(points_view(pts@) =~= rect_points(x as int, y as int, lenght as int, width as int));
    pts
}

} // verus!

verus! {

/// A rectangle outline is closed: every point of the four sides of the box
/// from (x, y) to (x + l, y + w), corners included, is drawn.
pub proof fn lemma_rect_outline_closed(x: int, y: int, l: int, w: int)
    requires
        0 <= l,
        0 <= w,
    ensures
        forall|j: int| 0 <= j <= w ==> #[trigger] rect_points(x, y, l, w).contains((x, y + j))
            && rect_points(x, y, l, w).contains((x + l, y + j)),
        forall|i: int| 0 <= i <= l ==> #[trigger] rect_points(x, y, l, w).contains((x + i, y))
            && rect_points(x, y, l, w).contains((x + i, y + w)),
{
    let top = line_points(x, y, x + l, y);
    let left = line_points(x, y + 1, x, y + w);
    let bottom = line_points(x + 1, y + w, x + l - 1, y + w);
    let right = line_points(x + l, y + w, x + l, y + 1);
    let all = rect_points(x, y, l, w);
    assert(all == top + left + bottom + right);
    assert forall|p: (int, int)| top.contains(p) implies all.contains(p) by {
        let k = choose|k: int| 0 <= k < top.len() && top[k] == p;
        assert(all[k] == p);
    }
    assert forall|p: (int, int)| left.contains(p) implies all.contains(p) by {
        let k = choose|k: int| 0 <= k < left.len() && left[k] == p;
        assert(all[top.len() + k] == p);
    }
    assert forall|p: (int, int)| bottom.contains(p) implies all.contains(p) by {
        let k = choose|k: int| 0 <= k < bottom.len() && bottom[k] == p;
        assert(all[top.len() + left.len() + k] == p);
    }
    assert forall|p: (int, int)| right.contains(p) implies all.contains(p) by {
        let k = choose|k: int| 0 <= k < right.len() && right[k] == p;
        assert(all[top.len() + left.len() + bottom.len() + k] == p);
    }
    assert forall|j: int| 0 <= j <= w implies #[trigger] all.contains((x, y + j)) && all.contains((x + l, y + j)) by {
        if j == 0 {
            lemma_line_covers_row(x, x + l, y, x);
            lemma_line_covers_row(x, x + l, y, x + l);
        } else {
            lemma_line_covers_column(x, y + 1, y + w, y + j);
            lemma_line_covers_column(x + l, y + w, y + 1, y + j);
        }
    }
    assert forall|i: int| 0 <= i <= l implies #[trigger] all.contains((x + i, y)) && all.contains((x + i, y + w)) by {
        lemma_line_covers_row(x, x + l, y, x + i);
        if w == 0 {
            lemma_line_covers_row(x, x + l, y, x + i);
            assert(y + w == y);
        } else if i == 0 {
            lemma_line_covers_column(x, y + 1, y + w, y + w);
        } else if i == l {
            lemma_line_covers_column(x + l, y + w, y + 1, y + w);
        } else {
            lemma_line_covers_row(x + 1, x + l - 1, y + w, x + i);
        }
    }
}

} // verus!

verus! {

/// (p.0, p.1) lies on one of the four sides of the box from (x, y) to
/// (x + l, y + w).
pub open spec fn on_outline(x: int, y: int, l: int, w: int, p: (int, int)) -> bool {
    ||| (p.0 == x || p.0 == x + l) && y <= p.1 <= y + w
    ||| (p.1 == y || p.1 == y + w) && x <= p.0 <= x + l
}

/// A rectangle outline at least one pixel wide and high draws nothing but
/// its four sides.
pub proof fn lemma_rect_outline_only(x: int, y: int, l: int, w: int)
    requires
        1 <= l,
        1 <= w,
    ensures
        forall|k: int| 0 <= k < rect_points(x, y, l, w).len() ==> on_outline(x, y, l, w, #[trigger] rect_points(x, y, l, w)[k]),
{
    let top = line_points(x, y, x + l, y);
    let left = line_points(x, y + 1, x, y + w);
    let bottom = line_points(x + 1, y + w, x + l - 1, y + w);
    let right = line_points(x + l, y + w, x + l, y + 1);
    let all = rect_points(x, y, l, w);
    lemma_line_ends(x, y, x + l, y);
    lemma_line_ends(x, y + 1, x, y + w);
    lemma_line_ends(x + 1, y + w, x + l - 1, y + w);
    lemma_line_ends(x + l, y + w, x + l, y + 1);
    assert forall|k: int| 0 <= k < all.len() implies on_outline(x, y, l, w, #[trigger] all[k]) by {
        if k < top.len() {
            assert(all[k] == top[k]);
            assert(in_box(x, y, x + l, y, top[k]));
        } else if k < top.len() + left.len() {
            assert(all[k] == left[k - top.len()]);
            assert(in_box(x, y + 1, x, y + w, left[k - top.len()]));
        } else if k < top.len() + left.len() + bottom.len() {
            assert(all[k] == bottom[k - top.len() - left.len()]);
            assert(in_box(x + 1, y + w, x + l - 1, y + w, bottom[k - top.len() - left.len()]));
        } else {
            assert(all[k] == right[k - top.len() - left.len() - bottom.len()]);
            assert(in_box(x + l, y + w, x + l, y + 1, right[k - top.len() - left.len() - bottom.len()]));
        }
    }
}

} // verus!

verus! {

/// The four mirror images of (x0 + i, y0 + k) are all in `s`.
pub open spec fn holds_mirrors(s: Seq<(int, int)>, x0: int, y0: int, i: int, k: int) -> bool {
    &&& s.contains((x0 + i, y0 + k))
    &&& s.contains((x0 - i, y0 + k))
    &&& s.contains((x0 + i, y0 - k))
    &&& s.contains((x0 - i, y0 - k))
}

proof fn lemma_mirrors_concat(s: Seq<(int, int)>, t: Seq<(int, int)>, x0: int, y0: int, i: int, k: int)
    ensures
        holds_mirrors(s, x0, y0, i, k) ==> holds_mirrors(s + t, x0, y0, i, k),
        holds_mirrors(t, x0, y0, i, k) ==> holds_mirrors(s + t, x0, y0, i, k),
{
    assert forall|p: (int, int)| s.contains(p) implies (s + t).contains(p) by {
        let j = choose|j: int| 0 <= j < s.len() && s[j] == p;
        assert((s + t)[j] == p);
    }
    assert forall|p: (int, int)| t.contains(p) implies (s + t).contains(p) by {
        let j = choose|j: int| 0 <= j < t.len() && t[j] == p;
        assert((s + t)[s.len() + j] == p);
    }
}

/// The two rows `y0 + b` and `y0 - b` drawn by `line4` hold every point
/// of the rows up to `a` from the center.
proof fn lemma_line4_mirrors(x0: int, y0: int, a: int, b: int, i: int)
    requires
        0 <= i <= a,
        0 <= b,
    ensures
        holds_mirrors(line4(x0, y0, a, b), x0, y0, i, b),
{
    let l1 = line_points(x0 - a, y0 + b, a + x0, y0 + b);
    let l2 = if b != 0 { line_points(x0 - a, y0 - b, a + x0, y0 - b) } else { Seq::<(int, int)>::empty() };
    lemma_line_covers_row(x0 - a, a + x0, y0 + b, x0 + i);
    lemma_line_covers_row(x0 - a, a + x0, y0 + b, x0 - i);
    if b != 0 {
        lemma_line_covers_row(x0 - a, a + x0, y0 - b, x0 + i);
        lemma_line_covers_row(x0 - a, a + x0, y0 - b, x0 - i);
    }
    assert forall|p: (int, int)| l1.contains(p) implies (l1 + l2).contains(p) by {
        let j = choose|j: int| 0 <= j < l1.len() && l1[j] == p;
        assert((l1 + l2)[j] == p);
    }
    assert forall|p: (int, int)| l2.contains(p) implies (l1 + l2).contains(p) by {
        let j = choose|j: int| 0 <= j < l2.len() && l2[j] == p;
        assert((l1 + l2)[l1.len() + j] == p);
    }
    assert(line4(x0, y0, a, b) == l1 + l2);
}

proof fn lemma_row_within(i: int, k: int, x: int, r: int)
    by (nonlinear_arith)
    requires
        0 <= i,
        0 <= x,
        i * i + k * k <= r * r,
        (x + 1) * (x + 1) + k * k > r * r,
    ensures
        i <= x,
{
    if i >= x + 1 {
        assert(i * i >= (x + 1) * (x + 1));
    }
}

/// The filled walk from a state on track covers the rows `y..=x`: every
/// point of them within distance r of the center, mirrored.
proof fn lemma_disc_walk_covers(x0: int, y0: int, r: int, x: int, y: int, err: int, fuel: nat)
    requires
        r > 0,
        0 <= y,
        x <= r,
        err == x * x + y * y - r * r - r,
        (x + 1) * (x + 1) + y * y > r * r,
        fuel >= x - y + 1,
    ensures
        forall|i: int, k: int|
            y <= k <= x && 0 <= i && i * i + k * k <= r * r
                ==> #[trigger] holds_mirrors(disc_walk(x0, y0, x, y, err, fuel), x0, y0, i, k),
    decreases fuel,
{
    if x >= y {
        let n = disc_next(x, y, err);
        let e = err + y + (y + 1);
        let a = line4(x0, y0, x, y);
        let b = if e >= 0 && x != y { line4(x0, y0, y, x) } else { Seq::<(int, int)>::empty() };
        let rest = disc_walk(x0, y0, n.0, n.1, n.2, (fuel - 1) as nat);
        assert(disc_walk(x0, y0, x, y, err, fuel) == a + b + rest);
        assert(e == x * x + (y + 1) * (y + 1) - r * r - r) by (nonlinear_arith)
            requires
                e == err + y + (y + 1),
                err == x * x + y * y - r * r - r,
        ;
        if e >= 0 {
            assert(n.2 == (x - 1) * (x - 1) + (y + 1) * (y + 1) - r * r - r) by (nonlinear_arith)
                requires
                    n.2 == e - x - (x - 1),
                    e == x * x + (y + 1) * (y + 1) - r * r - r,
            ;
        }
        assert((n.0 + 1) * (n.0 + 1) + (y + 1) * (y + 1) > r * r) by (nonlinear_arith)
            requires
                e == x * x + (y + 1) * (y + 1) - r * r - r,
                (x + 1) * (x + 1) + y * y > r * r,
                (e >= 0 && n.0 == x - 1) || (e < 0 && n.0 == x),
                r > 0,
                y >= 0,
        ;
        lemma_disc_walk_covers(x0, y0, r, n.0, n.1, n.2, (fuel - 1) as nat);
        assert forall|i: int, k: int|
            y <= k <= x && 0 <= i && i * i + k * k <= r * r
                implies #[trigger] holds_mirrors(disc_walk(x0, y0, x, y, err, fuel), x0, y0, i, k) by {
            if k == y {
                lemma_row_within(i, k, x, r);
                lemma_line4_mirrors(x0, y0, x, y, i);
                lemma_mirrors_concat(a, b, x0, y0, i, k);
                lemma_mirrors_concat(a + b, rest, x0, y0, i, k);
            } else if k <= n.0 {
                assert(holds_mirrors(rest, x0, y0, i, k));
                lemma_mirrors_concat(a + b, rest, x0, y0, i, k);
            } else {
                assert(k == x && e >= 0 && x != y);
                lemma_row_within(i, k, y, r);
                lemma_line4_mirrors(x0, y0, y, x, i);
                lemma_mirrors_concat(a, b, x0, y0, i, k);
                lemma_mirrors_concat(a + b, rest, x0, y0, i, k);
            }
        }
    }
}

/// A circle of negative radius is a filled disc: every point within the
/// radius of the center is drawn, the top and bottom rows and the ends of
/// the axes included.
pub proof fn lemma_disc_filled(x0: int, y0: int, radius: int)
    requires
        radius < 0,
    ensures
        forall|px: int, py: int|
            (px - x0) * (px - x0) + (py - y0) * (py - y0) <= radius * radius
                ==> #[trigger] circle_points(x0, y0, radius).contains((px, py)),
{
    let r = -radius;
    assert(r * r == radius * radius) by (nonlinear_arith)
        requires
            r == -radius,
    ;
    assert((r + 1) * (r + 1) > r * r) by (nonlinear_arith)
        requires
            r > 0,
    ;
    lemma_disc_walk_covers(x0, y0, r, r, 0, radius, (r + 1) as nat);
    assert forall|px: int, py: int|
        (px - x0) * (px - x0) + (py - y0) * (py - y0) <= radius * radius
            implies #[trigger] circle_points(x0, y0, radius).contains((px, py)) by {
        let i = if px >= x0 { px - x0 } else { x0 - px };
        let k = if py >= y0 { py - y0 } else { y0 - py };
        assert(i * i == (px - x0) * (px - x0)) by (nonlinear_arith)
            requires
                i == px - x0 || i == x0 - px,
        ;
        assert(k * k == (py - y0) * (py - y0)) by (nonlinear_arith)
            requires
                k == py - y0 || k == y0 - py,
        ;
        assert(k <= r) by (nonlinear_arith)
            requires
                i * i + k * k <= r * r,
                k >= 0,
                r > 0,
        {
            if k > r {
                assert(k * k > r * r);
            }
        }
        assert(holds_mirrors(disc_walk(x0, y0, r, 0, radius, (r + 1) as nat), x0, y0, i, k));
    }
}

} // verus!

verus! {

/// Every point of the two rows drawn by `line4` lies in them, at most `a`
/// from the center.
proof fn lemma_line4_points(x0: int, y0: int, a: int, b: int)
    requires
        0 <= a,
        0 <= b,
    ensures
        forall|k: int| 0 <= k < line4(x0, y0, a, b).len() ==> {
            let p = #[trigger] line4(x0, y0, a, b)[k];
            &&& -a <= p.0 - x0 <= a
            &&& (p.1 - y0 == b || p.1 - y0 == -b)
        },
{
    let l1 = line_points(x0 - a, y0 + b, a + x0, y0 + b);
    let l2 = if b != 0 { line_points(x0 - a, y0 - b, a + x0, y0 - b) } else { Seq::<(int, int)>::empty() };
    lemma_line_ends(x0 - a, y0 + b, a + x0, y0 + b);
    lemma_line_ends(x0 - a, y0 - b, a + x0, y0 - b);
    assert(line4(x0, y0, a, b) == l1 + l2);
    assert forall|k: int| 0 <= k < (l1 + l2).len() implies {
        let p = #[trigger] (l1 + l2)[k];
        &&& -a <= p.0 - x0 <= a
        &&& (p.1 - y0 == b || p.1 - y0 == -b)
    } by {
        if k < l1.len() {
            assert(in_box(x0 - a, y0 + b, a + x0, y0 + b, l1[k]));
        } else {
            assert(in_box(x0 - a, y0 - b, a + x0, y0 - b, l2[k - l1.len()]));
        }
    }
}

proof fn lemma_square_le(i: int, a: int)
    by (nonlinear_arith)
    requires
        -a <= i <= a,
    ensures
        i * i <= a * a,
{
}

/// The filled walk from a state on track draws no point farther from the
/// center than `r * r + r` (squared distance).
proof fn lemma_disc_walk_within(x0: int, y0: int, r: int, x: int, y: int, err: int, fuel: nat)
    requires
        r > 0,
        0 <= y,
        err == x * x + y * y - r * r - r,
        x >= y ==> err <= 0,
    ensures
        forall|k: int| 0 <= k < disc_walk(x0, y0, x, y, err, fuel).len() ==> {
            let p = #[trigger] disc_walk(x0, y0, x, y, err, fuel)[k];
            (p.0 - x0) * (p.0 - x0) + (p.1 - y0) * (p.1 - y0) <= r * r + r
        },
    decreases fuel,
{
    if x >= y && fuel > 0 {
        let n = disc_next(x, y, err);
        let e = err + y + (y + 1);
        let a = line4(x0, y0, x, y);
        let b = if e >= 0 && x != y { line4(x0, y0, y, x) } else { Seq::<(int, int)>::empty() };
        let rest = disc_walk(x0, y0, n.0, n.1, n.2, (fuel - 1) as nat);
        let w = disc_walk(x0, y0, x, y, err, fuel);
        assert(w == a + b + rest);
        assert(e == x * x + (y + 1) * (y + 1) - r * r - r) by (nonlinear_arith)
            requires
                e == err + y + (y + 1),
                err == x * x + y * y - r * r - r,
        ;
        if e >= 0 {
            assert(n.2 == (x - 1) * (x - 1) + (y + 1) * (y + 1) - r * r - r) by (nonlinear_arith)
                requires
                    n.2 == e - x - (x - 1),
                    e == x * x + (y + 1) * (y + 1) - r * r - r,
            ;
            assert(x - 1 >= y + 1 ==> n.2 <= 0) by (nonlinear_arith)
                requires
                    n.2 == e - x - (x - 1),
                    e == err + y + (y + 1),
                    err <= 0,
            ;
        }
        lemma_disc_walk_within(x0, y0, r, n.0, n.1, n.2, (fuel - 1) as nat);
        lemma_line4_points(x0, y0, x, y);
        if e >= 0 && x != y {
            lemma_line4_points(x0, y0, y, x);
        }
        assert forall|k: int| 0 <= k < w.len() implies {
            let p = #[trigger] w[k];
            (p.0 - x0) * (p.0 - x0) + (p.1 - y0) * (p.1 - y0) <= r * r + r
        } by {
            let p = w[k];
            if k < a.len() {
                assert(p == a[k]);
                lemma_square_le(p.0 - x0, x);
                assert((p.1 - y0) * (p.1 - y0) == y * y) by (nonlinear_arith)
                    requires
                        p.1 - y0 == y || p.1 - y0 == -y,
                ;
            } else if k < a.len() + b.len() {
                assert(p == b[k - a.len()]);
                lemma_square_le(p.0 - x0, y);
                assert((p.1 - y0) * (p.1 - y0) == x * x) by (nonlinear_arith)
                    requires
                        p.1 - y0 == x || p.1 - y0 == -x,
                ;
            } else {
                assert(p == rest[k - a.len() - b.len()]);
            }
        }
    }
}

/// A filled disc draws nothing farther from the center than its radius
/// and a half: every drawn point (px, py) has a squared distance of at
/// most `r * r + r` (below `(r + 1/2)^2`).
pub proof fn lemma_disc_within(x0: int, y0: int, radius: int)
    requires
        radius < 0,
    ensures
        forall|k: int| 0 <= k < circle_points(x0, y0, radius).len() ==> {
            let p = #[trigger] circle_points(x0, y0, radius)[k];
            (p.0 - x0) * (p.0 - x0) + (p.1 - y0) * (p.1 - y0) <= radius * radius - radius
        },
{
    let r = -radius;
    assert(r * r == radius * radius) by (nonlinear_arith)
        requires
            r == -radius,
    ;
    lemma_disc_walk_within(x0, y0, r, r, 0, radius, (r + 1) as nat);
}

} // verus!

verus! {

/// A circle outline reaches the radius along both axes: the points
/// (x0 - r, y0), (x0 + r, y0), (x0, y0 - r) and (x0, y0 + r) are drawn;
/// a circle of radius 0 is its center alone.
pub proof fn lemma_ring_axes(x0: int, y0: int, radius: int)
    requires
        radius >= 0,
    ensures
        circle_points(x0, y0, radius).contains((x0 - radius, y0)),
        circle_points(x0, y0, radius).contains((x0 + radius, y0)),
        circle_points(x0, y0, radius).contains((x0, y0 - radius)),
        circle_points(x0, y0, radius).contains((x0, y0 + radius)),
        radius == 0 ==> circle_points(x0, y0, radius) == seq![(x0, y0)],
{
    if radius > 0 {
        let n = ring_next(radius, 0, 0);
        let e = eight(x0, y0, radius, 0);
        let rest = ring_walk(x0, y0, n.0, n.1, n.2, radius as nat);
        let cp = circle_points(x0, y0, radius);
        assert(cp == e + rest);
        assert(cp[0] == (x0 - radius, y0));
        assert(cp[1] == (x0 + radius, y0));
        assert(cp[2] == (x0 - 0, y0 + radius));
        assert(cp[6] == (x0 - 0, y0 - radius));
    } else {
        let cp = circle_points(x0, y0, radius);
        assert(cp[0] == (x0, y0));
    }
}

} // verus!
