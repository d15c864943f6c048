//! Drawing on a bare picture, without a canvas's mask: lines, outlines and
//! circles, and the helper marks drawn over the window while the user
//! drags (dashed lines, selection marquees and circles that invert the bits
//! of the pixels they cross, so that drawing the same mark a second time
//! takes it away).
use vstd::prelude::*;
use crate::color::{Color, rgba_word, red_of, green_of, blue_of, alpha_of};
use crate::image::{Image, ImageView, lemma_index_bounds, lemma_index_row, filled_view};
use crate::lines::{line_points, line_points_of, line_fits, points_view};
use crate::shapes::{ring_walk, circle_points_of, circle_fits, eight, disc_next, lemma_sq_bound};

verus! {

/// The bits a mark inverts for the color `c`: its red, green and blue, and
/// none of the alpha bits.
pub open spec fn mark_word(c: u32) -> u32 {
    rgba_word(red_of(c), green_of(c), blue_of(c), 0)
}

/// The picture after inverting, point after point, the bits `c` of each
/// pixel in `pts`: the word read at the point, exclusive-or `c`, is drawn
/// there.
pub open spec fn xor_points(img: ImageView, pts: Seq<(int, int)>, c: u32) -> ImageView
    decreases pts.len(),
{
    if pts.len() == 0 {
        img
    } else {
        let v = xor_points(img, pts.drop_last(), c);
        let p = pts.last();
        v.with_pixel(p.0, p.1, v.pixcol_word(p.0, p.1) ^ c)
    }
}

/// The picture after drawing `c` at each point of `pts` in turn.
pub open spec fn draw_points(img: ImageView, pts: Seq<(int, int)>, c: u32) -> ImageView
    decreases pts.len(),
{
    if pts.len() == 0 {
        img
    } else {
        let p = pts.last();
        draw_points(img, pts.drop_last(), c).with_pixel(p.0, p.1, c)
    }
}

/// The points of `pts` whose position is a multiple of `n`: the first one,
/// then every `n`-th one after it.
pub open spec fn every_nth(pts: Seq<(int, int)>, n: int) -> Seq<(int, int)>
    decreases pts.len(),
{
    if pts.len() == 0 {
        Seq::empty()
    } else {
        let rest = every_nth(pts.drop_last(), n);
        if (pts.len() - 1) % n == 0 {
            rest.push(pts.last())
        } else {
            rest
        }
    }
}

/// How far apart the dashes of a dashed line are: a dash, then `style`
/// points left alone (every point for a style of 0 or less).
pub open spec fn dash_period(style: int) -> int {
    if style > 0 {
        style + 1
    } else {
        1
    }
}

/// The picture after a dashed line from (x1, y1) to (x2, y2).
pub open spec fn ant_line_view(img: ImageView, x1: int, y1: int, x2: int, y2: int, c: u32, style: int) -> ImageView {
    xor_points(img, every_nth(line_points(x1, y1, x2, y2), dash_period(style)), mark_word(c))
}

/// The picture after a dashed rectangle with corners (x1, y1) and (x2, y2):
/// top, right, bottom and left side, in that order.
pub open spec fn rect_marquee_view(img: ImageView, x1: int, y1: int, x2: int, y2: int, c: u32, style: int) -> ImageView {
    let a = ant_line_view(img, x1, y1, x2, y1, c, style);
    let b = ant_line_view(a, x2, y1, x2, y2, c, style);
    let d = ant_line_view(b, x2, y2, x1, y2, c, style);
    ant_line_view(d, x1, y2, x1, y1, c, style)
}

/// The points of a circle outline around (x0, y0) with the radius's
/// magnitude, eight mirror images per step.
pub open spec fn marquee_ring(x0: int, y0: int, radius: int) -> Seq<(int, int)> {
    let r = if radius < 0 { -radius } else { radius };
    ring_walk(x0, y0, r, 0, 0, (r + 1) as nat)
}

/// The four sides of the rectangle with corners (x1, y1) and (x2, y2).
pub open spec fn hollow_points(x1: int, y1: int, x2: int, y2: int) -> Seq<(int, int)> {
    line_points(x1, y1, x2, y1) + line_points(x2, y1, x2, y2) + line_points(x2, y2, x1, y2)
        + line_points(x1, y2, x1, y1)
}

proof fn lemma_every_nth_step(pts: Seq<(int, int)>, n: int, k: int)
    requires
        0 <= k < pts.len(),
    ensures
        every_nth(pts.take(k + 1), n) == if k % n == 0 {
            every_nth(pts.take(k), n).push(pts[k])
        } else {
            every_nth(pts.take(k), n)
        },
{
    assert(pts.take(k + 1).drop_last() =~= pts.take(k));
}

proof fn lemma_xor_push(img: ImageView, pts: Seq<(int, int)>, p: (int, int), c: u32)
    ensures
        xor_points(img, pts.push(p), c) == ({
            let v = xor_points(img, pts, c);
            v.with_pixel(p.0, p.1, v.pixcol_word(p.0, p.1) ^ c)
        }),
{
    assert(pts.push(p).drop_last() =~= pts);
}

proof fn lemma_draw_push(img: ImageView, pts: Seq<(int, int)>, p: (int, int), c: u32)
    ensures
        draw_points(img, pts.push(p), c) == draw_points(img, pts, c).with_pixel(p.0, p.1, c),
{
    assert(pts.push(p).drop_last() =~= pts);
}

proof fn lemma_draw_concat(img: ImageView, a: Seq<(int, int)>, b: Seq<(int, int)>, c: u32)
    ensures
        draw_points(img, a + b, c) == draw_points(draw_points(img, a, c), b, c),
    decreases b.len(),
{
    if b.len() == 0 {
        assert(a + b =~= a);
    } else {
        lemma_draw_concat(img, a, b.drop_last(), c);
        assert((a + b).drop_last() =~= a + b.drop_last());
    }
}

/// Every pixel of `v` is fully opaque.
pub open spec fn opaque(v: ImageView) -> bool {
    forall|i: int| 0 <= i < v.pixels.len() ==> alpha_of(#[trigger] v.pixels[i].data) == 255
}

/// One inversion of the bits `m` at `p`.
pub open spec fn toggle(v: ImageView, p: (int, int), m: u32) -> ImageView {
    v.with_pixel(p.0, p.1, v.pixcol_word(p.0, p.1) ^ m)
}

proof fn lemma_xor_alpha(d: u32, m: u32)
    requires
        alpha_of(d) == 255,
        m & 0xFF000000u32 == 0,
    ensures
        alpha_of(d ^ m) == 255,
        ((d ^ m) >> 24u32) & 0xFFu32 == 255,
        (d ^ m) ^ m == d,
{
    assert(alpha_of(d ^ m) == 255) by (bit_vector)
        requires
            ((d & 0xFF000000u32) >> 24u32) as u8 == 255,
            m & 0xFF000000u32 == 0,
    ;
    assert(((d ^ m) >> 24u32) & 0xFFu32 == 255) by (bit_vector)
        requires
            ((d & 0xFF000000u32) >> 24u32) as u8 == 255,
            m & 0xFF000000u32 == 0,
    ;
    assert((d ^ m) ^ m == d) by (bit_vector);
}

/// On an opaque picture a toggle flips the bits `m` of the one pixel at
/// `p`, when `p` is inside, and keeps the picture opaque.
proof fn lemma_toggle(v: ImageView, p: (int, int), m: u32)
    requires
        v.wf(),
        opaque(v),
        m & 0xFF000000u32 == 0,
    ensures
        toggle(v, p, m).wf(),
        opaque(toggle(v, p, m)),
        toggle(v, p, m).width == v.width,
        toggle(v, p, m).height == v.height,
        v.in_bounds(p.0, p.1) ==> 0 <= v.index(p.0, p.1) < v.pixels.len()
            && toggle(v, p, m).pixels == v.pixels.update(
            v.index(p.0, p.1),
            Color { data: v.pixels[v.index(p.0, p.1)].data ^ m },
        ),
        !v.in_bounds(p.0, p.1) ==> toggle(v, p, m) == v,
{
    if v.in_bounds(p.0, p.1) {
        lemma_index_bounds(v.width as int, v.height as int, p.0, p.1);
        let i = v.index(p.0, p.1);
        let d = v.pixels[i].data;
        lemma_xor_alpha(d, m);
        let t = toggle(v, p, m);
        assert forall|j: int| 0 <= j < t.pixels.len() implies alpha_of(#[trigger] t.pixels[j].data) == 255 by {
            if j != i {
                assert(t.pixels[j] == v.pixels[j]);
            }
        }
    }
}

proof fn lemma_toggle_twice(v: ImageView, p: (int, int), m: u32)
    requires
        v.wf(),
        opaque(v),
        m & 0xFF000000u32 == 0,
    ensures
        toggle(toggle(v, p, m), p, m) == v,
{
    lemma_toggle(v, p, m);
    let t = toggle(v, p, m);
    lemma_toggle(t, p, m);
    if v.in_bounds(p.0, p.1) {
        let i = v.index(p.0, p.1);
        lemma_xor_alpha(v.pixels[i].data, m);
        assert(toggle(t, p, m).pixels =~= v.pixels);
    }
}

proof fn lemma_toggle_commute(v: ImageView, p: (int, int), q: (int, int), m: u32)
    requires
        v.wf(),
        opaque(v),
        m & 0xFF000000u32 == 0,
    ensures
        toggle(toggle(v, p, m), q, m) == toggle(toggle(v, q, m), p, m),
{
    lemma_toggle(v, p, m);
    lemma_toggle(v, q, m);
    lemma_toggle(toggle(v, p, m), q, m);
    lemma_toggle(toggle(v, q, m), p, m);
    if v.in_bounds(p.0, p.1) && v.in_bounds(q.0, q.1) {
        let i = v.index(p.0, p.1);
        let j = v.index(q.0, q.1);
        if i == j {
            lemma_index_row(v.width as int, p.0, p.1, q.0, q.1);
        } else {
            assert(toggle(toggle(v, p, m), q, m).pixels =~= toggle(toggle(v, q, m), p, m).pixels);
        }
    }
}

proof fn lemma_xor_opaque(v: ImageView, a: Seq<(int, int)>, m: u32)
    requires
        v.wf(),
        opaque(v),
        m & 0xFF000000u32 == 0,
    ensures
        xor_points(v, a, m).wf(),
        opaque(xor_points(v, a, m)),
        xor_points(v, a, m).width == v.width,
        xor_points(v, a, m).height == v.height,
    decreases a.len(),
{
    if a.len() > 0 {
        lemma_xor_opaque(v, a.drop_last(), m);
        lemma_toggle(xor_points(v, a.drop_last(), m), a.last(), m);
    }
}

/// A toggle done first can be done last instead.
proof fn lemma_xor_toggle(v: ImageView, a: Seq<(int, int)>, p: (int, int), m: u32)
    requires
        v.wf(),
        opaque(v),
        m & 0xFF000000u32 == 0,
    ensures
        xor_points(toggle(v, p, m), a, m) == toggle(xor_points(v, a, m), p, m),
    decreases a.len(),
{
    if a.len() > 0 {
        lemma_toggle(v, p, m);
        lemma_xor_toggle(v, a.drop_last(), p, m);
        lemma_xor_opaque(v, a.drop_last(), m);
        lemma_toggle_commute(xor_points(v, a.drop_last(), m), p, a.last(), m);
    }
}

/// Inverting the same points twice, with bits outside the alpha byte, gives
/// an opaque picture back unchanged.
pub proof fn lemma_xor_twice(v: ImageView, a: Seq<(int, int)>, m: u32)
    requires
        v.wf(),
        opaque(v),
        m & 0xFF000000u32 == 0,
    ensures
        xor_points(xor_points(v, a, m), a, m) == v,
    decreases a.len(),
{
    if a.len() > 0 {
        let a2 = a.drop_last();
        let p = a.last();
        let w = xor_points(v, a2, m);
        lemma_xor_opaque(v, a2, m);
        // xor(v, a) = toggle(w, p); the second pass moves that toggle to the end
        lemma_xor_toggle(w, a2, p, m);
        lemma_xor_twice(v, a2, m);
        lemma_toggle_twice(xor_points(w, a2, m), p, m);
        lemma_xor_opaque(w, a2, m);
    }
}

/// The bits of a mark leave the alpha byte alone.
proof fn lemma_mark_word(c: u32)
    ensures
        mark_word(c) & 0xFF000000u32 == 0,
{
    let r = red_of(c);
    let g = green_of(c);
    let b = blue_of(c);
    assert((((0u8 as u32) << 24u32) | ((r as u32) << 16u32) | ((g as u32) << 8u32) | (b as u32)) & 0xFF000000u32 == 0) by (bit_vector);
}

/// Drawing the same dashed line a second time gives an opaque picture back
/// unchanged: this is how a line dragged by the mouse is taken away.
pub proof fn lemma_ant_line_twice(img: ImageView, x1: int, y1: int, x2: int, y2: int, c: u32, style: int)
    requires
        img.wf(),
        opaque(img),
    ensures
        ant_line_view(ant_line_view(img, x1, y1, x2, y2, c, style), x1, y1, x2, y2, c, style) == img,
{
    lemma_mark_word(c);
    lemma_xor_twice(img, every_nth(line_points(x1, y1, x2, y2), dash_period(style)), mark_word(c));
}

proof fn lemma_xor_concat(v: ImageView, a: Seq<(int, int)>, b: Seq<(int, int)>, m: u32)
    ensures
        xor_points(v, a + b, m) == xor_points(xor_points(v, a, m), b, m),
    decreases b.len(),
{
    if b.len() == 0 {
        assert(a + b =~= a);
    } else {
        lemma_xor_concat(v, a, b.drop_last(), m);
        assert((a + b).drop_last() =~= a + b.drop_last());
    }
}

/// Drawing the same selection marquee a second time gives an opaque picture
/// back unchanged.
pub proof fn lemma_rect_marquee_twice(img: ImageView, x1: int, y1: int, x2: int, y2: int, c: u32, style: int)
    requires
        img.wf(),
        opaque(img),
    ensures
        rect_marquee_view(rect_marquee_view(img, x1, y1, x2, y2, c, style), x1, y1, x2, y2, c, style) == img,
{
    let n = dash_period(style);
    let m = mark_word(c);
    let a = every_nth(line_points(x1, y1, x2, y1), n);
    let b = every_nth(line_points(x2, y1, x2, y2), n);
    let d = every_nth(line_points(x2, y2, x1, y2), n);
    let e = every_nth(line_points(x1, y2, x1, y1), n);
    let all = a + b + d + e;
    assert forall|v: ImageView| rect_marquee_view(v, x1, y1, x2, y2, c, style) == xor_points(v, all, m) by {
        lemma_xor_concat(v, a, b, m);
        lemma_xor_concat(v, a + b, d, m);
        lemma_xor_concat(v, a + b + d, e, m);
    }
    lemma_mark_word(c);
    lemma_xor_twice(img, all, m);
}

/// Drawing the same circle marquee a second time, with a color whose alpha
/// byte is 0, gives an opaque picture back unchanged.
pub proof fn lemma_circle_marquee_twice(img: ImageView, x0: int, y0: int, radius: int, c: u32)
    requires
        img.wf(),
        opaque(img),
        alpha_of(c) == 0,
    ensures
        xor_points(xor_points(img, marquee_ring(x0, y0, radius), c), marquee_ring(x0, y0, radius), c) == img,
{
    assert(c & 0xFF000000u32 == 0) by (bit_vector)
        requires
            ((c & 0xFF000000u32) >> 24u32) as u8 == 0,
    ;
    lemma_xor_twice(img, marquee_ring(x0, y0, radius), c);
}

/// A row to fill: its left end, its row and its width.
pub type Span = (int, int, int);

/// The rows `y0 + y` and `y0 - y` (one row when y is 0) from `x0 - x`,
/// `2 * x + 1` wide.
pub open spec fn row_pair(x0: int, y0: int, x: int, y: int) -> Seq<Span> {
    seq![(x0 - x, y0 + y, 2 * x + 1)] + if y != 0 {
        seq![(x0 - x, y0 - y, 2 * x + 1)]
    } else {
        Seq::empty()
    }
}

/// The rows a filled circle is drawn with on a bare picture, along the
/// filled walk from (x, y): the row pair of each step, then the mirrored
/// pair when x moves in.
pub open spec fn disc_rows(x0: int, y0: int, x: int, y: int, err: int, fuel: nat) -> Seq<Span>
    decreases fuel,
{
    if x < y || fuel == 0 {
        Seq::empty()
    } else {
        let n = disc_next(x, y, err);
        let e = err + y + (y + 1);
        row_pair(x0, y0, x, y) + (if e >= 0 && x != y {
            row_pair(x0, y0, y, x)
        } else {
            Seq::empty()
        }) + disc_rows(x0, y0, n.0, n.1, n.2, (fuel - 1) as nat)
    }
}

/// The picture after filling each row in turn.
pub open spec fn fill_rows(v: ImageView, rows: Seq<Span>, c: u32) -> ImageView
    decreases rows.len(),
{
    if rows.len() == 0 {
        v
    } else {
        let r = rows.last();
        filled_view(fill_rows(v, rows.drop_last(), c), r.0, r.1, r.2, 1, c)
    }
}

/// The picture after drawing a circle around (x0, y0): the outline for a
/// positive radius, filled rows for a negative one, the center alone for
/// radius 0.
pub open spec fn plain_circle(v: ImageView, x0: int, y0: int, radius: int, c: u32) -> ImageView {
    if radius > 0 {
        draw_points(v, ring_walk(x0, y0, radius, 0, 0, (radius + 1) as nat), c)
    } else if radius < 0 {
        fill_rows(v, disc_rows(x0, y0, -radius, 0, radius, (-radius + 1) as nat), c)
    } else {
        v.with_pixel(x0, y0, c)
    }
}

pub open spec fn spans_view(rows: Seq<(i32, i32, u32)>) -> Seq<Span> {
    Seq::new(rows.len(), |k: int| (rows[k].0 as int, rows[k].1 as int, rows[k].2 as int))
}

/// A row fits the arithmetic of filling: its right end and the row below
/// it stay within `i32`.
pub open spec fn span_fits(r: Span) -> bool {
    &&& 0 <= r.2 <= i32::MAX
    &&& r.0 + r.2 <= i32::MAX
    &&& r.1 + 1 <= i32::MAX
}

fn push_row_pair(rows: &mut Vec<(i32, i32, u32)>, x0: i32, y0: i32, x: i32, y: i32)
    requires
        0 <= y,
        0 <= x < 0x2000_0000,
        i32::MIN <= x0 - x,
        x0 + x + 1 <= i32::MAX,
        i32::MIN <= y0 - y,
        y0 + y + 1 <= i32::MAX,
    ensures
        spans_view(final(rows)@) == spans_view(old(rows)@) + row_pair(x0 as int, y0 as int, x as int, y as int),
        forall|k: int| old(rows)@.len() <= k < final(rows)@.len() ==> span_fits(#[trigger] spans_view(final(rows)@)[k]),
{
    let wide: u32 = (2 * x + 1) as u32;
    rows.push((x0 - x, y0 + y, wide));
    if y != 0 {
        rows.push((x0 - x, y0 - y, wide));
    }
    assert(spans_view(rows@) =~= spans_view(old(rows)@) + row_pair(x0 as int, y0 as int, x as int, y as int));
}

/// Computes the rows of the filled circle of radius `radius` (negative)
/// around (x0, y0).
fn disc_rows_of(x0: i32, y0: i32, radius: i32) -> (rows: Vec<(i32, i32, u32)>)
    requires
        radius < 0,
        circle_fits(x0 as int, y0 as int, radius as int),
        x0 - radius < i32::MAX,
        y0 - radius < i32::MAX,
    ensures
        spans_view(rows@) == disc_rows(x0 as int, y0 as int, -radius, 0, radius as int, (-radius + 1) as nat),
        forall|k: int| 0 <= k < rows@.len() ==> span_fits(#[trigger] spans_view(rows@)[k]),
{
    let mut rows: Vec<(i32, i32, u32)> = Vec::new();
    let r: i32 = -radius;
    let mut x: i32 = r;
    let mut y: i32 = 0;
    let mut err: i64 = radius as i64;
    let ghost spec = disc_rows(x0 as int, y0 as int, r as int, 0, radius as int, (r + 1) as nat);
    let ghost mut fuel: nat = (r + 1) as nat;
    proof {
        assert(err == x * x + y * y - r * r - r) by (nonlinear_arith)
            requires
                x == r,
                y == 0,
                err == -r,
        ;
        assert(spec =~= spans_view(rows@) + disc_rows(x0 as int, y0 as int, x as int, y as int, err as int, fuel));
    }
    while x >= y
        invariant
            circle_fits(x0 as int, y0 as int, radius as int),
            x0 + r < i32::MAX,
            y0 + r < i32::MAX,
            r == -radius,
            r > 0,
            0 <= y <= r + 1,
            -1 <= x <= r,
            y <= x + 2,
            err == x * x + y * y - r * r - r,
            fuel >= x - y + 1,
            spec == disc_rows(x0 as int, y0 as int, r as int, 0, radius as int, (r + 1) as nat),
            spec == spans_view(rows@) + disc_rows(x0 as int, y0 as int, x as int, y as int, err as int, fuel),
            forall|k: int| 0 <= k < rows@.len() ==> span_fits(#[trigger] spans_view(rows@)[k]),
        decreases x - y + 2,
    {
        proof {
            assert(-0x1000_0000_0000_0000 <= err <= 0x1000_0000_0000_0000) by (nonlinear_arith)
                requires
                    err == x * x + y * y - r * r - r,
                    0 <= x <= r + 1,
                    0 <= y <= r + 1,
                    0 <= r < 0x2000_0000,
            {
                lemma_sq_bound(x as int, r as int);
                lemma_sq_bound(y as int, r as int);
                lemma_sq_bound(r as int, r as int);
            }
        }
        let ghost (ox, oy, oerr) = (x as int, y as int, err as int);
        let ghost n = disc_next(ox, oy, oerr);
        let ghost before = spans_view(rows@);
        let lasty = y;
        err += y as i64;
        y += 1;
        err += y as i64;
        push_row_pair(&mut rows, x0, y0, x, lasty);
        if err >= 0 {
            if x != lasty {
                push_row_pair(&mut rows, x0, y0, lasty, x);
            }
            err -= x as i64;
            x -= 1;
            err -= x as i64;
        }
        proof {
            assert forall|k: int| 0 <= k < rows@.len() implies span_fits(#[trigger] spans_view(rows@)[k]) by {
                if k < before.len() {
                    assert(spans_view(rows@)[k] == before[k]);
                }
            }
            assert(n == (x as int, y as int, err as int));
            assert(err == x * x + y * y - r * r - r) by (nonlinear_arith)
                requires
                    oerr == ox * ox + oy * oy - r * r - r,
                    y == oy + 1,
                    (x == ox && err == oerr + oy + y) || (x == ox - 1 && err == oerr + oy + y - ox - x),
            ;
            let e = oerr + oy + (oy + 1);
            assert(disc_rows(x0 as int, y0 as int, ox, oy, oerr, fuel) == row_pair(x0 as int, y0 as int, ox, oy) + (if e >= 0 && ox != oy {
                row_pair(x0 as int, y0 as int, oy, ox)
            } else {
                Seq::empty()
            }) + disc_rows(x0 as int, y0 as int, x as int, y as int, err as int, (fuel - 1) as nat));
            assert(spec =~= spans_view(rows@) + disc_rows(x0 as int, y0 as int, x as int, y as int, err as int, (fuel - 1) as nat));
            fuel = (fuel - 1) as nat;
        }
    }
    proof {
        assert(spec =~= spans_view(rows@));
    }
    rows
}

impl Image {
    /// Inverts the bits `word` of the pixel at each point of `pts`.
    fn xor_all(&mut self, pts: &Vec<(i32, i32)>, word: u32)
        requires
            old(self).wf(),
        ensures
            final(self).wf(),
            final(self)@ == xor_points(old(self)@, points_view(pts@), word),
    {
        let ghost start = self@;
        let mut k: usize = 0;
        while k < pts.len()
            invariant
                k <= pts@.len(),
                self.wf(),
                self@ == xor_points(start, points_view(pts@).take(k as int), word),
            decreases pts@.len() - k,
        {
            let (x, y) = pts[k];
            let old_color = self.pixcol(x, y);
            self.pixel(x, y, Color { data: old_color.data ^ word });
            proof {
                let pv = points_view(pts@);
                assert(pv.take(k + 1) =~= pv.take(k as int).push(pv[k as int]));
                lemma_xor_push(start, pv.take(k as int), pv[k as int], word);
            }
            k += 1;
        }
        assert(points_view(pts@).take(k as int) =~= points_view(pts@));
    }

    /// Draws `color` at each point of `pts`.
    fn draw_all(&mut self, pts: &Vec<(i32, i32)>, color: Color)
        requires
            old(self).wf(),
        ensures
            final(self).wf(),
            final(self)@ == draw_points(old(self)@, points_view(pts@), color.data),
    {
        let ghost start = self@;
        let mut k: usize = 0;
        while k < pts.len()
            invariant
                k <= pts@.len(),
                self.wf(),
                self@ == draw_points(start, points_view(pts@).take(k as int), color.data),
            decreases pts@.len() - k,
        {
            let (x, y) = pts[k];
            self.pixel(x, y, color);
            proof {
                let pv = points_view(pts@);
                assert(pv.take(k + 1) =~= pv.take(k as int).push(pv[k as int]));
                lemma_draw_push(start, pv.take(k as int), pv[k as int], color.data);
            }
            k += 1;
        }
        assert(points_view(pts@).take(k as int) =~= points_view(pts@));
    }

    /// Draws a dashed line from (argx1, argy1) to (argx2, argy2) by
    /// inverting the red, green and blue bits of `color` in the pixels of
    /// every dash; a second call with the same arguments restores opaque
    /// pixels. A dash is one point, followed by `style` points left alone.
    pub fn ant_line(&mut self, argx1: i32, argy1: i32, argx2: i32, argy2: i32, color: Color, style: i32)
        requires
            old(self).wf(),
            line_fits(argx1 as int, argy1 as int, argx2 as int, argy2 as int),
        ensures
            final(self).wf(),
            final(self)@ == ant_line_view(old(self)@, argx1 as int, argy1 as int, argx2 as int, argy2 as int, color.data, style as int),
    {
        let ghost start = self@;
        let color = Color::rgba(color.r(), color.g(), color.b(), 0);
        let word = color.data;
        let pts = line_points_of(argx1, argy1, argx2, argy2);
        let ghost pv = points_view(pts@);
        let ghost period = dash_period(style as int);
        let mut ct: i32 = 0;
        let mut k: usize = 0;
        while k < pts.len()
            invariant
                k <= pts@.len(),
                pv == points_view(pts@),
                period == dash_period(style as int),
                ct == (k as int) % period,
                self.wf(),
                self@ == xor_points(start, every_nth(pv.take(k as int), period), word),
            decreases pts@.len() - k,
        {
            proof {
                lemma_every_nth_step(pv, period, k as int);
            }
            if ct == 0 {
                let (x, y) = pts[k];
                let old_color = self.pixcol(x, y);
                self.pixel(x, y, Color { data: old_color.data ^ word });
                proof {
                    lemma_xor_push(start, every_nth(pv.take(k as int), period), pv[k as int], word);
                }
            }
            proof {
                assert((k as int + 1) % period == if ct < style { ct + 1 } else { 0 }) by (nonlinear_arith)
                    requires
                        ct == (k as int) % period,
                        period == if style > 0 { style + 1 } else { 1 },
                        k >= 0,
                ;
            }
            if ct < style {
                ct += 1;
            } else {
                ct = 0;
            }
            k += 1;
        }
        assert(pv.take(k as int) =~= pv);
    }

    /// Draws a dashed selection rectangle with corners (argx1, argy1) and
    /// (argx2, argy2): the four sides as dashed lines.
    pub fn rect_marquee(&mut self, argx1: i32, argy1: i32, argx2: i32, argy2: i32, color: Color, style: i32)
        requires
            old(self).wf(),
            line_fits(argx1 as int, argy1 as int, argx2 as int, argy2 as int),
        ensures
            final(self).wf(),
            final(self)@ == rect_marquee_view(old(self)@, argx1 as int, argy1 as int, argx2 as int, argy2 as int, color.data, style as int),
    {
        self.ant_line(argx1, argy1, argx2, argy1, color, style);
        self.ant_line(argx2, argy1, argx2, argy2, color, style);
        self.ant_line(argx2, argy2, argx1, argy2, color, style);
        self.ant_line(argx1, argy2, argx1, argy1, color, style);
    }

    /// Draws the line from (argx1, argy1) to (argx2, argy2) in `color`.
    pub fn line(&mut self, argx1: i32, argy1: i32, argx2: i32, argy2: i32, color: Color)
        requires
            old(self).wf(),
            line_fits(argx1 as int, argy1 as int, argx2 as int, argy2 as int),
        ensures
            final(self).wf(),
            final(self)@ == draw_points(old(self)@, line_points(argx1 as int, argy1 as int, argx2 as int, argy2 as int), color.data),
    {
        let pts = line_points_of(argx1, argy1, argx2, argy2);
        self.draw_all(&pts, color);
    }

    /// Draws a circle around (x0, y0) in `color`: the outline for a
    /// positive radius, filled row by row for a negative one, the center
    /// pixel for radius 0.
    pub fn circle(&mut self, x0: i32, y0: i32, radius: i32, color: Color)
        requires
            old(self).wf(),
            old(self)@.width <= i32::MAX,
            old(self)@.height <= i32::MAX,
            circle_fits(x0 as int, y0 as int, radius as int),
            x0 + (if radius < 0 { -radius } else { radius as int }) < i32::MAX,
            y0 + (if radius < 0 { -radius } else { radius as int }) < i32::MAX,
        ensures
            final(self).wf(),
            final(self)@ == plain_circle(old(self)@, x0 as int, y0 as int, radius as int, color.data),
    {
        let ghost start = self@;
        if radius > 0 {
            let pts = circle_points_of(x0, y0, radius);
            self.draw_all(&pts, color);
        } else if radius < 0 {
            let rows = disc_rows_of(x0, y0, radius);
            let ghost rv = spans_view(rows@);
            let mut k: usize = 0;
            while k < rows.len()
                invariant
                    k <= rows@.len(),
                    rv == spans_view(rows@),
                    forall|j: int| 0 <= j < rows@.len() ==> span_fits(#[trigger] spans_view(rows@)[j]),
                    self.wf(),
                    self@.width == start.width,
                    self@.height == start.height,
                    start.width <= i32::MAX,
                    start.height <= i32::MAX,
                    self@ == fill_rows(start, rv.take(k as int), color.data),
                decreases rows@.len() - k,
            {
                let (left, row, wide) = rows[k];
                assert(span_fits(spans_view(rows@)[k as int]));
                self.rect(left, row, wide, 1, color);
                proof {
                    assert(rv.take(k + 1).drop_last() =~= rv.take(k as int));
                    assert(rv.take(k + 1).last() == (left as int, row as int, wide as int));
                }
                k += 1;
            }
            proof {
                assert(rv.take(k as int) =~= rv);
            }
        } else {
            self.pixel(x0, y0, color);
        }
    }

    /// Draws the outline of the rectangle with corners (argx1, argy1) and
    /// (argx2, argy2) in `color`.
    pub fn rect_hollow(&mut self, argx1: i32, argy1: i32, argx2: i32, argy2: i32, color: Color)
        requires
            old(self).wf(),
            line_fits(argx1 as int, argy1 as int, argx2 as int, argy2 as int),
        ensures
            final(self).wf(),
            final(self)@ == draw_points(old(self)@, hollow_points(argx1 as int, argy1 as int, argx2 as int, argy2 as int), color.data),
    {
        let ghost (x1, y1, x2, y2) = (argx1 as int, argy1 as int, argx2 as int, argy2 as int);
        let ghost start = self@;
        let a = line_points_of(argx1, argy1, argx2, argy1);
        let b = line_points_of(argx2, argy1, argx2, argy2);
        let c = line_points_of(argx2, argy2, argx1, argy2);
        let d = line_points_of(argx1, argy2, argx1, argy1);
        self.draw_all(&a, color);
        self.draw_all(&b, color);
        self.draw_all(&c, color);
        self.draw_all(&d, color);
        proof {
            let (la, lb, lc, ld) = (line_points(x1, y1, x2, y1), line_points(x2, y1, x2, y2),
                line_points(x2, y2, x1, y2), line_points(x1, y2, x1, y1));
            lemma_draw_concat(start, la, lb, color.data);
            lemma_draw_concat(start, la + lb, lc, color.data);
            lemma_draw_concat(start, la + lb + lc, ld, color.data);
        }
    }

    /// Draws a circle outline around (x0, y0) with the magnitude of
    /// `radius` by inverting the bits `color` of the pixels it crosses.
    pub fn circle_marquee(&mut self, x0: i32, y0: i32, radius: i32, color: Color)
        requires
            old(self).wf(),
            circle_fits(x0 as int, y0 as int, radius as int),
        ensures
            final(self).wf(),
            final(self)@ == xor_points(old(self)@, marquee_ring(x0 as int, y0 as int, radius as int), color.data),
    {
        let r: i32 = if radius < 0 { -radius } else { radius };
        let pts = if r == 0 {
            let v: Vec<(i32, i32)> = vec![(x0, y0), (x0, y0), (x0, y0), (x0, y0), (x0, y0), (x0, y0), (x0, y0), (x0, y0)];
            proof {
                let ring = marquee_ring(x0 as int, y0 as int, radius as int);
                assert(ring == eight(x0 as int, y0 as int, 0, 0) + ring_walk(x0 as int, y0 as int, -1, 1, 6, 0));
                assert(points_view(v@) =~= ring);
            }
            v
        } else {
            circle_points_of(x0, y0, r)
        };
        self.xor_all(&pts, color.data);
    }
}

} // verus!
