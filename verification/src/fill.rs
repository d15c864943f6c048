//! Flood fills over an image.
use vstd::prelude::*;
use crate::color::{Color, blend, blend_word, alpha_of, lemma_blend_extremes};
use crate::image::{Image, ImageView, lemma_index_bounds, lemma_index_row, lemma_block_split};
use crate::canvas::{CanvasView, masked_word};
use crate::reach::{adjacent4, changes_reached, either_word, only_word, lacks_word, reached, lemma_reached_here, lemma_reached_trans, lemma_reached_step, lemma_reached_back, lemma_reached_row, lemma_changes_join, lemma_reached_without, lemma_reached_wider, lemma_call_join};

verus! {

/// How many pixels of `s` hold the word `c`.
pub open spec fn count_word(s: Seq<Color>, c: u32) -> nat
    decreases s.len(),
{
    if s.len() == 0 {
        0
    } else {
        count_word(s.drop_last(), c) + if s.last().data == c { 1nat } else { 0nat }
    }
}

/// `b` is `a` with some pixels of word `old_c` turned into `res`, and no
/// other change.
pub open spec fn repaints_only(a: ImageView, b: ImageView, old_c: u32, res: u32) -> bool {
    &&& b.width == a.width
    &&& b.height == a.height
    &&& b.pixels.len() == a.pixels.len()
    &&& forall|i: int|
        0 <= i < a.pixels.len() ==> #[trigger] b.pixels[i] == a.pixels[i] || (a.pixels[i].data
            == old_c && b.pixels[i].data == res)
}

/// No 4-neighbour of (x, y) inside the image holds the word `old_c`.
pub open spec fn settled(v: ImageView, x: int, y: int, old_c: u32) -> bool {
    &&& (x > 0 ==> v.pixels[v.index(x - 1, y)].data != old_c)
    &&& (x + 1 < v.width ==> v.pixels[v.index(x + 1, y)].data != old_c)
    &&& (y > 0 ==> v.pixels[v.index(x, y - 1)].data != old_c)
    &&& (y + 1 < v.height ==> v.pixels[v.index(x, y + 1)].data != old_c)
}

/// Every pixel that changed from `a` to `b` has no neighbour left in `b`
/// with the word `old_c`: the fill stopped only at pixels of other colors
/// or at the border.
pub open spec fn fill_closed(a: ImageView, b: ImageView, old_c: u32) -> bool {
    forall|x: int, y: int|
        b.in_bounds(x, y) && #[trigger] b.pixels[b.index(x, y)] != a.pixels[a.index(x, y)]
            ==> settled(b, x, y, old_c)
}

proof fn lemma_count_repaint(a: Seq<Color>, b: Seq<Color>, old_c: u32, res: u32)
    requires
        a.len() == b.len(),
        res != old_c,
        forall|i: int|
            0 <= i < a.len() ==> #[trigger] b[i] == a[i] || (a[i].data == old_c && b[i].data == res),
    ensures
        count_word(b, old_c) <= count_word(a, old_c),
        (exists|i: int| 0 <= i < a.len() && b[i] != a[i]) ==> count_word(b, old_c) < count_word(a, old_c),
    decreases a.len(),
{
    if a.len() > 0 {
        let a2 = a.drop_last();
        let b2 = b.drop_last();
        assert forall|i: int| 0 <= i < a2.len() implies #[trigger] b2[i] == a2[i] || (a2[i].data == old_c && b2[i].data == res) by {
            assert(b[i] == a[i] || (a[i].data == old_c && b[i].data == res));
        }
        lemma_count_repaint(a2, b2, old_c, res);
        let n = a.len() - 1;
        assert(b[n] == a[n] || (a[n].data == old_c && b[n].data == res));
        if exists|i: int| 0 <= i < a.len() && b[i] != a[i] {
            let i = choose|i: int| 0 <= i < a.len() && b[i] != a[i];
            if i < n {
                assert(b2[i] != a2[i]);
            }
        }
    }
}

proof fn lemma_repaints_trans(a: ImageView, b: ImageView, c: ImageView, old_c: u32, res: u32)
    requires
        repaints_only(a, b, old_c, res),
        repaints_only(b, c, old_c, res),
        res != old_c,
    ensures
        repaints_only(a, c, old_c, res),
{
    assert forall|i: int| 0 <= i < a.pixels.len() implies #[trigger] c.pixels[i] == a.pixels[i] || (a.pixels[i].data
        == old_c && c.pixels[i].data == res) by {
        assert(b.pixels[i] == a.pixels[i] || (a.pixels[i].data == old_c && b.pixels[i].data == res));
        assert(c.pixels[i] == b.pixels[i] || (b.pixels[i].data == old_c && c.pixels[i].data == res));
    }
}

/// Closedness of a fill survives a later repaint of the same kind, and two
/// closed fills compose.
proof fn lemma_closed_trans(a: ImageView, b: ImageView, c: ImageView, old_c: u32, res: u32)
    requires
        a.wf(),
        repaints_only(a, b, old_c, res),
        repaints_only(b, c, old_c, res),
        fill_closed(a, b, old_c),
        fill_closed(b, c, old_c),
        res != old_c,
    ensures
        fill_closed(a, c, old_c),
{
    assert forall|x: int, y: int|
        c.in_bounds(x, y) && #[trigger] c.pixels[c.index(x, y)] != a.pixels[a.index(x, y)] implies settled(c, x, y, old_c) by {
        lemma_index_bounds(a.width as int, a.height as int, x, y);
        let i = a.index(x, y);
        assert(c.pixels[i] == b.pixels[i] || (b.pixels[i].data == old_c && c.pixels[i].data == res));
        if c.pixels[i] != b.pixels[i] {
            assert(c.pixels[c.index(x, y)] != b.pixels[b.index(x, y)]);
        } else {
            assert(b.pixels[b.index(x, y)] != a.pixels[a.index(x, y)]);
            assert(settled(b, x, y, old_c));
            lemma_settled_stays(b, c, x, y, old_c, res);
        }
    }
}

proof fn lemma_settled_stays(b: ImageView, c: ImageView, x: int, y: int, old_c: u32, res: u32)
    requires
        b.wf(),
        b.in_bounds(x, y),
        repaints_only(b, c, old_c, res),
        settled(b, x, y, old_c),
        res != old_c,
    ensures
        settled(c, x, y, old_c),
{
    lemma_index_bounds(b.width as int, b.height as int, x, y);
    if x > 0 {
        let j = b.index(x - 1, y);
        assert(c.pixels[j] == b.pixels[j] || (b.pixels[j].data == old_c && c.pixels[j].data == res));
    }
    if x + 1 < b.width {
        let j = b.index(x + 1, y);
        assert(c.pixels[j] == b.pixels[j] || (b.pixels[j].data == old_c && c.pixels[j].data == res));
    }
    if y > 0 {
        let j = b.index(x, y - 1);
        assert(c.pixels[j] == b.pixels[j] || (b.pixels[j].data == old_c && c.pixels[j].data == res));
    }
    if y + 1 < b.height {
        lemma_index_bounds(b.width as int, b.height as int, x, y + 1);
        let j = b.index(x, y + 1);
        assert(c.pixels[j] == b.pixels[j] || (b.pixels[j].data == old_c && c.pixels[j].data == res));
    }
}

} // verus!

verus! {

/// What pixel `i` of `b` is after painting the run of columns `[l, r)` of
/// row `y` of `a`: inside the run it went from `old_c` to `res`, outside it
/// is as before.
pub open spec fn run_cell(a: ImageView, b: ImageView, y: int, l: int, r: int, old_c: u32, res: u32, i: int) -> bool {
    if a.index(l, y) <= i < a.index(r, y) {
        a.pixels[i].data == old_c && b.pixels[i].data == res
    } else {
        b.pixels[i] == a.pixels[i]
    }
}

/// `b` is `a` with the run of columns `[l, r)` of row `y` painted.
pub open spec fn run_painted(a: ImageView, b: ImageView, y: int, l: int, r: int, old_c: u32, res: u32) -> bool {
    &&& b.width == a.width
    &&& b.height == a.height
    &&& b.pixels.len() == a.pixels.len()
    &&& forall|i: int| 0 <= i < a.pixels.len() ==> #[trigger] run_cell(a, b, y, l, r, old_c, res, i)
}

/// Every pixel of row `y` in columns `[from, to)` has, in row `ny`, a
/// neighbour without the word `old_c` (or `ny` is outside the image).
pub open spec fn row_side_settled(v: ImageView, y: int, ny: int, from: int, to: int, old_c: u32) -> bool {
    0 <= ny < v.height ==> forall|k: int| from <= k < to ==> #[trigger] v.pixels[v.index(k, ny)].data != old_c
}

proof fn lemma_side_stays(b: ImageView, c: ImageView, y: int, ny: int, from: int, to: int, old_c: u32, res: u32)
    requires
        b.wf(),
        0 <= from,
        to <= b.width,
        repaints_only(b, c, old_c, res),
        row_side_settled(b, y, ny, from, to, old_c),
    ensures
        row_side_settled(c, y, ny, from, to, old_c),
{
    if 0 <= ny < b.height {
        assert forall|k: int| from <= k < to implies #[trigger] c.pixels[c.index(k, ny)].data != old_c by {
            lemma_index_bounds(b.width as int, b.height as int, k, ny);
            let j = b.index(k, ny);
            assert(c.pixels[j] == b.pixels[j] || (b.pixels[j].data == old_c && c.pixels[j].data == res));
            assert(b.pixels[b.index(k, ny)].data != old_c);
        }
    }
}

/// Painting one more pixel next to a painted run of a row extends the run.
proof fn lemma_run_extend(entry: ImageView, before: ImageView, after: ImageView, y: int, l: int, r: int, k: int, old_c: u32, new_c: u32)
    requires
        entry.wf(),
        run_painted(entry, before, y, l, r, old_c, blend_word(old_c, new_c)),
        before.in_bounds(k, y),
        k == r || k == l - 1,
        l <= r,
        before.pixcol_word(k, y) == old_c,
        after == before.with_pixel(k, y, new_c),
    ensures
        k == r ==> run_painted(entry, after, y, l, r + 1, old_c, blend_word(old_c, new_c)),
        k == l - 1 ==> run_painted(entry, after, y, l - 1, r, old_c, blend_word(old_c, new_c)),
{
    let res = blend_word(old_c, new_c);
    let j = entry.index(k, y);
    lemma_index_bounds(entry.width as int, entry.height as int, k, y);
    assert(run_cell(entry, before, y, l, r, old_c, res, j));
    assert(before.pixels[j] == entry.pixels[j]);
    assert(after.pixels[j].data == res);
    assert(before.pixels[j].data == old_c);
    let nl = if k == r { l } else { l - 1 };
    let nr = if k == r { r + 1 } else { r };
    assert forall|i: int| 0 <= i < entry.pixels.len() implies #[trigger] run_cell(entry, after, y, nl, nr, old_c, res, i) by {
        if i != j {
            assert(after.pixels[i] == before.pixels[i]);
            assert(run_cell(entry, before, y, l, r, old_c, res, i));
        }
    }
}

proof fn lemma_run_repaints(a: ImageView, b: ImageView, y: int, l: int, r: int, old_c: u32, res: u32)
    requires
        run_painted(a, b, y, l, r, old_c, res),
    ensures
        repaints_only(a, b, old_c, res),
{
    assert forall|i: int| 0 <= i < a.pixels.len() implies #[trigger] b.pixels[i] == a.pixels[i] || (a.pixels[i].data
        == old_c && b.pixels[i].data == res) by {
        assert(run_cell(a, b, y, l, r, old_c, res, i));
    }
}

proof fn lemma_side_extend(v: ImageView, y: int, ny: int, from: int, to: int, k: int, old_c: u32)
    requires
        row_side_settled(v, y, ny, from, to, old_c),
        k == to || k == from - 1,
        0 <= ny < v.height ==> v.pixels[v.index(k, ny)].data != old_c,
    ensures
        k == to ==> row_side_settled(v, y, ny, from, to + 1, old_c),
        k == from - 1 ==> row_side_settled(v, y, ny, from - 1, to, old_c),
{
}

proof fn lemma_side_join(v: ImageView, y: int, ny: int, a: int, b: int, c: int, old_c: u32)
    requires
        row_side_settled(v, y, ny, a, b, old_c),
        row_side_settled(v, y, ny, b, c, old_c),
    ensures
        row_side_settled(v, y, ny, a, c, old_c),
{
    if 0 <= ny < v.height {
        assert forall|k: int| a <= k < c implies #[trigger] v.pixels[v.index(k, ny)].data != old_c by {
            if k < b {
                assert(v.pixels[v.index(k, ny)].data != old_c);
            } else {
                assert(v.pixels[v.index(k, ny)].data != old_c);
            }
        }
    }
}

/// The pixels of a painted run are settled once both neighbouring rows are,
/// so the whole fill is closed.
proof fn lemma_fill_assemble(entry: ImageView, mid: ImageView, fin: ImageView, y: int, lo: int, hi: int, old_c: u32, res: u32)
    requires
        entry.wf(),
        run_painted(entry, mid, y, lo, hi, old_c, res),
        0 <= y < entry.height,
        0 <= lo < hi <= entry.width,
        lo == 0 || mid.pixels[mid.index(lo - 1, y)].data != old_c,
        hi == entry.width || mid.pixels[mid.index(hi, y)].data != old_c,
        repaints_only(mid, fin, old_c, res),
        fill_closed(mid, fin, old_c),
        res != old_c,
        row_side_settled(fin, y, y - 1, lo, hi, old_c),
        row_side_settled(fin, y, y + 1, lo, hi, old_c),
    ensures
        repaints_only(entry, fin, old_c, res),
        fill_closed(entry, fin, old_c),
{
    let w = entry.width as int;
    let h = entry.height as int;
    lemma_run_repaints(entry, mid, y, lo, hi, old_c, res);
    lemma_repaints_trans(entry, mid, fin, old_c, res);
    assert forall|px: int, py: int|
        fin.in_bounds(px, py) && #[trigger] fin.pixels[fin.index(px, py)] != entry.pixels[entry.index(px, py)]
            implies settled(fin, px, py, old_c) by {
        lemma_index_bounds(w, h, px, py);
        let i = entry.index(px, py);
        assert(run_cell(entry, mid, y, lo, hi, old_c, res, i));
        if mid.pixels[i] != entry.pixels[i] {
            lemma_index_bounds(w, h, lo, y);
            lemma_index_bounds(w, h, hi - 1, y);
            assert(entry.index(lo, y) <= i < entry.index(hi, y));
            lemma_index_row(w, px, py, if i - entry.index(lo, y) + lo < w { i - entry.index(lo, y) + lo } else { 0 }, y);
            assert(py == y);
            assert(lo <= px < hi);
            if px > 0 {
                let j = entry.index(px - 1, y);
                assert(fin.pixels[j] == mid.pixels[j] || (mid.pixels[j].data == old_c && fin.pixels[j].data == res));
                if px - 1 >= lo {
                    assert(run_cell(entry, mid, y, lo, hi, old_c, res, j));
                }
            }
            if px + 1 < w {
                lemma_index_bounds(w, h, px + 1, y);
                let j = entry.index(px + 1, y);
                assert(fin.pixels[j] == mid.pixels[j] || (mid.pixels[j].data == old_c && fin.pixels[j].data == res));
                if px + 1 < hi {
                    assert(run_cell(entry, mid, y, lo, hi, old_c, res, j));
                }
            }
            if py > 0 {
                assert(fin.pixels[fin.index(px, py - 1)].data != old_c);
            }
            if py + 1 < h {
                assert(fin.pixels[fin.index(px, py + 1)].data != old_c);
            }
        } else {
            assert(fin.pixels[fin.index(px, py)] != mid.pixels[mid.index(px, py)]);
        }
    }
}


/// A pixel that holds the old word, or the old or the new word, after a
/// repaint held it before.
proof fn lemma_words_back(a: ImageView, b: ImageView, old_c: u32, res: u32)
    requires
        repaints_only(a, b, old_c, res),
    ensures
        forall|i: int| 0 <= i < a.pixels.len() && only_word(old_c)(#[trigger] b.pixels[i].data) ==> only_word(old_c)(a.pixels[i].data),
        forall|i: int| 0 <= i < a.pixels.len() && either_word(old_c, res)(#[trigger] b.pixels[i].data) ==> either_word(old_c, res)(a.pixels[i].data),
{
    assert forall|i: int| 0 <= i < a.pixels.len() && only_word(old_c)(#[trigger] b.pixels[i].data) implies only_word(old_c)(a.pixels[i].data) by {
        assert(b.pixels[i] == a.pixels[i] || (a.pixels[i].data == old_c && b.pixels[i].data == res));
    }
    assert forall|i: int| 0 <= i < a.pixels.len() && either_word(old_c, res)(#[trigger] b.pixels[i].data) implies either_word(old_c, res)(a.pixels[i].data) by {
        assert(b.pixels[i] == a.pixels[i] || (a.pixels[i].data == old_c && b.pixels[i].data == res));
    }
}

/// A 4-neighbour of a start pixel of the old word is reached from it
/// wherever it holds the old word.
proof fn lemma_neighbour_reached(a: ImageView, x: int, y: int, nx: int, ny: int, old_c: u32)
    requires
        a.in_bounds(x, y),
        a.pixels[a.index(x, y)].data == old_c,
        adjacent4((x, y), (nx, ny)),
    ensures
        a.in_bounds(nx, ny) && only_word(old_c)(a.pixels[a.index(nx, ny)].data) ==> reached(a, x, y, nx, ny, only_word(old_c)),
{
    if a.in_bounds(nx, ny) && only_word(old_c)(a.pixels[a.index(nx, ny)].data) {
        lemma_reached_here(a, x, y, only_word(old_c));
        lemma_reached_step(a, x, y, x, y, nx, ny, only_word(old_c));
    }
}

/// The pixels of row `y` in columns `[lo, hi)` of `v` hold the word `c`.
pub open spec fn row_holds(v: ImageView, y: int, lo: int, hi: int, c: u32) -> bool {
    forall|q: int| lo <= q < hi ==> #[trigger] v.pixels[v.index(q, y)].data == c
}

/// The fill changes the image: the two words differ and drawing the new
/// one over the old one gives another word.
pub open spec fn fill_changes(old_c: u32, new_c: u32) -> bool {
    old_c != new_c && blend_word(old_c, new_c) != old_c
}

proof fn lemma_row_holds_stays(b: ImageView, c: ImageView, y: int, lo: int, hi: int, old_c: u32, res: u32)
    requires
        b.wf(),
        0 <= lo,
        hi <= b.width,
        0 <= y < b.height,
        repaints_only(b, c, old_c, res),
        row_holds(b, y, lo, hi, res),
        res != old_c,
    ensures
        row_holds(c, y, lo, hi, res),
{
    assert forall|q: int| lo <= q < hi implies #[trigger] c.pixels[c.index(q, y)].data == res by {
        lemma_index_bounds(b.width as int, b.height as int, q, y);
        let j = b.index(q, y);
        assert(b.pixels[b.index(q, y)].data == res);
        assert(c.pixels[j] == b.pixels[j] || (b.pixels[j].data == old_c && c.pixels[j].data == res));
    }
}

/// From the start, the scan along the row reaches column `x1`, and from
/// there the pixel above or below it that still holds the old word.
proof fn lemma_scan_reached(entry: ImageView, v: ImageView, y: int, lo: int, hi: int, x: int, x1: int, ny: int, old_c: u32, res: u32)
    requires
        entry.wf(),
        repaints_only(entry, v, old_c, res),
        res != old_c,
        0 <= y < entry.height,
        ny == y - 1 || ny == y + 1,
        0 <= ny < entry.height,
        0 <= x < entry.width,
        0 <= x1 < entry.width,
        row_holds(v, y, lo, hi, res),
        (lo == x && hi == x1 + 1 && x <= x1) || (lo == x1 && hi == x + 1 && x1 <= x),
        v.pixels[v.index(x1, ny)].data == old_c,
    ensures
        reached(entry, x as int, y, x1, ny, either_word(old_c, res)),
{
    let ok = either_word(old_c, res);
    let w = entry.width as int;
    let h = entry.height as int;
    assert forall|q: int| (if x <= x1 { x <= q <= x1 } else { x1 <= q <= x }) implies #[trigger] ok(entry.pixels[entry.index(q, y)].data) by {
        lemma_index_bounds(w, h, q, y);
        let j = entry.index(q, y);
        assert(v.pixels[v.index(q, y)].data == res);
        assert(v.pixels[j] == entry.pixels[j] || (entry.pixels[j].data == old_c && v.pixels[j].data == res));
    }
    lemma_reached_row(entry, y, x, x1, ok);
    lemma_index_bounds(w, h, x1, ny);
    let j = entry.index(x1, ny);
    assert(v.pixels[j] == entry.pixels[j] || (entry.pixels[j].data == old_c && v.pixels[j].data == res));
    assert(ok(entry.pixels[j].data));
    lemma_reached_step(entry, x, y, x1, y, x1, ny, ok);
}

/// What a nested fill started at (x1, ny) changed is reached from (x, y)
/// once (x1, ny) is.
proof fn lemma_call_reached(entry: ImageView, before: ImageView, after: ImageView, x: int, y: int, x1: int, ny: int, old_c: u32, res: u32)
    requires
        entry.wf(),
        res != old_c,
        repaints_only(entry, before, old_c, res),
        after.pixels.len() == entry.pixels.len(),
        changes_reached(entry, before, x, y, either_word(old_c, res)),
        reached(entry, x, y, x1, ny, either_word(old_c, res)),
        changes_reached(before, after, x1, ny, either_word(old_c, res)),
    ensures
        changes_reached(entry, after, x, y, either_word(old_c, res)),
{
    let ok = either_word(old_c, res);
    assert forall|i: int| 0 <= i < entry.pixels.len() && ok(#[trigger] before.pixels[i].data) implies ok(entry.pixels[i].data) by {
        assert(before.pixels[i] == entry.pixels[i] || (entry.pixels[i].data == old_c && before.pixels[i].data == res));
    }
    assert forall|px: int, py: int|
        entry.in_bounds(px, py) && #[trigger] after.pixels[entry.index(px, py)] != before.pixels[entry.index(px, py)]
            implies reached(entry, x, y, px, py, ok) by {
        assert(before.index(px, py) == entry.index(px, py));
        assert(before.in_bounds(px, py));
        assert(reached(before, x1, ny, px, py, ok));
        lemma_reached_back(entry, before, x1, ny, px, py, ok, ok);
        lemma_reached_trans(entry, x, y, x1, ny, px, py, ok);
    }
    lemma_changes_join(entry, before, after, x, y, ok);
}

/// The pixels of a painted run that contains the start are reached from it.
proof fn lemma_run_reached(entry: ImageView, mid: ImageView, y: int, lo: int, hi: int, x: int, old_c: u32, res: u32)
    requires
        entry.wf(),
        run_painted(entry, mid, y, lo, hi, old_c, res),
        0 <= y < entry.height,
        0 <= lo <= x < hi,
        hi <= entry.width,
    ensures
        changes_reached(entry, mid, x, y, either_word(old_c, res)),
        changes_reached(entry, mid, x, y, only_word(old_c)),
        row_holds(mid, y, lo, hi, res),
{
    let ok = only_word(old_c);
    let w = entry.width as int;
    let h = entry.height as int;
    lemma_index_bounds(w, h, lo, y);
    lemma_index_bounds(w, h, hi - 1, y);
    assert forall|q: int| lo <= q < hi implies #[trigger] mid.pixels[mid.index(q, y)].data == res by {
        lemma_index_bounds(w, h, q, y);
        assert(run_cell(entry, mid, y, lo, hi, old_c, res, entry.index(q, y)));
    }
    assert forall|px: int, py: int|
        entry.in_bounds(px, py) && #[trigger] mid.pixels[entry.index(px, py)] != entry.pixels[entry.index(px, py)]
            implies reached(entry, x, y, px, py, ok) by {
        lemma_index_bounds(w, h, px, py);
        let i = entry.index(px, py);
        assert(run_cell(entry, mid, y, lo, hi, old_c, res, i));
        assert(entry.index(lo, y) <= i < entry.index(hi, y));
        lemma_index_row(w, px, py, i - y * w, y);
        assert forall|q: int| (if x <= px { x <= q <= px } else { px <= q <= x }) implies #[trigger] ok(entry.pixels[entry.index(q, y)].data) by {
            lemma_index_bounds(w, h, q, y);
            assert(run_cell(entry, mid, y, lo, hi, old_c, res, entry.index(q, y)));
        }
        lemma_reached_row(entry, y, x, px, ok);
    }
    assert forall|px: int, py: int|
        entry.in_bounds(px, py) && #[trigger] mid.pixels[entry.index(px, py)] != entry.pixels[entry.index(px, py)]
            implies reached(entry, x, y, px, py, either_word(old_c, res)) by {
        assert(reached(entry, x, y, px, py, ok));
        lemma_reached_wider(entry, x, y, px, py, ok, either_word(old_c, res));
    }
}

/// Where the image held no pixel of the result word, the changes are
/// reached over pixels of the old word alone.
proof fn lemma_changes_without(a: ImageView, b: ImageView, x: int, y: int, old_c: u32, res: u32)
    requires
        a.wf(),
        lacks_word(a, res),
        changes_reached(a, b, x, y, either_word(old_c, res)),
    ensures
        changes_reached(a, b, x, y, only_word(old_c)),
{
    assert forall|px: int, py: int|
        a.in_bounds(px, py) && #[trigger] b.pixels[a.index(px, py)] != a.pixels[a.index(px, py)]
            implies reached(a, x, y, px, py, only_word(old_c)) by {
        lemma_reached_without(a, x, y, px, py, old_c, res);
    }
}

impl Image {
    /// Scanline flood fill: starting at (x, y), repaints with `new_color`
    /// the region of pixels of word `old_color` around it, row run by row
    /// run. Nothing happens when the start lies outside the image, when the
    /// two words are equal, when drawing
    /// `new_color` leaves `old_color` as it is (a transparent color), or
    /// when the start pixel does not hold `old_color`.
    ///
    /// Every repainted pixel held `old_color` and now holds the word of
    /// `new_color` drawn over it; the start pixel is repainted; no repainted
    /// pixel is left next to a pixel that still holds `old_color`; and every
    /// repainted pixel is joined to the start by a walk of 4-neighbours over
    /// pixels that held `old_color` or the new word (over pixels of
    /// `old_color` alone where no pixel held the new word).
    pub fn flood_fill_scanline(&mut self, x: i32, y: i32, new_color: u32, old_color: u32)
        requires
            old(self).wf(),
            old(self)@.width <= i32::MAX,
            old(self)@.height <= i32::MAX,
        ensures
            final(self).wf(),
            fill_changes(old_color, new_color) ==> repaints_only(old(self)@, final(self)@, old_color, blend_word(old_color, new_color)),
            fill_changes(old_color, new_color) ==> fill_closed(old(self)@, final(self)@, old_color),
            fill_changes(old_color, new_color) && old(self)@.in_bounds(x as int, y as int)
                && old(self)@.pixcol_word(x as int, y as int) == old_color
                ==> final(self)@.pixels[old(self)@.index(x as int, y as int)].data == blend_word(old_color, new_color),
            changes_reached(old(self)@, final(self)@, x as int, y as int, either_word(old_color, blend_word(old_color, new_color))),
            lacks_word(old(self)@, blend_word(old_color, new_color))
                ==> changes_reached(old(self)@, final(self)@, x as int, y as int, only_word(old_color)),
            !fill_changes(old_color, new_color) || !old(self)@.in_bounds(x as int, y as int)
                || old(self)@.pixcol_word(x as int, y as int) != old_color
                ==> final(self)@ == old(self)@,
        decreases count_word(old(self)@.pixels, old_color),
    {
        if old_color == new_color {
            return;
        }
        if x < 0 || y < 0 || x as u32 >= self.width() || y as u32 >= self.height() {
            return;
        }
        if blend(old_color, new_color) == old_color {
            return;
        }
        if self.pixcol(x, y).data != old_color {
            return;
        }
        let ghost entry = self@;
        let ghost res = blend_word(old_color, new_color);
        let ghost wi = entry.width as int;
        let ghost yi = y as int;
        proof {
            lemma_index_bounds(wi, entry.height as int, x as int, yi);
        }
        let w = self.width() as i32;
        let h = self.height() as i32;

        // paint the current row from the start position to the right
        let mut x1: i32 = x;
        while x1 < w && self.pixcol(x1, y).data == old_color
            invariant
                self.wf(),
                entry.wf(),
                wi == entry.width,
                yi == y,
                w == entry.width,
                h == entry.height,
                0 <= x < w,
                0 <= y < h,
                x <= x1 <= w,
                res == blend_word(old_color, new_color),
                res != old_color,
                run_painted(entry, self@, yi, x as int, x1 as int, old_color, res),
            decreases w - x1,
        {
            proof {
                lemma_index_bounds(wi, entry.height as int, x1 as int, yi);
            }
            let ghost before = self@;
            self.pixel(x1, y, Color { data: new_color });
            proof {
                lemma_run_extend(entry, before, self@, yi, x as int, x1 as int, x1 as int, old_color, new_color);
            }
            x1 = x1 + 1;
        }
        let r = x1;
        let res_color = self.pixcol(x, y).data;
        assert(run_cell(entry, self@, yi, x as int, r as int, old_color, res, entry.index(x as int, yi)));
        assert(res_color == res);

        // paint the current row from the start position to the left
        x1 = x - 1;
        while x1 >= 0 && self.pixcol(x1, y).data == old_color
            invariant
                self.wf(),
                entry.wf(),
                wi == entry.width,
                yi == y,
                w == entry.width,
                h == entry.height,
                0 <= x < r <= w,
                0 <= y < h,
                -1 <= x1 < x,
                res == blend_word(old_color, new_color),
                res != old_color,
                run_painted(entry, self@, yi, x1 + 1, r as int, old_color, res),
                r == w || self@.pixels[self@.index(r as int, yi)].data != old_color,
            decreases x1 + 1,
        {
            proof {
                lemma_index_bounds(wi, entry.height as int, x1 as int, yi);
            }
            let ghost before = self@;
            self.pixel(x1, y, Color { data: new_color });
            proof {
                lemma_run_extend(entry, before, self@, yi, x1 + 1, r as int, x1 as int, old_color, new_color);
                if r < w {
                    lemma_index_bounds(wi, entry.height as int, r as int, yi);
                    assert(self@.pixels[self@.index(r as int, yi)] == before.pixels[before.index(r as int, yi)]);
                }
            }
            x1 = x1 - 1;
        }
        let l = x1;
        let ghost mid = self@;
        proof {
            lemma_run_reached(entry, mid, yi, l + 1, r as int, x as int, old_color, res);
            lemma_run_repaints(entry, mid, yi, l + 1, r as int, old_color, res);
        }
        proof {
            assert(row_side_settled(self@, yi, yi - 1, x as int, x as int, old_color));
        }
        x1 = x;
        while x1 < w && self.pixcol(x1, y).data == res_color
            invariant
                self.wf(),
                entry.wf(),
                wi == entry.width,
                yi == y,
                w == entry.width,
                h == entry.height,
                0 <= x < w,
                0 <= y < h,
                -1 <= l < x < r <= w,
                res == blend_word(old_color, new_color),
                res != old_color,
                old_color != new_color,
                entry == old(self)@,
                res_color == res,
                run_painted(entry, mid, yi, l + 1, r as int, old_color, res),
                repaints_only(entry, self@, old_color, res),
                changes_reached(entry, self@, x as int, yi, either_word(old_color, res)),
                row_holds(self@, yi, x as int, x1 as int, res),
                l == -1 || mid.pixels[mid.index(l as int, yi)].data != old_color,
                r == w || mid.pixels[mid.index(r as int, yi)].data != old_color,
                self@.width == entry.width,
                self@.height == entry.height,
                repaints_only(mid, self@, old_color, res),
                fill_closed(mid, self@, old_color),
                x <= x1 <= w,
                row_side_settled(self@, yi, yi - 1, x as int, x1 as int, old_color),
            decreases w - x1,
        {
            proof {
                lemma_index_bounds(wi, entry.height as int, x1 as int, yi);
                assert(row_holds(self@, yi, x as int, x1 + 1, res));
            }
            if y > 0 && self.pixcol(x1, y - 1).data == old_color {
                proof {
                    lemma_index_bounds(wi, entry.height as int, x1 as int, yi - 1);
                    lemma_index_bounds(wi, entry.height as int, x as int, yi);
                    lemma_run_repaints(entry, mid, yi, l + 1, r as int, old_color, res);
                    lemma_repaints_trans(entry, mid, self@, old_color, res);
                    assert(run_cell(entry, mid, yi, l + 1, r as int, old_color, res, entry.index(x as int, yi)));
                    assert(self@.pixels[entry.index(x as int, yi)] != entry.pixels[entry.index(x as int, yi)]);
                    lemma_count_repaint(entry.pixels, self@.pixels, old_color, res);
                    lemma_scan_reached(entry, self@, yi, x as int, x1 + 1, x as int, x1 as int, yi - 1, old_color, res);
                }
                let ghost before = self@;
                self.flood_fill_scanline(x1, y - 1, new_color, old_color);
                proof {
                    lemma_closed_trans(mid, before, self@, old_color, res);
                    lemma_call_reached(entry, before, self@, x as int, yi, x1 as int, yi - 1, old_color, res);
                    lemma_repaints_trans(entry, before, self@, old_color, res);
                    lemma_row_holds_stays(before, self@, yi, x as int, x1 + 1, old_color, res);
                    lemma_repaints_trans(mid, before, self@, old_color, res);
                    lemma_side_stays(before, self@, yi, yi - 1, x as int, x1 as int, old_color, res);
                }
            }
            proof {
                if 0 <= yi - 1 < h {
                    lemma_index_bounds(wi, entry.height as int, x1 as int, yi - 1);
                }
                lemma_side_extend(self@, yi, yi - 1, x as int, x1 as int, x1 as int, old_color);
            }
            x1 = x1 + 1;
        }
        proof {
            if x1 < r {
                lemma_index_bounds(wi, entry.height as int, x1 as int, yi);
                assert(run_cell(entry, mid, yi, l + 1, r as int, old_color, res, entry.index(x1 as int, yi)));
                assert(false);
            }
            assert(row_side_settled(self@, yi, yi - 1, x as int, r as int, old_color));
        }
        let ghost above_right = x1;
        proof {
            assert(self@.pixels[self@.index(x as int, yi)].data == res);
        }
        x1 = x - 1;
        while x1 >= 0 && self.pixcol(x1, y).data == res_color
            invariant
                self.wf(),
                entry.wf(),
                wi == entry.width,
                yi == y,
                w == entry.width,
                h == entry.height,
                0 <= x < w,
                0 <= y < h,
                -1 <= l < x < r <= w,
                res == blend_word(old_color, new_color),
                res != old_color,
                old_color != new_color,
                entry == old(self)@,
                res_color == res,
                run_painted(entry, mid, yi, l + 1, r as int, old_color, res),
                repaints_only(entry, self@, old_color, res),
                changes_reached(entry, self@, x as int, yi, either_word(old_color, res)),
                row_holds(self@, yi, x1 + 1, x + 1, res),
                l == -1 || mid.pixels[mid.index(l as int, yi)].data != old_color,
                r == w || mid.pixels[mid.index(r as int, yi)].data != old_color,
                self@.width == entry.width,
                self@.height == entry.height,
                repaints_only(mid, self@, old_color, res),
                fill_closed(mid, self@, old_color),
                -1 <= x1 < x,
                row_side_settled(self@, yi, yi - 1, x1 + 1, x as int, old_color),
                row_side_settled(self@, yi, yi - 1, x as int, r as int, old_color),
            decreases x1 + 1,
        {
            proof {
                lemma_index_bounds(wi, entry.height as int, x1 as int, yi);
                assert(row_holds(self@, yi, x1 as int, x + 1, res));
            }
            if y > 0 && self.pixcol(x1, y - 1).data == old_color {
                proof {
                    lemma_index_bounds(wi, entry.height as int, x1 as int, yi - 1);
                    lemma_index_bounds(wi, entry.height as int, x as int, yi);
                    lemma_run_repaints(entry, mid, yi, l + 1, r as int, old_color, res);
                    lemma_repaints_trans(entry, mid, self@, old_color, res);
                    assert(run_cell(entry, mid, yi, l + 1, r as int, old_color, res, entry.index(x as int, yi)));
                    assert(self@.pixels[entry.index(x as int, yi)] != entry.pixels[entry.index(x as int, yi)]);
                    lemma_count_repaint(entry.pixels, self@.pixels, old_color, res);
                    lemma_scan_reached(entry, self@, yi, x1 as int, x + 1, x as int, x1 as int, yi - 1, old_color, res);
                }
                let ghost before = self@;
                self.flood_fill_scanline(x1, y - 1, new_color, old_color);
                proof {
                    lemma_closed_trans(mid, before, self@, old_color, res);
                    lemma_call_reached(entry, before, self@, x as int, yi, x1 as int, yi - 1, old_color, res);
                    lemma_repaints_trans(entry, before, self@, old_color, res);
                    lemma_row_holds_stays(before, self@, yi, x1 as int, x + 1, old_color, res);
                    lemma_repaints_trans(mid, before, self@, old_color, res);
                    lemma_side_stays(before, self@, yi, yi - 1, x1 + 1, x as int, old_color, res);
                    lemma_side_stays(before, self@, yi, yi - 1, x as int, r as int, old_color, res);
                }
            }
            proof {
                if 0 <= yi - 1 < h {
                    lemma_index_bounds(wi, entry.height as int, x1 as int, yi - 1);
                }
                lemma_side_extend(self@, yi, yi - 1, x1 + 1, x as int, x1 as int, old_color);
            }
            x1 = x1 - 1;
        }
        proof {
            if x1 >= l + 1 {
                lemma_index_bounds(wi, entry.height as int, x1 as int, yi);
                assert(run_cell(entry, mid, yi, l + 1, r as int, old_color, res, entry.index(x1 as int, yi)));
                assert(false);
            }
            assert(row_side_settled(self@, yi, yi - 1, l + 1, x as int, old_color));
            lemma_side_join(self@, yi, yi - 1, l + 1, x as int, r as int, old_color);
            assert(row_side_settled(self@, yi, yi + 1, x as int, x as int, old_color));
        }
        x1 = x;
        while x1 < w && self.pixcol(x1, y).data == res_color
            invariant
                self.wf(),
                entry.wf(),
                wi == entry.width,
                yi == y,
                w == entry.width,
                h == entry.height,
                0 <= x < w,
                0 <= y < h,
                -1 <= l < x < r <= w,
                res == blend_word(old_color, new_color),
                res != old_color,
                old_color != new_color,
                entry == old(self)@,
                res_color == res,
                run_painted(entry, mid, yi, l + 1, r as int, old_color, res),
                repaints_only(entry, self@, old_color, res),
                changes_reached(entry, self@, x as int, yi, either_word(old_color, res)),
                row_holds(self@, yi, x as int, x1 as int, res),
                l == -1 || mid.pixels[mid.index(l as int, yi)].data != old_color,
                r == w || mid.pixels[mid.index(r as int, yi)].data != old_color,
                self@.width == entry.width,
                self@.height == entry.height,
                repaints_only(mid, self@, old_color, res),
                fill_closed(mid, self@, old_color),
                x <= x1 <= w,
                row_side_settled(self@, yi, yi + 1, x as int, x1 as int, old_color),
                row_side_settled(self@, yi, yi - 1, l + 1, r as int, old_color),
            decreases w - x1,
        {
            proof {
                lemma_index_bounds(wi, entry.height as int, x1 as int, yi);
                assert(row_holds(self@, yi, x as int, x1 + 1, res));
            }
            if y < h - 1 && self.pixcol(x1, y + 1).data == old_color {
                proof {
                    lemma_index_bounds(wi, entry.height as int, x1 as int, yi + 1);
                    lemma_index_bounds(wi, entry.height as int, x as int, yi);
                    lemma_run_repaints(entry, mid, yi, l + 1, r as int, old_color, res);
                    lemma_repaints_trans(entry, mid, self@, old_color, res);
                    assert(run_cell(entry, mid, yi, l + 1, r as int, old_color, res, entry.index(x as int, yi)));
                    assert(self@.pixels[entry.index(x as int, yi)] != entry.pixels[entry.index(x as int, yi)]);
                    lemma_count_repaint(entry.pixels, self@.pixels, old_color, res);
                    lemma_scan_reached(entry, self@, yi, x as int, x1 + 1, x as int, x1 as int, yi + 1, old_color, res);
                }
                let ghost before = self@;
                self.flood_fill_scanline(x1, y + 1, new_color, old_color);
                proof {
                    lemma_closed_trans(mid, before, self@, old_color, res);
                    lemma_call_reached(entry, before, self@, x as int, yi, x1 as int, yi + 1, old_color, res);
                    lemma_repaints_trans(entry, before, self@, old_color, res);
                    lemma_row_holds_stays(before, self@, yi, x as int, x1 + 1, old_color, res);
                    lemma_repaints_trans(mid, before, self@, old_color, res);
                    lemma_side_stays(before, self@, yi, yi + 1, x as int, x1 as int, old_color, res);
                    lemma_side_stays(before, self@, yi, yi - 1, l + 1, r as int, old_color, res);
                }
            }
            proof {
                if 0 <= yi + 1 < h {
                    lemma_index_bounds(wi, entry.height as int, x1 as int, yi + 1);
                }
                lemma_side_extend(self@, yi, yi + 1, x as int, x1 as int, x1 as int, old_color);
            }
            x1 = x1 + 1;
        }
        proof {
            if x1 < r {
                lemma_index_bounds(wi, entry.height as int, x1 as int, yi);
                assert(run_cell(entry, mid, yi, l + 1, r as int, old_color, res, entry.index(x1 as int, yi)));
                assert(false);
            }
        }
        proof {
            assert(self@.pixels[self@.index(x as int, yi)].data == res);
        }
        x1 = x - 1;
        while x1 >= 0 && self.pixcol(x1, y).data == res_color
            invariant
                self.wf(),
                entry.wf(),
                wi == entry.width,
                yi == y,
                w == entry.width,
                h == entry.height,
                0 <= x < w,
                0 <= y < h,
                -1 <= l < x < r <= w,
                res == blend_word(old_color, new_color),
                res != old_color,
                old_color != new_color,
                entry == old(self)@,
                res_color == res,
                run_painted(entry, mid, yi, l + 1, r as int, old_color, res),
                repaints_only(entry, self@, old_color, res),
                changes_reached(entry, self@, x as int, yi, either_word(old_color, res)),
                row_holds(self@, yi, x1 + 1, x + 1, res),
                l == -1 || mid.pixels[mid.index(l as int, yi)].data != old_color,
                r == w || mid.pixels[mid.index(r as int, yi)].data != old_color,
                self@.width == entry.width,
                self@.height == entry.height,
                repaints_only(mid, self@, old_color, res),
                fill_closed(mid, self@, old_color),
                -1 <= x1 < x,
                row_side_settled(self@, yi, yi + 1, x1 + 1, x as int, old_color),
                row_side_settled(self@, yi, yi - 1, l + 1, r as int, old_color),
                row_side_settled(self@, yi, yi + 1, x as int, r as int, old_color),
            decreases x1 + 1,
        {
            proof {
                lemma_index_bounds(wi, entry.height as int, x1 as int, yi);
                assert(row_holds(self@, yi, x1 as int, x + 1, res));
            }
            if y < h - 1 && self.pixcol(x1, y + 1).data == old_color {
                proof {
                    lemma_index_bounds(wi, entry.height as int, x1 as int, yi + 1);
                    lemma_index_bounds(wi, entry.height as int, x as int, yi);
                    lemma_run_repaints(entry, mid, yi, l + 1, r as int, old_color, res);
                    lemma_repaints_trans(entry, mid, self@, old_color, res);
                    assert(run_cell(entry, mid, yi, l + 1, r as int, old_color, res, entry.index(x as int, yi)));
                    assert(self@.pixels[entry.index(x as int, yi)] != entry.pixels[entry.index(x as int, yi)]);
                    lemma_count_repaint(entry.pixels, self@.pixels, old_color, res);
                    lemma_scan_reached(entry, self@, yi, x1 as int, x + 1, x as int, x1 as int, yi + 1, old_color, res);
                }
                let ghost before = self@;
                self.flood_fill_scanline(x1, y + 1, new_color, old_color);
                proof {
                    lemma_closed_trans(mid, before, self@, old_color, res);
                    lemma_call_reached(entry, before, self@, x as int, yi, x1 as int, yi + 1, old_color, res);
                    lemma_repaints_trans(entry, before, self@, old_color, res);
                    lemma_row_holds_stays(before, self@, yi, x1 as int, x + 1, old_color, res);
                    lemma_repaints_trans(mid, before, self@, old_color, res);
                    lemma_side_stays(before, self@, yi, yi + 1, x1 + 1, x as int, old_color, res);
                    lemma_side_stays(before, self@, yi, yi - 1, l + 1, r as int, old_color, res);
                    lemma_side_stays(before, self@, yi, yi + 1, x as int, r as int, old_color, res);
                }
            }
            proof {
                if 0 <= yi + 1 < h {
                    lemma_index_bounds(wi, entry.height as int, x1 as int, yi + 1);
                }
                lemma_side_extend(self@, yi, yi + 1, x1 + 1, x as int, x1 as int, old_color);
            }
            x1 = x1 - 1;
        }
        proof {
            if x1 >= l + 1 {
                lemma_index_bounds(wi, entry.height as int, x1 as int, yi);
                assert(run_cell(entry, mid, yi, l + 1, r as int, old_color, res, entry.index(x1 as int, yi)));
                assert(false);
            }
            lemma_side_join(self@, yi, yi + 1, l + 1, x as int, r as int, old_color);
            lemma_fill_assemble(entry, mid, self@, yi, l + 1, r as int, old_color, res);
            if lacks_word(entry, res) {
                lemma_changes_without(entry, self@, x as int, yi, old_color, res);
            }
            assert(run_cell(entry, mid, yi, l + 1, r as int, old_color, res, entry.index(x as int, yi)));
        }
    }
}

impl Image {
    /// Fills from (x, y) with `color` the region of the start pixel's
    /// color, using the scanline flood fill: the pixels of that color
    /// joined to (x, y) by walks of 4-neighbours get `color` drawn over
    /// them. Nothing changes where (x, y) lies outside the image or drawing
    /// `color` leaves the start pixel's color as it is.
    pub fn fill(&mut self, x: i32, y: i32, color: Color)
        requires
            old(self).wf(),
            old(self)@.width <= i32::MAX,
            old(self)@.height <= i32::MAX,
        ensures
            final(self).wf(),
            ({
                let old_c = old(self)@.pixcol_word(x as int, y as int);
                let res = blend_word(old_c, color.data);
                &&& !fill_changes(old_c, color.data) || !old(self)@.in_bounds(x as int, y as int) ==> final(self)@ == old(self)@
                &&& fill_changes(old_c, color.data) ==> repaints_only(old(self)@, final(self)@, old_c, res)
                &&& fill_changes(old_c, color.data) ==> fill_closed(old(self)@, final(self)@, old_c)
                &&& fill_changes(old_c, color.data) && old(self)@.in_bounds(x as int, y as int) ==> final(self)@.pixels[old(self)@.index(x as int, y as int)].data == res
                &&& changes_reached(old(self)@, final(self)@, x as int, y as int, either_word(old_c, res))
                &&& lacks_word(old(self)@, res) ==> changes_reached(old(self)@, final(self)@, x as int, y as int, only_word(old_c))
            }),
    {
        let rgba = self.pixcol(x, y);
        self.flood_fill_scanline(x, y, color.data, rgba.data);
    }

    /// Recursive four-way flood fill: repaints (x, y) when it is inside the
    /// image and holds `old_color` (and drawing `new_color` over it changes
    /// it), then fills from its four neighbours. Every repainted pixel is
    /// joined to (x, y) by a walk of 4-neighbours over pixels of
    /// `old_color`.
    pub fn flood_fill4(&mut self, x: i32, y: i32, new_color: u32, old_color: u32)
        requires
            old(self).wf(),
            old(self)@.width <= i32::MAX,
            old(self)@.height <= i32::MAX,
        ensures
            final(self).wf(),
            fill_changes(old_color, new_color) ==> repaints_only(old(self)@, final(self)@, old_color, blend_word(old_color, new_color)),
            fill_changes(old_color, new_color) ==> fill_closed(old(self)@, final(self)@, old_color),
            fill_changes(old_color, new_color) && old(self)@.in_bounds(x as int, y as int)
                && old(self)@.pixels[old(self)@.index(x as int, y as int)].data == old_color
                ==> final(self)@.pixels[old(self)@.index(x as int, y as int)].data == blend_word(old_color, new_color),
            changes_reached(old(self)@, final(self)@, x as int, y as int, only_word(old_color)),
            !fill_changes(old_color, new_color) || !old(self)@.in_bounds(x as int, y as int)
                || old(self)@.pixels[old(self)@.index(x as int, y as int)].data != old_color
                ==> final(self)@ == old(self)@,
        decreases count_word(old(self)@.pixels, old_color),
    {
        if blend(old_color, new_color) == old_color {
            return;
        }
        let ghost entry = self@;
        proof {
            if entry.in_bounds(x as int, y as int) {
                lemma_index_bounds(entry.width as int, entry.height as int, x as int, y as int);
            }
        }
        if x >= 0 && x < self.width() as i32 && y >= 0 && y < self.height() as i32
            && self.pixcol(x, y).data == old_color && self.pixcol(x, y).data != new_color {
            let ghost res = blend_word(old_color, new_color);
            let ghost w = entry.width as int;
            let ghost h = entry.height as int;
            let ghost p = entry.index(x as int, y as int);
            let ghost ok = only_word(old_color);
            proof {
                lemma_index_bounds(w, h, x as int, y as int);
            }
            self.pixel(x, y, Color { data: new_color });
            let ghost mid = self@;
            proof {
                assert forall|i: int| 0 <= i < entry.pixels.len() implies #[trigger] mid.pixels[i] == entry.pixels[i] || (entry.pixels[i].data
                    == old_color && mid.pixels[i].data == res) by {
                    if i != p {
                        assert(mid.pixels[i] == entry.pixels[i]);
                    }
                }
                assert(mid.pixels[p].data == res);
                assert(mid.pixels[p] != entry.pixels[p]);
                lemma_count_repaint(entry.pixels, mid.pixels, old_color, res);
                assert forall|px: int, py: int|
                    mid.in_bounds(px, py) && #[trigger] mid.pixels[mid.index(px, py)] != entry.pixels[entry.index(px, py)]
                        implies px == x && py == y by {
                    lemma_index_bounds(w, h, px, py);
                    lemma_index_row(w, x as int, y as int, px, py);
                }
                assert forall|px: int, py: int|
                    entry.in_bounds(px, py) && #[trigger] mid.pixels[entry.index(px, py)] != entry.pixels[entry.index(px, py)]
                        implies reached(entry, x as int, y as int, px, py, ok) by {
                    assert(mid.pixels[mid.index(px, py)] != entry.pixels[entry.index(px, py)]);
                    lemma_reached_here(entry, x as int, y as int, ok);
                }
                lemma_words_back(entry, mid, old_color, res);
                lemma_neighbour_reached(entry, x as int, y as int, x + 1, y as int, old_color);
                lemma_neighbour_reached(entry, x as int, y as int, x - 1, y as int, old_color);
                lemma_neighbour_reached(entry, x as int, y as int, x as int, y + 1, old_color);
                lemma_neighbour_reached(entry, x as int, y as int, x as int, y - 1, old_color);
            }
            self.flood_fill4(x + 1, y, new_color, old_color);
            let ghost s1 = self@;
            proof {
                lemma_call_join(entry, mid, s1, x as int, y as int, x + 1, y as int, ok);
                lemma_repaints_trans(entry, mid, s1, old_color, res);
                lemma_count_repaint(entry.pixels, s1.pixels, old_color, res);
                lemma_words_back(entry, s1, old_color, res);
            }
            self.flood_fill4(x - 1, y, new_color, old_color);
            let ghost s2 = self@;
            proof {
                lemma_call_join(entry, s1, s2, x as int, y as int, x - 1, y as int, ok);
                lemma_repaints_trans(entry, s1, s2, old_color, res);
                lemma_count_repaint(entry.pixels, s2.pixels, old_color, res);
                lemma_words_back(entry, s2, old_color, res);
            }
            self.flood_fill4(x, y + 1, new_color, old_color);
            let ghost s3 = self@;
            proof {
                lemma_call_join(entry, s2, s3, x as int, y as int, x as int, y + 1, ok);
                lemma_repaints_trans(entry, s2, s3, old_color, res);
                lemma_count_repaint(entry.pixels, s3.pixels, old_color, res);
                lemma_words_back(entry, s3, old_color, res);
            }
            self.flood_fill4(x, y - 1, new_color, old_color);
            proof {
                lemma_call_join(entry, s3, self@, x as int, y as int, x as int, y - 1, ok);
                let fin = self@;
                lemma_repaints_trans(entry, s3, fin, old_color, res);
                lemma_repaints_trans(mid, s1, s2, old_color, res);
                lemma_repaints_trans(mid, s2, s3, old_color, res);
                lemma_closed_trans(mid, s1, s2, old_color, res);
                lemma_closed_trans(mid, s2, s3, old_color, res);
                lemma_closed_trans(mid, s3, fin, old_color, res);
                lemma_repaints_trans(mid, s3, fin, old_color, res);
                // each neighbour of (x, y) no longer holds old_color
                if x > 0 {
                    lemma_index_bounds(w, h, x - 1, y as int);
                    let j = entry.index(x - 1, y as int);
                    assert(s2.pixels[j].data != old_color);
                    assert(fin.pixels[j] == s2.pixels[j] || (s2.pixels[j].data == old_color && fin.pixels[j].data == res));
                }
                if x + 1 < w {
                    lemma_index_bounds(w, h, x + 1, y as int);
                    let j = entry.index(x + 1, y as int);
                    assert(s1.pixels[j].data != old_color);
                    assert(s2.pixels[j] == s1.pixels[j] || (s1.pixels[j].data == old_color && s2.pixels[j].data == res));
                    assert(fin.pixels[j] == s2.pixels[j] || (s2.pixels[j].data == old_color && fin.pixels[j].data == res));
                }
                if y + 1 < h {
                    lemma_index_bounds(w, h, x as int, y + 1);
                    let j = entry.index(x as int, y + 1);
                    assert(s3.pixels[j].data != old_color);
                    assert(fin.pixels[j] == s3.pixels[j] || (s3.pixels[j].data == old_color && fin.pixels[j].data == res));
                }
                if y > 0 {
                    lemma_index_bounds(w, h, x as int, y - 1);
                    let j = entry.index(x as int, y - 1);
                    assert(fin.pixels[j].data != old_color);
                }
                assert(fin.pixels[p] == mid.pixels[p] || (mid.pixels[p].data == old_color && fin.pixels[p].data == res));
                assert(fin.pixels[p].data == res);
                assert forall|px: int, py: int|
                    fin.in_bounds(px, py) && #[trigger] fin.pixels[fin.index(px, py)] != entry.pixels[entry.index(px, py)]
                        implies settled(fin, px, py, old_color) by {
                    lemma_index_bounds(w, h, px, py);
                    if mid.pixels[mid.index(px, py)] != entry.pixels[entry.index(px, py)] {
                        assert(px == x && py == y);
                    } else {
                        assert(fin.pixels[fin.index(px, py)] != mid.pixels[mid.index(px, py)]);
                    }
                }
            }
        }
    }
}

/// Every pixel that changed from `a` to `b` has no left or right
/// neighbour left in `b` with the word `old_c`.
pub open spec fn rows_closed(a: ImageView, b: ImageView, old_c: u32) -> bool {
    forall|x: int, y: int|
        b.in_bounds(x, y) && #[trigger] b.pixels[b.index(x, y)] != a.pixels[a.index(x, y)] ==> {
            &&& (x > 0 ==> b.pixels[b.index(x - 1, y)].data != old_c)
            &&& (x + 1 < b.width ==> b.pixels[b.index(x + 1, y)].data != old_c)
        }
}

proof fn lemma_rows_closed_trans(a: ImageView, b: ImageView, c: ImageView, old_c: u32, res: u32)
    requires
        a.wf(),
        repaints_only(a, b, old_c, res),
        repaints_only(b, c, old_c, res),
        rows_closed(a, b, old_c),
        rows_closed(b, c, old_c),
        res != old_c,
    ensures
        rows_closed(a, c, old_c),
{
    assert forall|x: int, y: int|
        c.in_bounds(x, y) && #[trigger] c.pixels[c.index(x, y)] != a.pixels[a.index(x, y)] implies {
            &&& (x > 0 ==> c.pixels[c.index(x - 1, y)].data != old_c)
            &&& (x + 1 < c.width ==> c.pixels[c.index(x + 1, y)].data != old_c)
        } by {
        lemma_index_bounds(a.width as int, a.height as int, x, y);
        let i = a.index(x, y);
        assert(c.pixels[i] == b.pixels[i] || (b.pixels[i].data == old_c && c.pixels[i].data == res));
        if c.pixels[i] != b.pixels[i] {
            assert(c.pixels[c.index(x, y)] != b.pixels[b.index(x, y)]);
        } else {
            assert(b.pixels[b.index(x, y)] != a.pixels[a.index(x, y)]);
            if x > 0 {
                let j = a.index(x - 1, y);
                assert(c.pixels[j] == b.pixels[j] || (b.pixels[j].data == old_c && c.pixels[j].data == res));
            }
            if x + 1 < a.width {
                let j = a.index(x + 1, y);
                assert(c.pixels[j] == b.pixels[j] || (b.pixels[j].data == old_c && c.pixels[j].data == res));
            }
        }
    }
}

impl Image {
    /// Line-wise flood fill: when (x, y) is inside the image with `x >= 1`
    /// and holds `old_color` (and drawing `new_color` over it changes it),
    /// repaints the run of `old_color` pixels of its row around it, then
    /// does the same from (x, y + 1) and (x, y - 1). Every repainted pixel
    /// is joined to (x, y) by a walk of 4-neighbours over pixels of
    /// `old_color`.
    pub fn flood_fill_line(&mut self, x: i32, y: i32, new_color: u32, old_color: u32)
        requires
            old(self).wf(),
            old(self)@.width <= i32::MAX,
            old(self)@.height <= i32::MAX,
        ensures
            final(self).wf(),
            fill_changes(old_color, new_color) ==> repaints_only(old(self)@, final(self)@, old_color, blend_word(old_color, new_color)),
            fill_changes(old_color, new_color) ==> rows_closed(old(self)@, final(self)@, old_color),
            fill_changes(old_color, new_color) && x >= 1 && old(self)@.in_bounds(x as int, y as int)
                && old(self)@.pixels[old(self)@.index(x as int, y as int)].data == old_color
                ==> final(self)@.pixels[old(self)@.index(x as int, y as int)].data == blend_word(old_color, new_color),
            changes_reached(old(self)@, final(self)@, x as int, y as int, only_word(old_color)),
            !fill_changes(old_color, new_color) || x < 1 || !old(self)@.in_bounds(x as int, y as int)
                || old(self)@.pixels[old(self)@.index(x as int, y as int)].data != old_color
                ==> final(self)@ == old(self)@,
        decreases count_word(old(self)@.pixels, old_color),
    {
        if blend(old_color, new_color) == old_color {
            return;
        }
        let ghost entry = self@;
        proof {
            if entry.in_bounds(x as int, y as int) {
                lemma_index_bounds(entry.width as int, entry.height as int, x as int, y as int);
            }
        }
        let w = self.width() as i32;
        if x >= 1 && x < w && y >= 0 && y < self.height() as i32
            && self.pixcol(x, y).data == old_color && self.pixcol(x, y).data != new_color {
            let ghost res = blend_word(old_color, new_color);
            let ghost wi = entry.width as int;
            let ghost yi = y as int;
            let mut x1: i32 = x;
            while x1 >= 0 && x1 < w && self.pixcol(x1, y).data == old_color
                invariant
                    self.wf(),
                    entry.wf(),
                    wi == entry.width,
                    yi == y,
                    w == entry.width,
                    1 <= x < w,
                    0 <= y < entry.height,
                    x <= x1 <= w,
                    res == blend_word(old_color, new_color),
                    res != old_color,
                    run_painted(entry, self@, yi, x as int, x1 as int, old_color, res),
                decreases w - x1,
            {
                proof {
                    lemma_index_bounds(wi, entry.height as int, x1 as int, yi);
                }
                let ghost before = self@;
                self.pixel(x1, y, Color { data: new_color });
                proof {
                    lemma_run_extend(entry, before, self@, yi, x as int, x1 as int, x1 as int, old_color, new_color);
                }
                x1 = x1 + 1;
            }
            let r = x1;
            proof {
                lemma_index_bounds(wi, entry.height as int, x as int, yi);
                assert(run_cell(entry, self@, yi, x as int, r as int, old_color, res, entry.index(x as int, yi)));
            }
            x1 = x - 1;
            while x1 >= 0 && x1 < w && self.pixcol(x1, y).data == old_color
                invariant
                    self.wf(),
                    entry.wf(),
                    wi == entry.width,
                    yi == y,
                    w == entry.width,
                    1 <= x < r <= w,
                    0 <= y < entry.height,
                    -1 <= x1 < x,
                    res == blend_word(old_color, new_color),
                    res != old_color,
                    run_painted(entry, self@, yi, x1 + 1, r as int, old_color, res),
                    r == w || self@.pixels[self@.index(r as int, yi)].data != old_color,
                decreases x1 + 1,
            {
                proof {
                    lemma_index_bounds(wi, entry.height as int, x1 as int, yi);
                }
                let ghost before = self@;
                self.pixel(x1, y, Color { data: new_color });
                proof {
                    lemma_run_extend(entry, before, self@, yi, x1 + 1, r as int, x1 as int, old_color, new_color);
                    if r < w {
                        lemma_index_bounds(wi, entry.height as int, r as int, yi);
                        assert(self@.pixels[self@.index(r as int, yi)] == before.pixels[before.index(r as int, yi)]);
                    }
                }
                x1 = x1 - 1;
            }
            let ghost mid = self@;
            let ghost lo = x1 + 1;
            proof {
                let h = entry.height as int;
                lemma_run_repaints(entry, mid, yi, lo, r as int, old_color, res);
                if lo - 1 >= 0 {
                    lemma_index_bounds(wi, h, lo - 1, yi);
                }
                lemma_index_bounds(wi, h, x as int, yi);
                assert(run_cell(entry, mid, yi, lo, r as int, old_color, res, entry.index(x as int, yi)));
                lemma_count_repaint(entry.pixels, mid.pixels, old_color, res);
                assert forall|px: int, py: int|
                    mid.in_bounds(px, py) && #[trigger] mid.pixels[mid.index(px, py)] != entry.pixels[entry.index(px, py)]
                        implies {
                        &&& (px > 0 ==> mid.pixels[mid.index(px - 1, py)].data != old_color)
                        &&& (px + 1 < mid.width ==> mid.pixels[mid.index(px + 1, py)].data != old_color)
                    } by {
                    lemma_index_bounds(wi, h, px, py);
                    let i = entry.index(px, py);
                    assert(run_cell(entry, mid, yi, lo, r as int, old_color, res, i));
                    lemma_index_bounds(wi, h, lo, yi);
                    lemma_index_bounds(wi, h, r - 1, yi);
                    lemma_index_row(wi, px, py, if i - entry.index(lo, yi) + lo < wi { i - entry.index(lo, yi) + lo } else { 0 }, yi);
                    if px > 0 && px - 1 >= lo {
                        assert(run_cell(entry, mid, yi, lo, r as int, old_color, res, entry.index(px - 1, yi)));
                    }
                    if px + 1 < wi && px + 1 < r {
                        lemma_index_bounds(wi, h, px + 1, yi);
                        assert(run_cell(entry, mid, yi, lo, r as int, old_color, res, entry.index(px + 1, yi)));
                    }
                }
            }
            proof {
                lemma_run_reached(entry, mid, yi, lo, r as int, x as int, old_color, res);
                lemma_words_back(entry, mid, old_color, res);
                lemma_neighbour_reached(entry, x as int, yi, x as int, yi + 1, old_color);
                lemma_neighbour_reached(entry, x as int, yi, x as int, yi - 1, old_color);
            }
            self.flood_fill_line(x, y + 1, new_color, old_color);
            let ghost s1 = self@;
            proof {
                lemma_call_join(entry, mid, s1, x as int, yi, x as int, yi + 1, only_word(old_color));
                lemma_repaints_trans(entry, mid, s1, old_color, res);
                lemma_count_repaint(entry.pixels, s1.pixels, old_color, res);
                lemma_words_back(entry, s1, old_color, res);
            }
            self.flood_fill_line(x, y - 1, new_color, old_color);
            proof {
                lemma_call_join(entry, s1, self@, x as int, yi, x as int, yi - 1, only_word(old_color));
                let fin = self@;
                lemma_repaints_trans(entry, s1, fin, old_color, res);
                lemma_repaints_trans(mid, s1, fin, old_color, res);
                lemma_rows_closed_trans(mid, s1, fin, old_color, res);
                lemma_rows_closed_trans(entry, mid, fin, old_color, res);
                let p = entry.index(x as int, yi);
                assert(run_cell(entry, mid, yi, lo, r as int, old_color, res, p));
                assert(s1.pixels[p] == mid.pixels[p] || (mid.pixels[p].data == old_color && s1.pixels[p].data == res));
                assert(fin.pixels[p] == s1.pixels[p] || (s1.pixels[p].data == old_color && fin.pixels[p].data == res));
            }
        }
    }
}

} // verus!

verus! {

/// The word a pixel holding `old_c` at (x, y) gets when `new_c` is painted
/// there through the canvas's mask.
pub open spec fn masked_result(c: CanvasView, x: int, y: int, old_c: u32, new_c: u32) -> u32 {
    blend_word(old_c, masked_word(c.mask, c.mask_enabled, x, y, new_c))
}

/// Painting `new_c` through the mask changes every pixel of the image that
/// holds `old_c`: without this the masked fill could go round forever.
pub open spec fn paint_changes(c: CanvasView, old_c: u32, new_c: u32) -> bool {
    forall|x: int, y: int| c.image.in_bounds(x, y) ==> #[trigger] masked_result(c, x, y, old_c, new_c) != old_c
}

/// `path` is a walk of 4-neighbours inside `a` over pixels of word `old_c`.
pub open spec fn old_path(a: ImageView, path: Seq<(int, int)>, old_c: u32) -> bool {
    &&& path.len() >= 1
    &&& forall|i: int| 0 <= i < path.len() ==> a.in_bounds(#[trigger] path[i].0, path[i].1)
        && a.pixels[a.index(path[i].0, path[i].1)].data == old_c
    &&& forall|i: int| 0 <= i < path.len() - 1 ==> adjacent4(#[trigger] path[i], path[i + 1])
}

/// A scanline fill that repainted its start pixel has repainted every pixel
/// that a walk over pixels of the old word leads to from the start: the
/// whole region of the start pixel's color.
pub proof fn lemma_fill_covers_region(a: ImageView, b: ImageView, path: Seq<(int, int)>, old_c: u32, res: u32)
    requires
        a.wf(),
        repaints_only(a, b, old_c, res),
        fill_closed(a, b, old_c),
        res != old_c,
        old_path(a, path, old_c),
        b.pixels[a.index(path[0].0, path[0].1)].data == res,
    ensures
        b.pixels[a.index(path.last().0, path.last().1)].data == res,
    decreases path.len(),
{
    if path.len() > 1 {
        let init = path.drop_last();
        assert(old_path(a, init, old_c)) by {
            assert forall|i: int| 0 <= i < init.len() implies a.in_bounds(#[trigger] init[i].0, init[i].1)
                && a.pixels[a.index(init[i].0, init[i].1)].data == old_c by {
                assert(init[i] == path[i]);
            }
            assert forall|i: int| 0 <= i < init.len() - 1 implies adjacent4(#[trigger] init[i], init[i + 1]) by {
                assert(init[i] == path[i] && init[i + 1] == path[i + 1]);
            }
        }
        lemma_fill_covers_region(a, b, init, old_c, res);
        let n = path.len() - 1;
        let p = path[n - 1];
        let q = path[n];
        assert(init.last() == p);
        assert(adjacent4(path[n - 1], path[n]));
        assert(a.in_bounds(path[n - 1].0, path[n - 1].1));
        assert(a.in_bounds(path[n].0, path[n].1));
        lemma_index_bounds(a.width as int, a.height as int, p.0, p.1);
        lemma_index_bounds(a.width as int, a.height as int, q.0, q.1);
        let i = a.index(p.0, p.1);
        let j = a.index(q.0, q.1);
        assert(a.pixels[i].data == old_c);
        assert(b.pixels[b.index(p.0, p.1)] != a.pixels[a.index(p.0, p.1)]);
        assert(settled(b, p.0, p.1, old_c));
        assert(b.pixels[j] == a.pixels[j] || (a.pixels[j].data == old_c && b.pixels[j].data == res));
        assert(a.pixels[j].data == old_c);
        if q.0 == p.0 + 1 {
            assert(b.pixels[b.index(p.0 + 1, p.1)].data != old_c);
        } else if q.0 == p.0 - 1 {
            assert(b.pixels[b.index(p.0 - 1, p.1)].data != old_c);
        } else if q.1 == p.1 + 1 {
            assert(b.pixels[b.index(p.0, p.1 + 1)].data != old_c);
        } else {
            assert(b.pixels[b.index(p.0, p.1 - 1)].data != old_c);
        }
    }
}

/// `b` is `a` with some pixels that held `old_c` painted with `new_c`
/// through the mask of `c`, and no other change.
pub open spec fn repaints_masked(c: CanvasView, a: ImageView, b: ImageView, old_c: u32, new_c: u32) -> bool {
    &&& b.width == a.width
    &&& b.height == a.height
    &&& b.pixels.len() == a.pixels.len()
    &&& forall|x: int, y: int|
        a.in_bounds(x, y) ==> #[trigger] b.pixels[a.index(x, y)] == a.pixels[a.index(x, y)] || (a.pixels[a.index(x, y)].data
            == old_c && b.pixels[a.index(x, y)].data == masked_result(c, x, y, old_c, new_c))
}

/// Every pixel of row `y` from column `x` to column `px` (both included)
/// holds `old_c` in `v`.
pub open spec fn run_between(v: ImageView, y: int, x: int, px: int, old_c: u32) -> bool {
    forall|q: int| (if x <= px { x <= q <= px } else { px <= q <= x }) ==> #[trigger] v.pixels[v.index(q, y)].data == old_c
}

/// The pixels of row `y` in columns `[lo, hi)` of `v` hold what painting
/// through the mask of `c` gives over `old_c`.
pub open spec fn row_painted(c: CanvasView, v: ImageView, y: int, lo: int, hi: int, old_c: u32, new_c: u32) -> bool {
    forall|q: int| lo <= q < hi ==> #[trigger] v.pixels[c.image.index(q, y)].data == masked_result(c, q, y, old_c, new_c)
}

/// A painted run stays painted under a later masked repaint.
pub proof fn lemma_row_stays(c: CanvasView, a: ImageView, b: ImageView, y: int, lo: int, hi: int, old_c: u32, new_c: u32)
    requires
        c.image.wf(),
        a.width == c.image.width,
        a.height == c.image.height,
        0 <= lo,
        hi <= c.image.width,
        0 <= y < c.image.height,
        repaints_masked(c, a, b, old_c, new_c),
        paint_changes(c, old_c, new_c),
        row_painted(c, a, y, lo, hi, old_c, new_c),
    ensures
        row_painted(c, b, y, lo, hi, old_c, new_c),
{
    assert forall|q: int| lo <= q < hi implies #[trigger] b.pixels[c.image.index(q, y)].data == masked_result(c, q, y, old_c, new_c) by {
        assert(a.pixels[c.image.index(q, y)].data == masked_result(c, q, y, old_c, new_c));
        assert(a.in_bounds(q, y));
        assert(masked_result(c, q, y, old_c, new_c) != old_c);
        assert(b.pixels[a.index(q, y)] == a.pixels[a.index(q, y)] || (a.pixels[a.index(q, y)].data
            == old_c && b.pixels[a.index(q, y)].data == masked_result(c, q, y, old_c, new_c)));
    }
}

/// After a closed fill from a pixel of `old_c`, the whole run of `old_c`
/// pixels through it in its row is repainted.
pub proof fn lemma_closed_run(a: ImageView, b: ImageView, x: int, y: int, px: int, old_c: u32, res: u32)
    requires
        a.wf(),
        a.in_bounds(x, y),
        a.in_bounds(px, y),
        repaints_only(a, b, old_c, res),
        fill_closed(a, b, old_c),
        res != old_c,
        b.pixels[a.index(x, y)].data == res,
        run_between(a, y, x, px, old_c),
    ensures
        b.pixels[a.index(px, y)].data == res,
    decreases if x <= px { px - x } else { x - px },
{
    if px != x {
        let prev = if x < px { px - 1 } else { px + 1 };
        assert(run_between(a, y, x, prev, old_c)) by {
            assert forall|q: int| (if x <= prev { x <= q <= prev } else { prev <= q <= x }) implies #[trigger] a.pixels[a.index(q, y)].data == old_c by {
                assert(if x <= px { x <= q <= px } else { px <= q <= x });
            }
        }
        lemma_closed_run(a, b, x, y, prev, old_c, res);
        lemma_index_bounds(a.width as int, a.height as int, prev, y);
        lemma_index_bounds(a.width as int, a.height as int, px, y);
        let i = a.index(prev, y);
        let j = a.index(px, y);
        assert(a.pixels[i].data == old_c);
        assert(b.pixels[i] != a.pixels[i]);
        assert(b.pixels[b.index(prev, y)] != a.pixels[a.index(prev, y)]);
        assert(settled(b, prev, y, old_c));
        assert(a.pixels[j].data == old_c);
        assert(b.pixels[j] == a.pixels[j] || (a.pixels[j].data == old_c && b.pixels[j].data == res));
        if x < px {
            assert(b.pixels[b.index(prev + 1, y)].data != old_c);
        } else {
            assert(b.pixels[b.index(prev - 1, y)].data != old_c);
        }
    }
}

pub proof fn lemma_masked_trans(c: CanvasView, a: ImageView, b: ImageView, d: ImageView, old_c: u32, new_c: u32)
    requires
        repaints_masked(c, a, b, old_c, new_c),
        repaints_masked(c, b, d, old_c, new_c),
        paint_changes(c, old_c, new_c),
        c.image.width == a.width,
        c.image.height == a.height,
    ensures
        repaints_masked(c, a, d, old_c, new_c),
{
    assert forall|x: int, y: int| a.in_bounds(x, y) implies #[trigger] d.pixels[a.index(x, y)] == a.pixels[a.index(x, y)] || (a.pixels[a.index(x, y)].data
        == old_c && d.pixels[a.index(x, y)].data == masked_result(c, x, y, old_c, new_c)) by {
        assert(b.pixels[a.index(x, y)] == a.pixels[a.index(x, y)] || (a.pixels[a.index(x, y)].data
            == old_c && b.pixels[a.index(x, y)].data == masked_result(c, x, y, old_c, new_c)));
        assert(d.pixels[b.index(x, y)] == b.pixels[b.index(x, y)] || (b.pixels[b.index(x, y)].data
            == old_c && d.pixels[b.index(x, y)].data == masked_result(c, x, y, old_c, new_c)));
        assert(masked_result(c, x, y, old_c, new_c) != old_c);
    }
}

/// Painting through the mask a pixel that still holds `old_c` keeps `b` a
/// masked repaint of `a`.
pub proof fn lemma_masked_step(c: CanvasView, a: ImageView, b: ImageView, x: int, y: int, old_c: u32, new_c: u32)
    requires
        a.wf(),
        repaints_masked(c, a, b, old_c, new_c),
        a.in_bounds(x, y),
        b.pixels[a.index(x, y)].data == old_c,
    ensures
        repaints_masked(c, a, b.with_pixel(x, y, masked_word(c.mask, c.mask_enabled, x, y, new_c)), old_c, new_c),
        b.with_pixel(x, y, masked_word(c.mask, c.mask_enabled, x, y, new_c)).pixels[a.index(x, y)].data
            == masked_result(c, x, y, old_c, new_c),
{
    let d = b.with_pixel(x, y, masked_word(c.mask, c.mask_enabled, x, y, new_c));
    lemma_index_bounds(a.width as int, a.height as int, x, y);
    assert forall|px: int, py: int| a.in_bounds(px, py) implies #[trigger] d.pixels[a.index(px, py)] == a.pixels[a.index(px, py)] || (a.pixels[a.index(px, py)].data
        == old_c && d.pixels[a.index(px, py)].data == masked_result(c, px, py, old_c, new_c)) by {
        lemma_index_bounds(a.width as int, a.height as int, px, py);
        assert(b.pixels[a.index(px, py)] == a.pixels[a.index(px, py)] || (a.pixels[a.index(px, py)].data
            == old_c && b.pixels[a.index(px, py)].data == masked_result(c, px, py, old_c, new_c)));
        if a.index(px, py) == a.index(x, y) {
            lemma_index_row(a.width as int, x, y, px, py);
        }
    }
}

/// How many pixels hold `old_c` falls when a masked repaint changes one.
pub proof fn lemma_masked_count(c: CanvasView, a: ImageView, b: ImageView, x: int, y: int, old_c: u32, new_c: u32)
    requires
        a.wf(),
        repaints_masked(c, a, b, old_c, new_c),
        paint_changes(c, old_c, new_c),
        c.image.width == a.width,
        c.image.height == a.height,
        a.in_bounds(x, y),
        b.pixels[a.index(x, y)] != a.pixels[a.index(x, y)],
    ensures
        count_word(b.pixels, old_c) < count_word(a.pixels, old_c),
{
    lemma_index_bounds(a.width as int, a.height as int, x, y);
    assert forall|i: int| 0 <= i < a.pixels.len() implies #[trigger] b.pixels[i] == a.pixels[i] || (a.pixels[i].data == old_c
        && b.pixels[i].data != old_c) by {
        let w = a.width as int;
        lemma_masked_split(i, w, a.height as int);
        let (px, py) = (i % w, i / w);
        assert(a.index(px, py) == i);
        assert(b.pixels[a.index(px, py)] == a.pixels[a.index(px, py)] || (a.pixels[a.index(px, py)].data
            == old_c && b.pixels[a.index(px, py)].data == masked_result(c, px, py, old_c, new_c)));
        assert(masked_result(c, px, py, old_c, new_c) != old_c);
    }
    lemma_count_drop(a.pixels, b.pixels, old_c, a.index(x, y));
}

proof fn lemma_masked_split(i: int, w: int, h: int)
    requires
        0 <= i < w * h,
        0 < w,
    ensures
        0 <= i / w < h,
        0 <= i % w < w,
        i == (i / w) * w + i % w,
{
    vstd::arithmetic::div_mod::lemma_fundamental_div_mod(i, w);
    vstd::arithmetic::div_mod::lemma_mod_pos_bound(i, w);
    assert(0 <= i / w < h) by (nonlinear_arith)
        requires
            i == w * (i / w) + i % w,
            0 <= i % w < w,
            0 <= i < w * h,
            0 < w,
    ;
    assert(w * (i / w) == (i / w) * w) by (nonlinear_arith);
}

proof fn lemma_count_drop(a: Seq<Color>, b: Seq<Color>, old_c: u32, k: int)
    requires
        a.len() == b.len(),
        0 <= k < a.len(),
        b[k] != a[k],
        forall|i: int| 0 <= i < a.len() ==> #[trigger] b[i] == a[i] || (a[i].data == old_c && b[i].data != old_c),
    ensures
        count_word(b, old_c) < count_word(a, old_c),
    decreases a.len(),
{
    let n = a.len() - 1;
    let (a2, b2) = (a.drop_last(), b.drop_last());
    assert forall|i: int| 0 <= i < a2.len() implies #[trigger] b2[i] == a2[i] || (a2[i].data == old_c && b2[i].data != old_c) by {
        assert(b[i] == a[i] || (a[i].data == old_c && b[i].data != old_c));
    }
    assert(b[n] == a[n] || (a[n].data == old_c && b[n].data != old_c));
    if k == n {
        lemma_count_no_more(a2, b2, old_c);
    } else {
        lemma_count_drop(a2, b2, old_c, k);
    }
}

proof fn lemma_count_no_more(a: Seq<Color>, b: Seq<Color>, old_c: u32)
    requires
        a.len() == b.len(),
        forall|i: int| 0 <= i < a.len() ==> #[trigger] b[i] == a[i] || (a[i].data == old_c && b[i].data != old_c),
    ensures
        count_word(b, old_c) <= count_word(a, old_c),
    decreases a.len(),
{
    if a.len() > 0 {
        let n = a.len() - 1;
        let (a2, b2) = (a.drop_last(), b.drop_last());
        assert forall|i: int| 0 <= i < a2.len() implies #[trigger] b2[i] == a2[i] || (a2[i].data == old_c && b2[i].data != old_c) by {
            assert(b[i] == a[i] || (a[i].data == old_c && b[i].data != old_c));
        }
        assert(b[n] == a[n] || (a[n].data == old_c && b[n].data != old_c));
        lemma_count_no_more(a2, b2, old_c);
    }
}

} // verus!

verus! {

/// The old word, and every word that painting `new_c` through the mask
/// of `c` over `old_c` gives somewhere in its image.
pub open spec fn masked_words(mask: ImageView, enabled: bool, width: u32, height: u32, old_c: u32, new_c: u32) -> spec_fn(u32) -> bool {
    |w: u32| w == old_c || exists|p: int, q: int|
        0 <= p < width && 0 <= q < height && blend_word(old_c, #[trigger] masked_word(mask, enabled, p, q, new_c)) == w
}

/// `masked_words` for the canvas `c`.
pub open spec fn canvas_words(c: CanvasView, old_c: u32, new_c: u32) -> spec_fn(u32) -> bool {
    masked_words(c.mask, c.mask_enabled, c.image.width, c.image.height, old_c, new_c)
}

/// The word painted at (x, y) is one of the canvas's words.
pub proof fn lemma_canvas_word(c: CanvasView, x: int, y: int, old_c: u32, new_c: u32)
    requires
        c.image.in_bounds(x, y),
    ensures
        canvas_words(c, old_c, new_c)(masked_result(c, x, y, old_c, new_c)),
{
    let w = masked_result(c, x, y, old_c, new_c);
    assert(blend_word(old_c, masked_word(c.mask, c.mask_enabled, x, y, new_c)) == w);
}

/// After a masked repaint, a pixel holding one of the canvas's words held
/// one before.
pub proof fn lemma_canvas_words_back(c: CanvasView, a: ImageView, b: ImageView, old_c: u32, new_c: u32)
    requires
        a.wf(),
        c.image.width == a.width,
        c.image.height == a.height,
        repaints_masked(c, a, b, old_c, new_c),
    ensures
        forall|i: int| 0 <= i < a.pixels.len() && canvas_words(c, old_c, new_c)(#[trigger] b.pixels[i].data)
            ==> canvas_words(c, old_c, new_c)(a.pixels[i].data),
{
    let ok = canvas_words(c, old_c, new_c);
    assert forall|i: int| 0 <= i < a.pixels.len() && ok(#[trigger] b.pixels[i].data) implies ok(a.pixels[i].data) by {
        let w = a.width as int;
        assert(w > 0) by (nonlinear_arith)
            requires
                a.pixels.len() == w * a.height,
                0 <= i < a.pixels.len(),
                w >= 0,
        ;
        lemma_block_split(i, w, a.height as int);
        let (px, py) = (i % w, i / w);
        assert(a.index(px, py) == i);
        assert(b.pixels[a.index(px, py)] == a.pixels[a.index(px, py)] || (a.pixels[a.index(px, py)].data
            == old_c && b.pixels[a.index(px, py)].data == masked_result(c, px, py, old_c, new_c)));
    }
}

/// A pixel that holds `old_c` after a masked repaint that changes every
/// pixel it touches held it before.
pub proof fn lemma_masked_old_back(c: CanvasView, a: ImageView, b: ImageView, x: int, y: int, old_c: u32, new_c: u32)
    requires
        a.wf(),
        a.in_bounds(x, y),
        repaints_masked(c, a, b, old_c, new_c),
        paint_changes(c, old_c, new_c),
        c.image.width == a.width,
        c.image.height == a.height,
        b.pixels[a.index(x, y)].data == old_c,
    ensures
        a.pixels[a.index(x, y)].data == old_c,
{
    assert(masked_result(c, x, y, old_c, new_c) != old_c);
    assert(b.pixels[a.index(x, y)] == a.pixels[a.index(x, y)] || (a.pixels[a.index(x, y)].data
        == old_c && b.pixels[a.index(x, y)].data == masked_result(c, x, y, old_c, new_c)));
}

/// Painting the pixel (x1, y), reached from (x, y), keeps every change
/// reached.
pub proof fn lemma_paint_reached(img: ImageView, before: ImageView, after: ImageView, x: int, y: int, x1: int, ok: spec_fn(u32) -> bool)
    requires
        img.wf(),
        before.pixels.len() == img.pixels.len(),
        after.pixels.len() == img.pixels.len(),
        img.in_bounds(x1, y),
        changes_reached(img, before, x, y, ok),
        forall|i: int| 0 <= i < img.pixels.len() && i != img.index(x1, y) ==> #[trigger] after.pixels[i] == before.pixels[i],
        reached(img, x, y, x1, y, ok),
    ensures
        changes_reached(img, after, x, y, ok),
{
    assert forall|px: int, py: int|
        img.in_bounds(px, py) && #[trigger] after.pixels[img.index(px, py)] != before.pixels[img.index(px, py)]
            implies reached(img, x, y, px, py, ok) by {
        lemma_index_bounds(img.width as int, img.height as int, px, py);
        lemma_index_bounds(img.width as int, img.height as int, x1, y);
        lemma_index_row(img.width as int, x1, y, px, py);
    }
    lemma_changes_join(img, before, after, x, y, ok);
}

/// Pixels of row `y` that hold `res` keep it through a masked repaint
/// whose painted words differ from the old word.
pub proof fn lemma_masked_row_holds_stays(c: CanvasView, a: ImageView, b: ImageView, d: ImageView, y: int, lo: int, hi: int, old_c: u32, new_c: u32, res: u32)
    requires
        a.wf(),
        b.width == a.width,
        b.height == a.height,
        0 <= lo,
        hi <= a.width,
        0 <= y < a.height,
        repaints_masked(c, b, d, old_c, new_c),
        row_holds(b, y, lo, hi, res),
        res != old_c,
    ensures
        row_holds(d, y, lo, hi, res),
{
    assert forall|q: int| lo <= q < hi implies #[trigger] d.pixels[d.index(q, y)].data == res by {
        lemma_index_bounds(a.width as int, a.height as int, q, y);
        assert(b.pixels[b.index(q, y)].data == res);
        assert(b.in_bounds(q, y));
        assert(d.pixels[b.index(q, y)] == b.pixels[b.index(q, y)] || (b.pixels[b.index(q, y)].data
            == old_c && d.pixels[b.index(q, y)].data == masked_result(c, q, y, old_c, new_c)));
    }
}

} // verus!

verus! {

/// Column `q` of row `y` lies in the stretch searched from the start
/// (x, y): every pixel from column `x` to column `q` held `old_c` and is
/// painted through the mask with the start pixel's new word.
pub open spec fn in_stretch(c: CanvasView, x: int, y: int, q: int, old_c: u32, new_c: u32) -> bool {
    &&& c.image.in_bounds(q, y)
    &&& run_between(c.image, y, x, q, old_c)
    &&& forall|k: int| (if x <= q { x <= k <= q } else { q <= k <= x })
        ==> #[trigger] masked_result(c, k, y, old_c, new_c) == masked_result(c, x, y, old_c, new_c)
}

/// No pixel above or below the stretch searched from (x, y) holds `old_c`
/// in `b`.
pub open spec fn stretch_closed(c: CanvasView, b: ImageView, x: int, y: int, old_c: u32, new_c: u32) -> bool {
    forall|q: int, ny: int|
        in_stretch(c, x, y, q, old_c, new_c) && (ny == y - 1 || ny == y + 1) && c.image.in_bounds(q, ny)
            ==> #[trigger] b.pixels[c.image.index(q, ny)].data != old_c
}

/// Painting `new_c` over `old_c` through the mask gives one word
/// everywhere in the image (as it does without the mask).
pub open spec fn paint_uniform(c: CanvasView, old_c: u32, new_c: u32) -> bool {
    forall|p1: int, q1: int, p2: int, q2: int|
        c.image.in_bounds(p1, q1) && c.image.in_bounds(p2, q2)
            ==> #[trigger] masked_result(c, p1, q1, old_c, new_c) == #[trigger] masked_result(c, p2, q2, old_c, new_c)
}

/// Which of the four searches of the masked fill, after `pass` of them,
/// has covered the pixel (q, ny) next to the stretch.
pub open spec fn pass_done(pass: int, x: int, y: int, q: int, ny: int) -> bool {
    ||| ny == y - 1 && ((x <= q && pass >= 1) || (q < x && pass >= 2))
    ||| ny == y + 1 && ((x <= q && pass >= 3) || (q < x && pass >= 4))
}

/// Horizontal closedness of two masked repaints in a row.
pub proof fn lemma_rows_closed_masked(c: CanvasView, a: ImageView, b: ImageView, d: ImageView, old_c: u32, new_c: u32)
    requires
        a.wf(),
        repaints_masked(c, a, b, old_c, new_c),
        repaints_masked(c, b, d, old_c, new_c),
        rows_closed(a, b, old_c),
        rows_closed(b, d, old_c),
    ensures
        rows_closed(a, d, old_c),
{
    assert forall|x: int, y: int|
        d.in_bounds(x, y) && #[trigger] d.pixels[d.index(x, y)] != a.pixels[a.index(x, y)] implies {
            &&& (x > 0 ==> d.pixels[d.index(x - 1, y)].data != old_c)
            &&& (x + 1 < d.width ==> d.pixels[d.index(x + 1, y)].data != old_c)
        } by {
        if d.pixels[d.index(x, y)] != b.pixels[b.index(x, y)] {
        } else {
            assert(b.pixels[b.index(x, y)] != a.pixels[a.index(x, y)]);
            if x > 0 {
                assert(b.in_bounds(x - 1, y));
                assert(d.pixels[b.index(x - 1, y)] == b.pixels[b.index(x - 1, y)] || (b.pixels[b.index(x - 1, y)].data
                    == old_c && d.pixels[b.index(x - 1, y)].data == masked_result(c, x - 1, y, old_c, new_c)));
            }
            if x + 1 < d.width {
                assert(b.in_bounds(x + 1, y));
                assert(d.pixels[b.index(x + 1, y)] == b.pixels[b.index(x + 1, y)] || (b.pixels[b.index(x + 1, y)].data
                    == old_c && d.pixels[b.index(x + 1, y)].data == masked_result(c, x + 1, y, old_c, new_c)));
            }
        }
    }
}

/// Closedness of two masked repaints in a row.
pub proof fn lemma_closed_masked(c: CanvasView, a: ImageView, b: ImageView, d: ImageView, old_c: u32, new_c: u32)
    requires
        a.wf(),
        repaints_masked(c, a, b, old_c, new_c),
        repaints_masked(c, b, d, old_c, new_c),
        fill_closed(a, b, old_c),
        fill_closed(b, d, old_c),
    ensures
        fill_closed(a, d, old_c),
{
    assert forall|x: int, y: int|
        d.in_bounds(x, y) && #[trigger] d.pixels[d.index(x, y)] != a.pixels[a.index(x, y)] implies settled(d, x, y, old_c) by {
        if d.pixels[d.index(x, y)] != b.pixels[b.index(x, y)] {
        } else {
            assert(b.pixels[b.index(x, y)] != a.pixels[a.index(x, y)]);
            assert(settled(b, x, y, old_c));
            if x > 0 {
                assert(d.pixels[b.index(x - 1, y)] == b.pixels[b.index(x - 1, y)] || (b.pixels[b.index(x - 1, y)].data
                    == old_c && d.pixels[b.index(x - 1, y)].data == masked_result(c, x - 1, y, old_c, new_c)));
            }
            if x + 1 < d.width {
                assert(d.pixels[b.index(x + 1, y)] == b.pixels[b.index(x + 1, y)] || (b.pixels[b.index(x + 1, y)].data
                    == old_c && d.pixels[b.index(x + 1, y)].data == masked_result(c, x + 1, y, old_c, new_c)));
            }
            if y > 0 {
                assert(d.pixels[b.index(x, y - 1)] == b.pixels[b.index(x, y - 1)] || (b.pixels[b.index(x, y - 1)].data
                    == old_c && d.pixels[b.index(x, y - 1)].data == masked_result(c, x, y - 1, old_c, new_c)));
            }
            if y + 1 < d.height {
                assert(d.pixels[b.index(x, y + 1)] == b.pixels[b.index(x, y + 1)] || (b.pixels[b.index(x, y + 1)].data
                    == old_c && d.pixels[b.index(x, y + 1)].data == masked_result(c, x, y + 1, old_c, new_c)));
            }
        }
    }
}

/// The painted start row is closed to the left and right, and, where the
/// painted word is the same everywhere, the whole fill is closed once the
/// stretch and the later repaints are.
pub proof fn lemma_masked_assemble(
    c: CanvasView,
    mid: ImageView,
    fin: ImageView,
    x: int,
    y: int,
    l: int,
    r: int,
    old_c: u32,
    new_c: u32,
)
    requires
        c.image.wf(),
        c.image.in_bounds(x, y),
        -1 <= l < x < r <= c.image.width,
        l == -1 || c.image.pixels[c.image.index(l, y)].data != old_c,
        r == c.image.width || c.image.pixels[c.image.index(r, y)].data != old_c,
        paint_changes(c, old_c, new_c),
        mid.width == c.image.width,
        mid.height == c.image.height,
        mid.pixels.len() == c.image.pixels.len(),
        row_painted(c, mid, y, l + 1, r, old_c, new_c),
        forall|q: int| l < q < r ==> #[trigger] c.image.pixels[c.image.index(q, y)].data == old_c,
        forall|px: int, py: int|
            c.image.in_bounds(px, py) && (py != y || px <= l || px >= r)
                ==> #[trigger] mid.pixels[c.image.index(px, py)] == c.image.pixels[c.image.index(px, py)],
        repaints_masked(c, mid, fin, old_c, new_c),
        rows_closed(mid, fin, old_c),
        stretch_closed(c, fin, x, y, old_c, new_c),
        paint_uniform(c, old_c, new_c) ==> fill_closed(mid, fin, old_c),
    ensures
        rows_closed(c.image, fin, old_c),
        paint_uniform(c, old_c, new_c) ==> fill_closed(c.image, fin, old_c),
{
    let img = c.image;
    let w = img.width as int;
    let h = img.height as int;
    // what changed in the start row is closed to the left and right
    assert forall|px: int, py: int|
        fin.in_bounds(px, py) && #[trigger] mid.pixels[mid.index(px, py)] != img.pixels[img.index(px, py)] implies {
            &&& l < px < r && py == y
            &&& (px > 0 ==> fin.pixels[fin.index(px - 1, py)].data != old_c)
            &&& (px + 1 < fin.width ==> fin.pixels[fin.index(px + 1, py)].data != old_c)
        } by {
        assert(mid.index(px, py) == img.index(px, py));
        assert(l < px < r && py == y);
        if px > 0 {
            lemma_index_bounds(w, h, px - 1, y);
            let j = mid.index(px - 1, y);
            assert(mid.in_bounds(px - 1, y));
            assert(fin.pixels[j] == mid.pixels[j] || (mid.pixels[j].data == old_c && fin.pixels[j].data == masked_result(c, px - 1, y, old_c, new_c)));
            if px - 1 > l {
                assert(mid.pixels[img.index(px - 1, y)].data == masked_result(c, px - 1, y, old_c, new_c));
                assert(masked_result(c, px - 1, y, old_c, new_c) != old_c);
            } else {
                assert(mid.pixels[img.index(px - 1, y)] == img.pixels[img.index(px - 1, y)]);
            }
        }
        if px + 1 < w {
            lemma_index_bounds(w, h, px + 1, y);
            let j = mid.index(px + 1, y);
            assert(mid.in_bounds(px + 1, y));
            assert(fin.pixels[j] == mid.pixels[j] || (mid.pixels[j].data == old_c && fin.pixels[j].data == masked_result(c, px + 1, y, old_c, new_c)));
            if px + 1 < r {
                assert(mid.pixels[img.index(px + 1, y)].data == masked_result(c, px + 1, y, old_c, new_c));
                assert(masked_result(c, px + 1, y, old_c, new_c) != old_c);
            } else {
                assert(mid.pixels[img.index(px + 1, y)] == img.pixels[img.index(px + 1, y)]);
            }
        }
    }
    assert forall|px: int, py: int|
        fin.in_bounds(px, py) && #[trigger] fin.pixels[fin.index(px, py)] != img.pixels[img.index(px, py)] implies {
            &&& (px > 0 ==> fin.pixels[fin.index(px - 1, py)].data != old_c)
            &&& (px + 1 < fin.width ==> fin.pixels[fin.index(px + 1, py)].data != old_c)
        } by {
        if mid.pixels[mid.index(px, py)] != img.pixels[img.index(px, py)] {
        } else {
            assert(fin.pixels[fin.index(px, py)] != mid.pixels[mid.index(px, py)]);
        }
    }
    if paint_uniform(c, old_c, new_c) {
        assert forall|px: int, py: int|
            fin.in_bounds(px, py) && #[trigger] fin.pixels[fin.index(px, py)] != img.pixels[img.index(px, py)]
                implies settled(fin, px, py, old_c) by {
            if mid.pixels[mid.index(px, py)] != img.pixels[img.index(px, py)] {
                assert(l < px < r && py == y);
                assert(in_stretch(c, x, y, px, old_c, new_c)) by {
                    assert forall|k: int| (if x <= px { x <= k <= px } else { px <= k <= x })
                        implies #[trigger] masked_result(c, k, y, old_c, new_c) == masked_result(c, x, y, old_c, new_c) by {
                        assert(img.in_bounds(k, y));
                    }
                    assert forall|k: int| (if x <= px { x <= k <= px } else { px <= k <= x })
                        implies #[trigger] img.pixels[img.index(k, y)].data == old_c by {
                    }
                }
                if py > 0 {
                    assert(fin.pixels[img.index(px, py - 1)].data != old_c);
                }
                if py + 1 < h {
                    assert(fin.pixels[img.index(px, py + 1)].data != old_c);
                }
            } else {
                assert(fin.pixels[fin.index(px, py)] != mid.pixels[mid.index(px, py)]);
            }
        }
    }
}

} // verus!

verus! {

/// A masked repaint leaves every pixel that does not hold `old_c` alone.
pub proof fn lemma_masked_keeps(c: CanvasView, a: ImageView, b: ImageView, d: ImageView, old_c: u32, new_c: u32)
    requires
        b.width == a.width,
        b.height == a.height,
        repaints_masked(c, b, d, old_c, new_c),
    ensures
        forall|px: int, py: int|
            a.in_bounds(px, py) && b.pixels[a.index(px, py)].data != old_c
                ==> #[trigger] d.pixels[a.index(px, py)] == b.pixels[a.index(px, py)],
{
    assert forall|px: int, py: int|
        a.in_bounds(px, py) && b.pixels[a.index(px, py)].data != old_c
            implies #[trigger] d.pixels[a.index(px, py)] == b.pixels[a.index(px, py)] by {
        assert(b.index(px, py) == a.index(px, py));
        assert(b.in_bounds(px, py));
        assert(d.pixels[b.index(px, py)] == b.pixels[b.index(px, py)] || (b.pixels[b.index(px, py)].data
            == old_c && d.pixels[b.index(px, py)].data == masked_result(c, px, py, old_c, new_c)));
    }
}

/// Where the start pixel does not hold `old_c`, no column is in its
/// stretch.
pub proof fn lemma_no_stretch(c: CanvasView, b: ImageView, x: int, y: int, old_c: u32, new_c: u32)
    requires
        c.image.in_bounds(x, y),
        c.image.pixels[c.image.index(x, y)].data != old_c,
    ensures
        stretch_closed(c, b, x, y, old_c, new_c),
{
    assert forall|q: int, ny: int|
        in_stretch(c, x, y, q, old_c, new_c) && (ny == y - 1 || ny == y + 1) && c.image.in_bounds(q, ny)
            implies #[trigger] b.pixels[c.image.index(q, ny)].data != old_c by {
        assert(c.image.pixels[c.image.index(x, y)].data == old_c);
    }
}

} // verus!

verus! {

/// A closed fill is closed to the left and right.
pub proof fn lemma_closed_rows(a: ImageView, b: ImageView, old_c: u32)
    requires
        fill_closed(a, b, old_c),
    ensures
        rows_closed(a, b, old_c),
{
    assert forall|x: int, y: int|
        b.in_bounds(x, y) && #[trigger] b.pixels[b.index(x, y)] != a.pixels[a.index(x, y)] implies {
            &&& (x > 0 ==> b.pixels[b.index(x - 1, y)].data != old_c)
            &&& (x + 1 < b.width ==> b.pixels[b.index(x + 1, y)].data != old_c)
        } by {
        assert(settled(b, x, y, old_c));
    }
}

} // verus!

verus! {

/// Filling a second time from the same start with an opaque color changes
/// nothing: after the first fill the start pixel holds that color. The
/// requirements are what `Image::fill` ensures of the first fill.
pub proof fn lemma_fill_twice(a: ImageView, b: ImageView, x: int, y: int, color: u32)
    requires
        a.in_bounds(x, y),
        alpha_of(color) == 255,
        b.width == a.width,
        b.height == a.height,
        fill_changes(a.pixcol_word(x, y), color) ==> b.pixels[a.index(x, y)].data == blend_word(a.pixcol_word(x, y), color),
        !fill_changes(a.pixcol_word(x, y), color) ==> b == a,
    ensures
        b.pixcol_word(x, y) == color,
        !fill_changes(b.pixcol_word(x, y), color),
{
    lemma_blend_extremes(a.pixcol_word(x, y), color);
}

} // verus!
