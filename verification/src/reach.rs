//! Walks of 4-neighbours over an image: which pixels a fill can reach.
use vstd::prelude::*;
use crate::image::{ImageView, lemma_index_bounds};

verus! {

/// (p, q) are 4-neighbours.
pub open spec fn adjacent4(p: (int, int), q: (int, int)) -> bool {
    (p.0 == q.0 && (p.1 - q.1 == 1 || q.1 - p.1 == 1)) || (p.1 == q.1 && (p.0 - q.0 == 1 || q.0 - p.0 == 1))
}

/// `path` is a walk of 4-neighbours inside `a` over pixels whose word
/// satisfies `ok`.
pub open spec fn walk(a: ImageView, path: Seq<(int, int)>, ok: spec_fn(u32) -> bool) -> bool {
    &&& path.len() >= 1
    &&& forall|i: int| 0 <= i < path.len() ==> a.in_bounds(#[trigger] path[i].0, path[i].1)
        && ok(a.pixels[a.index(path[i].0, path[i].1)].data)
    &&& forall|i: int| 0 <= i < path.len() - 1 ==> adjacent4(#[trigger] path[i], path[i + 1])
}

/// A walk over pixels satisfying `ok` leads in `a` from (x, y) to (px, py).
pub open spec fn reached(a: ImageView, x: int, y: int, px: int, py: int, ok: spec_fn(u32) -> bool) -> bool {
    exists|path: Seq<(int, int)>| walk(a, path, ok) && path[0] == (x, y) && path.last() == (px, py)
}

/// Every pixel that differs between `a` and `b` is reached from (x, y) in
/// `a` by a walk over pixels satisfying `ok`.
pub open spec fn changes_reached(a: ImageView, b: ImageView, x: int, y: int, ok: spec_fn(u32) -> bool) -> bool {
    forall|px: int, py: int|
        a.in_bounds(px, py) && #[trigger] b.pixels[a.index(px, py)] != a.pixels[a.index(px, py)]
            ==> reached(a, x, y, px, py, ok)
}

/// The words equal to `c`.
pub open spec fn only_word(c: u32) -> spec_fn(u32) -> bool {
    |w: u32| w == c
}

/// The words equal to `c` or to `d`.
pub open spec fn either_word(c: u32, d: u32) -> spec_fn(u32) -> bool {
    |w: u32| w == c || w == d
}

/// No pixel of `a` holds the word `c`.
pub open spec fn lacks_word(a: ImageView, c: u32) -> bool {
    forall|i: int| 0 <= i < a.pixels.len() ==> #[trigger] a.pixels[i].data != c
}

/// A single pixel is a walk.
pub proof fn lemma_reached_here(a: ImageView, x: int, y: int, ok: spec_fn(u32) -> bool)
    requires
        a.in_bounds(x, y),
        ok(a.pixels[a.index(x, y)].data),
    ensures
        reached(a, x, y, x, y, ok),
{
    let path = seq![(x, y)];
    assert(path[0] == (x, y));
    assert(walk(a, path, ok));
    assert(path.last() == (x, y));
}

/// A walk followed by a walk from where it ended is a walk.
pub proof fn lemma_reached_trans(a: ImageView, x: int, y: int, px: int, py: int, qx: int, qy: int, ok: spec_fn(u32) -> bool)
    requires
        reached(a, x, y, px, py, ok),
        reached(a, px, py, qx, qy, ok),
    ensures
        reached(a, x, y, qx, qy, ok),
{
    let p1 = choose|p: Seq<(int, int)>| walk(a, p, ok) && p[0] == (x, y) && p.last() == (px, py);
    let p2 = choose|p: Seq<(int, int)>| walk(a, p, ok) && p[0] == (px, py) && p.last() == (qx, qy);
    let path = p1 + p2.drop_first();
    assert forall|i: int| 0 <= i < path.len() implies a.in_bounds(#[trigger] path[i].0, path[i].1)
        && ok(a.pixels[a.index(path[i].0, path[i].1)].data) by {
        if i < p1.len() {
            assert(path[i] == p1[i]);
        } else {
            assert(path[i] == p2[i - p1.len() + 1]);
        }
    }
    assert forall|i: int| 0 <= i < path.len() - 1 implies adjacent4(#[trigger] path[i], path[i + 1]) by {
        if i < p1.len() - 1 {
            assert(path[i] == p1[i] && path[i + 1] == p1[i + 1]);
        } else if i == p1.len() - 1 {
            assert(path[i] == p1[i] && path[i + 1] == p2[1]);
            assert(p2[0] == p1[i]);
            assert(adjacent4(p2[0], p2[1]));
        } else {
            assert(path[i] == p2[i - p1.len() + 1] && path[i + 1] == p2[i - p1.len() + 2]);
        }
    }
    if p2.len() == 1 {
        assert(path =~= p1);
    } else {
        assert(path.last() == p2.last());
    }
    assert(walk(a, path, ok));
    assert(path[0] == p1[0]);
}

/// A walk extended by one neighbour is a walk.
pub proof fn lemma_reached_step(a: ImageView, x: int, y: int, px: int, py: int, qx: int, qy: int, ok: spec_fn(u32) -> bool)
    requires
        reached(a, x, y, px, py, ok),
        adjacent4((px, py), (qx, qy)),
        a.in_bounds(qx, qy),
        ok(a.pixels[a.index(qx, qy)].data),
    ensures
        reached(a, x, y, qx, qy, ok),
{
    let p1 = choose|p: Seq<(int, int)>| walk(a, p, ok) && p[0] == (x, y) && p.last() == (px, py);
    let path = p1.push((qx, qy));
    assert forall|i: int| 0 <= i < path.len() implies a.in_bounds(#[trigger] path[i].0, path[i].1)
        && ok(a.pixels[a.index(path[i].0, path[i].1)].data) by {
        if i < p1.len() {
            assert(path[i] == p1[i]);
        }
    }
    assert forall|i: int| 0 <= i < path.len() - 1 implies adjacent4(#[trigger] path[i], path[i + 1]) by {
        if i < p1.len() - 1 {
            assert(path[i] == p1[i] && path[i + 1] == p1[i + 1]);
        }
    }
    assert(walk(a, path, ok));
    assert(path[0] == p1[0]);
    assert(path.last() == (qx, qy));
}

/// A walk in `b` is a walk in `a` when every pixel that satisfies `ok` in
/// `b` satisfied `ok2` in `a`.
pub proof fn lemma_reached_back(
    a: ImageView,
    b: ImageView,
    x: int,
    y: int,
    px: int,
    py: int,
    ok: spec_fn(u32) -> bool,
    ok2: spec_fn(u32) -> bool,
)
    requires
        b.width == a.width,
        b.height == a.height,
        a.wf(),
        b.pixels.len() == a.pixels.len(),
        forall|i: int| 0 <= i < a.pixels.len() && ok(#[trigger] b.pixels[i].data) ==> ok2(a.pixels[i].data),
        reached(b, x, y, px, py, ok),
    ensures
        reached(a, x, y, px, py, ok2),
{
    let p = choose|p: Seq<(int, int)>| walk(b, p, ok) && p[0] == (x, y) && p.last() == (px, py);
    assert forall|i: int| 0 <= i < p.len() implies a.in_bounds(#[trigger] p[i].0, p[i].1)
        && ok2(a.pixels[a.index(p[i].0, p[i].1)].data) by {
        assert(b.in_bounds(p[i].0, p[i].1));
        lemma_index_bounds(a.width as int, a.height as int, p[i].0, p[i].1);
        let j = a.index(p[i].0, p[i].1);
        assert(ok(b.pixels[j].data));
    }
    assert(walk(a, p, ok2));
}

/// A run of row `y` whose pixels, from column `x` to column `px`, satisfy
/// `ok` is a walk.
pub proof fn lemma_reached_row(a: ImageView, y: int, x: int, px: int, ok: spec_fn(u32) -> bool)
    requires
        a.in_bounds(x, y),
        a.in_bounds(px, y),
        forall|q: int| (if x <= px { x <= q <= px } else { px <= q <= x }) ==> #[trigger] ok(a.pixels[a.index(q, y)].data),
    ensures
        reached(a, x, y, px, y, ok),
    decreases if x <= px { px - x } else { x - px },
{
    if px == x {
        lemma_reached_here(a, x, y, ok);
    } else if x < px {
        assert(ok(a.pixels[a.index(px - 1, y)].data));
        assert(ok(a.pixels[a.index(px, y)].data));
        lemma_reached_row(a, y, x, px - 1, ok);
        lemma_reached_step(a, x, y, px - 1, y, px, y, ok);
    } else {
        assert(ok(a.pixels[a.index(px + 1, y)].data));
        assert(ok(a.pixels[a.index(px, y)].data));
        lemma_reached_row(a, y, x, px + 1, ok);
        lemma_reached_step(a, x, y, px + 1, y, px, y, ok);
    }
}

/// Reaching with a wider set of words.
pub proof fn lemma_reached_wider(a: ImageView, x: int, y: int, px: int, py: int, ok: spec_fn(u32) -> bool, ok2: spec_fn(u32) -> bool)
    requires
        a.wf(),
        forall|i: int| 0 <= i < a.pixels.len() && ok(#[trigger] a.pixels[i].data) ==> ok2(a.pixels[i].data),
        reached(a, x, y, px, py, ok),
    ensures
        reached(a, x, y, px, py, ok2),
{
    lemma_reached_back(a, a, x, y, px, py, ok, ok2);
}

/// Changes made in two steps, each reached from (x, y), are reached.
pub proof fn lemma_changes_join(a: ImageView, b: ImageView, c: ImageView, x: int, y: int, ok: spec_fn(u32) -> bool)
    requires
        b.pixels.len() == a.pixels.len(),
        changes_reached(a, b, x, y, ok),
        forall|px: int, py: int|
            a.in_bounds(px, py) && #[trigger] c.pixels[a.index(px, py)] != b.pixels[a.index(px, py)]
                ==> reached(a, x, y, px, py, ok),
    ensures
        changes_reached(a, c, x, y, ok),
{
    assert forall|px: int, py: int|
        a.in_bounds(px, py) && #[trigger] c.pixels[a.index(px, py)] != a.pixels[a.index(px, py)]
            implies reached(a, x, y, px, py, ok) by {
        if b.pixels[a.index(px, py)] != a.pixels[a.index(px, py)] {
        } else {
            assert(c.pixels[a.index(px, py)] != b.pixels[a.index(px, py)]);
        }
    }
}

/// What a nested fill started at (nx, ny) of `before` changed is reached
/// from (x, y) in `a`, when (nx, ny) is reached from (x, y) wherever it
/// satisfies `ok` in `a`.
pub proof fn lemma_call_join(
    a: ImageView,
    before: ImageView,
    after: ImageView,
    x: int,
    y: int,
    nx: int,
    ny: int,
    ok: spec_fn(u32) -> bool,
)
    requires
        a.wf(),
        before.width == a.width,
        before.height == a.height,
        before.pixels.len() == a.pixels.len(),
        after.pixels.len() == a.pixels.len(),
        forall|i: int| 0 <= i < a.pixels.len() && ok(#[trigger] before.pixels[i].data) ==> ok(a.pixels[i].data),
        changes_reached(a, before, x, y, ok),
        changes_reached(before, after, nx, ny, ok),
        a.in_bounds(nx, ny) && ok(a.pixels[a.index(nx, ny)].data) ==> reached(a, x, y, nx, ny, ok),
    ensures
        changes_reached(a, after, x, y, ok),
{
    assert forall|px: int, py: int|
        a.in_bounds(px, py) && #[trigger] after.pixels[a.index(px, py)] != before.pixels[a.index(px, py)]
            implies reached(a, x, y, px, py, ok) by {
        assert(before.index(px, py) == a.index(px, py));
        assert(before.in_bounds(px, py));
        assert(reached(before, nx, ny, px, py, ok));
        let p = choose|p: Seq<(int, int)>| walk(before, p, ok) && p[0] == (nx, ny) && p.last() == (px, py);
        assert(before.in_bounds(p[0].0, p[0].1));
        lemma_index_bounds(a.width as int, a.height as int, nx, ny);
        assert(ok(before.pixels[a.index(nx, ny)].data));
        lemma_reached_back(a, before, nx, ny, px, py, ok, ok);
        lemma_reached_trans(a, x, y, nx, ny, px, py, ok);
    }
    lemma_changes_join(a, before, after, x, y, ok);
}

/// When `a` holds no pixel of the word `res`, a walk over `old_c` or `res`
/// is a walk over `old_c` alone.
pub proof fn lemma_reached_without(a: ImageView, x: int, y: int, px: int, py: int, old_c: u32, res: u32)
    requires
        a.wf(),
        lacks_word(a, res),
        reached(a, x, y, px, py, either_word(old_c, res)),
    ensures
        reached(a, x, y, px, py, only_word(old_c)),
{
    assert forall|i: int| 0 <= i < a.pixels.len() && either_word(old_c, res)(#[trigger] a.pixels[i].data)
        implies only_word(old_c)(a.pixels[i].data) by {
        assert(a.pixels[i].data != res);
    }
    lemma_reached_wider(a, x, y, px, py, either_word(old_c, res), only_word(old_c));
}

} // verus!
