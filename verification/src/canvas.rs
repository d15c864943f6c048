//! The drawing surface: an image with an undo stack, a painting mask and a
//! copy buffer.
use vstd::prelude::*;
use crate::color::{Color, rgba_word, red_of, green_of, blue_of, alpha_of, blend_word, lemma_blend_extremes};
use crate::image::{
    Image, ImageView, paste_fits, pasted_at, lemma_index_bounds, lemma_index_row, blit_at, filled_at, selection_pixels,
    black_image, white_to_clear, lemma_block_split,
};
use crate::transform::{Transform, transformed, transformed_size, transform_fits, trans_from_slice, rgba_bytes, rgba_bytes_of};
use crate::fill::{
    repaints_only, fill_closed, count_word, masked_result, paint_changes, repaints_masked, lemma_masked_step,
    lemma_masked_count, lemma_masked_trans, run_between, row_painted, lemma_row_stays, lemma_closed_run, fill_changes,
    canvas_words, lemma_canvas_word, rows_closed, settled, lemma_closed_rows, stretch_closed, paint_uniform, in_stretch, pass_done, lemma_rows_closed_masked,
    lemma_closed_masked, lemma_masked_assemble, lemma_masked_keeps, lemma_no_stretch, lemma_canvas_words_back, lemma_masked_old_back, lemma_paint_reached, lemma_masked_row_holds_stays, row_holds,
};
use crate::reach::{changes_reached, either_word, only_word, lacks_word, lemma_reached_row, lemma_reached_step, lemma_call_join, lemma_reached_wider};
use crate::lines::{line_points, line_points_of, line_fits, points_view, in_box, lemma_line_ends, dist1, line_walk, start_err, dir};
use crate::shapes::{circle_points, circle_points_of, circle_fits, rect_points, rect_points_of, rect_fits, lemma_rect_outline_closed, lemma_disc_filled};

verus! {

/// How many images the undo stack keeps at most.
pub const UNDODEPTH: usize = 10;

/// A rectangle: a corner and a size.
#[derive(Clone, Copy, Debug)]
pub struct Rect {
    pub x: i32,
    pub y: i32,
    pub width: u32,
    pub height: u32,
}

impl Rect {
    pub fn new(x: i32, y: i32, width: u32, height: u32) -> (r: Rect)
        ensures
            r == (Rect { x, y, width, height }),
    {
        Rect { x, y, width, height }
    }
}

/// What a canvas is.
pub struct CanvasView {
    pub rect: Rect,
    pub image: ImageView,
    pub undo: Seq<ImageView>,
    pub mask: ImageView,
    pub mask_flag: bool,
    pub mask_enabled: bool,
    pub copy_buffer: ImageView,
}

/// The word drawn at (x, y) for `c`: with the mask enabled, its alpha is
/// cut down (bitwise and) to the red component of the mask there.
pub open spec fn masked_word(mask: ImageView, enabled: bool, x: int, y: int, c: u32) -> u32 {
    if enabled {
        rgba_word(red_of(c), green_of(c), blue_of(c), red_of(mask.pixcol_word(x, y)) & alpha_of(c))
    } else {
        c
    }
}

/// The image after drawing `c` at each of the points, in order, through
/// the mask.
pub open spec fn paint_seq(img: ImageView, mask: ImageView, enabled: bool, pts: Seq<(int, int)>, c: u32) -> ImageView
    decreases pts.len(),
{
    if pts.len() == 0 {
        img
    } else {
        let p = pts.last();
        paint_seq(img, mask, enabled, pts.drop_last(), c).with_pixel(p.0, p.1, masked_word(mask, enabled, p.0, p.1, c))
    }
}

/// Drawing two lists of points one after the other is drawing their
/// concatenation.
pub proof fn lemma_paint_concat(img: ImageView, mask: ImageView, enabled: bool, a: Seq<(int, int)>, b: Seq<(int, int)>, c: u32)
    ensures
        paint_seq(img, mask, enabled, a + b, c) == paint_seq(paint_seq(img, mask, enabled, a, c), mask, enabled, b, c),
    decreases b.len(),
{
    if b.len() == 0 {
        assert(a + b =~= a);
    } else {
        assert((a + b).drop_last() =~= a + b.drop_last());
        lemma_paint_concat(img, mask, enabled, a, b.drop_last(), c);
    }
}

proof fn lemma_paint_dims(img: ImageView, mask: ImageView, enabled: bool, pts: Seq<(int, int)>, c: u32)
    requires
        img.wf(),
    ensures
        paint_seq(img, mask, enabled, pts, c).wf(),
        paint_seq(img, mask, enabled, pts, c).width == img.width,
        paint_seq(img, mask, enabled, pts, c).height == img.height,
    decreases pts.len(),
{
    if pts.len() > 0 {
        lemma_paint_dims(img, mask, enabled, pts.drop_last(), c);
        let prev = paint_seq(img, mask, enabled, pts.drop_last(), c);
        let p = pts.last();
        let next = prev.with_pixel(p.0, p.1, masked_word(mask, enabled, p.0, p.1, c));
        if prev.in_bounds(p.0, p.1) {
            lemma_index_bounds(prev.width as int, prev.height as int, p.0, p.1);
        }
        assert(next.pixels.len() == prev.pixels.len());
    }
}

/// The points a brush stroke is drawn with: a circle around each point of
/// the line, one after the other.
pub open spec fn brush_points(line: Seq<(int, int)>, radius: int) -> Seq<(int, int)>
    decreases line.len(),
{
    if line.len() == 0 {
        Seq::empty()
    } else {
        brush_points(line.drop_last(), radius) + circle_points(line.last().0, line.last().1, radius)
    }
}

/// The points a rectangular brush stroke is drawn with: a rectangle
/// outline at each point of the line, one after the other.
pub open spec fn rect_brush_points(line: Seq<(int, int)>, l: int, w: int) -> Seq<(int, int)>
    decreases line.len(),
{
    if line.len() == 0 {
        Seq::empty()
    } else {
        rect_brush_points(line.drop_last(), l, w) + rect_points(line.last().0, line.last().1, l, w)
    }
}

/// The undo stack after saving `image` on `undo`: pushed on top, and the
/// oldest image dropped when the stack would grow beyond `UNDODEPTH`.
pub open spec fn saved_stack(undo: Seq<ImageView>, image: ImageView) -> Seq<ImageView> {
    if undo.len() + 1 > UNDODEPTH {
        undo.push(image).drop_first()
    } else {
        undo.push(image)
    }
}

pub struct Canvas {
    pub rect: Rect,
    pub image: Image,
    newundo_image: Vec<Image>,
    mask: Image,
    mask_flag: bool,
    mask_enabled: bool,
    pub copy_buffer: Image,
}

impl View for Canvas {
    type V = CanvasView;

    closed spec fn view(&self) -> CanvasView {
        CanvasView {
            rect: self.rect,
            image: self.image@,
            undo: self.newundo_image@.map_values(|i: Image| i@),
            mask: self.mask@,
            mask_flag: self.mask_flag,
            mask_enabled: self.mask_enabled,
            copy_buffer: self.copy_buffer@,
        }
    }
}

impl CanvasView {
    /// The images are well formed, the mask and the saved images have the
    /// size of the image, and the undo stack holds one to `UNDODEPTH`
    /// images.
    pub open spec fn wf(self) -> bool {
        &&& self.image.wf()
        &&& self.mask.wf()
        &&& self.copy_buffer.wf()
        &&& self.mask.width == self.image.width
        &&& self.mask.height == self.image.height
        &&& 1 <= self.undo.len() <= UNDODEPTH
        &&& forall|i: int|
            0 <= i < self.undo.len() ==> (#[trigger] self.undo[i]).wf() && self.undo[i].width == self.image.width
                && self.undo[i].height == self.image.height
    }

    /// This canvas with another image, everything else unchanged.
    pub open spec fn with_image(self, image: ImageView) -> CanvasView {
        CanvasView { image, ..self }
    }

    /// The canvas after `undo_save`.
    pub open spec fn saved(self) -> CanvasView {
        CanvasView { undo: saved_stack(self.undo, self.image), ..self }
    }

    /// The canvas after `undo`.
    pub open spec fn undone(self) -> CanvasView {
        if self.undo.len() > 1 {
            CanvasView { image: self.undo.last(), undo: self.undo.drop_last(), ..self }
        } else {
            self
        }
    }

    /// The canvas after drawing `c` at the points, through its mask.
    pub open spec fn painted(self, pts: Seq<(int, int)>, c: u32) -> CanvasView {
        self.with_image(paint_seq(self.image, self.mask, self.mask_enabled, pts, c))
    }
}

/// Every point of the rectangle spanned by two corners admits a circle of
/// the radius when both corners do.
pub open spec fn brush_fits(x1: int, y1: int, x2: int, y2: int, radius: int) -> bool {
    &&& line_fits(x1, y1, x2, y2)
    &&& circle_fits(if x1 <= x2 { x1 } else { x2 }, if y1 <= y2 { y1 } else { y2 }, radius)
    &&& circle_fits(if x1 <= x2 { x2 } else { x1 }, if y1 <= y2 { y2 } else { y1 }, radius)
}

/// Every point of the rectangle spanned by two corners admits a rectangle
/// outline of the size when both corners do.
pub open spec fn rect_brush_fits(x1: int, y1: int, x2: int, y2: int, l: int, w: int) -> bool {
    &&& line_fits(x1, y1, x2, y2)
    &&& rect_fits(if x1 <= x2 { x1 } else { x2 }, if y1 <= y2 { y1 } else { y2 }, l, w)
    &&& rect_fits(if x1 <= x2 { x2 } else { x1 }, if y1 <= y2 { y2 } else { y1 }, l, w)
}

impl Canvas {
    pub open spec fn wf(&self) -> bool {
        self@.wf()
    }

    /// A canvas over `image`, with an undo stack holding one black image,
    /// a translucent red mask, the mask disabled and an empty copy buffer.
    pub fn from_image(image: Image) -> (c: Canvas)
        requires
            image.wf(),
        ensures
            c.wf(),
            c@.image == image@,
            c@.rect == (Rect { x: 0, y: 0, width: image@.width, height: image@.height }),
            c@.undo.len() == 1,
            forall|i: int| 0 <= i < c@.undo[0].pixels.len() ==> #[trigger] c@.undo[0].pixels[i].data == rgba_word(0, 0, 0, 255),
            forall|i: int| 0 <= i < c@.mask.pixels.len() ==> #[trigger] c@.mask.pixels[i].data == rgba_word(255, 0, 0, 50),
            !c@.mask_flag,
            !c@.mask_enabled,
            c@.copy_buffer.width == 0,
            c@.copy_buffer.height == 0,
    {
        let w = image.width();
        let h = image.height();
        let mut newundo_image: Vec<Image> = Vec::new();
        newundo_image.push(Image::new(w, h));
        let mask = Image::from_color(w, h, Color::rgba(255, 0, 0, 50));
        let c = Canvas {
            rect: Rect::new(0, 0, w, h),
            newundo_image,
            mask,
            mask_flag: false,
            mask_enabled: false,
            image,
            copy_buffer: Image::new(0, 0),
        };
        assert(c@.undo =~= seq![c.newundo_image@[0]@]);
        c
    }

    /// A black canvas of the given size.
    pub fn new(width: u32, height: u32) -> (c: Canvas)
        requires
            width as int * height as int <= usize::MAX,
        ensures
            c.wf(),
            c@.image.width == width,
            c@.image.height == height,
            forall|i: int| 0 <= i < c@.image.pixels.len() ==> #[trigger] c@.image.pixels[i].data == rgba_word(0, 0, 0, 255),
            c@.undo.len() == 1,
            !c@.mask_flag,
            !c@.mask_enabled,
    {
        Self::from_image(Image::new(width, height))
    }

    /// A canvas of the given size filled with `color`.
    pub fn from_color(width: u32, height: u32, color: Color) -> (c: Canvas)
        requires
            width as int * height as int <= usize::MAX,
        ensures
            c.wf(),
            c@.image.width == width,
            c@.image.height == height,
            forall|i: int| 0 <= i < c@.image.pixels.len() ==> #[trigger] c@.image.pixels[i] == color,
            c@.undo.len() == 1,
            !c@.mask_flag,
            !c@.mask_enabled,
    {
        Self::from_image(Image::from_color(width, height, color))
    }

    pub fn height(&self) -> (h: u32)
        ensures
            h == self@.image.height,
    {
        self.image.height()
    }

    pub fn width(&self) -> (w: u32)
        ensures
            w == self@.image.width,
    {
        self.image.width()
    }

    /// Saves a copy of the image on the undo stack, dropping the oldest
    /// saved image when the stack would grow beyond `UNDODEPTH`.
    pub fn undo_save(&mut self)
        requires
            old(self).wf(),
        ensures
            final(self).wf(),
            final(self)@ == old(self)@.saved(),
    {
        let ghost old_undo = self@.undo;
        let image = self.image.copy();
        self.newundo_image.push(image);
        assert(self@.undo =~= old_undo.push(self@.image));
        if self.newundo_image.len() > UNDODEPTH {
            self.newundo_image.remove(0);
            assert(self@.undo =~= old_undo.push(self@.image).drop_first());
        }
    }

    /// Brings back the last saved image, when the stack holds more than
    /// one.
    pub fn undo(&mut self)
        requires
            old(self).wf(),
        ensures
            final(self).wf(),
            final(self)@ == old(self)@.undone(),
    {
        let ghost old_undo = self@.undo;
        let l = self.newundo_image.len();
        if l > 1 {
            assert(old_undo[l - 1].wf());
            self.image = self.newundo_image[l - 1].copy();
            self.newundo_image.pop();
            assert(self@.undo =~= old_undo.drop_last());
            assert forall|i: int| 0 <= i < self@.undo.len() implies (#[trigger] self@.undo[i]).wf() && self@.undo[i].width == self@.image.width
                && self@.undo[i].height == self@.image.height by {
                assert(self@.undo[i] == old_undo[i]);
            }
        }
    }

    /// Draws `color` at (x, y), through the mask when it is enabled.
    pub fn pixel(&mut self, x: i32, y: i32, color: Color)
        requires
            old(self).wf(),
        ensures
            final(self).wf(),
            final(self)@ == old(self)@.with_image(
                old(self)@.image.with_pixel(x as int, y as int, masked_word(old(self)@.mask, old(self)@.mask_enabled, x as int, y as int, color.data)),
            ),
    {
        let mut color = color;
        if self.mask_enabled {
            let alpha_mask = self.mask.pixcol(x, y).r();
            color = Color::rgba(color.r(), color.g(), color.b(), alpha_mask & color.a());
        }
        self.image.pixel(x, y, color);
        assert(self@.undo =~= old(self)@.undo);
    }

    /// Draws `color` at each point in order.
    fn paint_points(&mut self, pts: &Vec<(i32, i32)>, color: Color)
        requires
            old(self).wf(),
        ensures
            final(self).wf(),
            final(self)@ == old(self)@.painted(points_view(pts@), color.data),
    {
        let ghost start = self@;
        let ghost pv = points_view(pts@);
        let n = pts.len();
        let mut k: usize = 0;
        proof {
            assert(pv.take(0) =~= Seq::<(int, int)>::empty());
        }
        while k < n
            invariant
                n == pts@.len(),
                pv == points_view(pts@),
                k <= n,
                start.wf(),
                self.wf(),
                self@ == start.painted(pv.take(k as int), color.data),
            decreases n - k,
        {
            let p = pts[k];
            self.pixel(p.0, p.1, color);
            proof {
                assert(pv.take(k + 1).drop_last() =~= pv.take(k as int));
                assert(pv.take(k + 1).last() == (p.0 as int, p.1 as int));
            }
            k += 1;
        }
        proof {
            assert(pv.take(n as int) =~= pv);
        }
    }

    /// Draws the line from (argx1, argy1) to (argx2, argy2) through the mask.
    pub fn line(&mut self, argx1: i32, argy1: i32, argx2: i32, argy2: i32, color: Color)
        requires
            old(self).wf(),
            line_fits(argx1 as int, argy1 as int, argx2 as int, argy2 as int),
        ensures
            final(self).wf(),
            final(self)@ == old(self)@.painted(line_points(argx1 as int, argy1 as int, argx2 as int, argy2 as int), color.data),
    {
        let pts = line_points_of(argx1, argy1, argx2, argy2);
        self.paint_points(&pts, color);
    }

    /// Draws a circle through the mask: the outline for a positive radius,
    /// filled for a negative one, the center pixel for radius 0.
    pub fn circle(&mut self, x0: i32, y0: i32, radius: i32, color: Color)
        requires
            old(self).wf(),
            circle_fits(x0 as int, y0 as int, radius as int),
        ensures
            final(self).wf(),
            final(self)@ == old(self)@.painted(circle_points(x0 as int, y0 as int, radius as int), color.data),
    {
        let pts = circle_points_of(x0, y0, radius);
        self.paint_points(&pts, color);
    }

    /// Draws a rectangle outline through the mask.
    pub fn rect(&mut self, x: i32, y: i32, lenght: u32, width: u32, color: Color)
        requires
            old(self).wf(),
            rect_fits(x as int, y as int, lenght as int, width as int),
        ensures
            final(self).wf(),
            final(self)@ == old(self)@.painted(rect_points(x as int, y as int, lenght as int, width as int), color.data),
    {
        let pts = rect_points_of(x, y, lenght, width);
        self.paint_points(&pts, color);
    }

    /// Draws a stroke of circles of the radius along the line.
    pub fn brush_line(&mut self, argx1: i32, argy1: i32, argx2: i32, argy2: i32, radius: i32, color: Color)
        requires
            old(self).wf(),
            brush_fits(argx1 as int, argy1 as int, argx2 as int, argy2 as int, radius as int),
        ensures
            final(self).wf(),
            final(self)@ == old(self)@.painted(
                brush_points(line_points(argx1 as int, argy1 as int, argx2 as int, argy2 as int), radius as int),
                color.data,
            ),
    {
        let ghost start = self@;
        let lp = line_points_of(argx1, argy1, argx2, argy2);
        let ghost lv = points_view(lp@);
        proof {
            lemma_line_ends(argx1 as int, argy1 as int, argx2 as int, argy2 as int);
            assert(brush_points(lv.take(0), radius as int) =~= Seq::<(int, int)>::empty());
            assert(start.painted(Seq::empty(), color.data) == start);
        }
        let n = lp.len();
        let mut k: usize = 0;
        while k < n
            invariant
                n == lp@.len(),
                lv == points_view(lp@),
                lv == line_points(argx1 as int, argy1 as int, argx2 as int, argy2 as int),
                brush_fits(argx1 as int, argy1 as int, argx2 as int, argy2 as int, radius as int),
                forall|j: int| 0 <= j < lv.len() ==> in_box(argx1 as int, argy1 as int, argx2 as int, argy2 as int, #[trigger] lv[j]),
                k <= n,
                start.wf(),
                self.wf(),
                self@ == start.painted(brush_points(lv.take(k as int), radius as int), color.data),
            decreases n - k,
        {
            let p = lp[k];
            assert(in_box(argx1 as int, argy1 as int, argx2 as int, argy2 as int, lv[k as int]));
            let ghost before = self@;
            self.circle(p.0, p.1, radius, color);
            proof {
                let prev = brush_points(lv.take(k as int), radius as int);
                let cp = circle_points(p.0 as int, p.1 as int, radius as int);
                assert(lv.take(k + 1).drop_last() =~= lv.take(k as int));
                assert(brush_points(lv.take(k + 1), radius as int) == prev + cp);
                lemma_paint_concat(start.image, start.mask, start.mask_enabled, prev, cp, color.data);
            }
            k += 1;
        }
        proof {
            assert(lv.take(n as int) =~= lv);
        }
    }

    /// Draws a stroke of rectangle outlines along the line.
    pub fn rect_line(&mut self, argx1: i32, argy1: i32, argx2: i32, argy2: i32, lenght: u32, width: u32, color: Color)
        requires
            old(self).wf(),
            rect_brush_fits(argx1 as int, argy1 as int, argx2 as int, argy2 as int, lenght as int, width as int),
        ensures
            final(self).wf(),
            final(self)@ == old(self)@.painted(
                rect_brush_points(line_points(argx1 as int, argy1 as int, argx2 as int, argy2 as int), lenght as int, width as int),
                color.data,
            ),
    {
        let ghost start = self@;
        let lp = line_points_of(argx1, argy1, argx2, argy2);
        let ghost lv = points_view(lp@);
        proof {
            lemma_line_ends(argx1 as int, argy1 as int, argx2 as int, argy2 as int);
            assert(rect_brush_points(lv.take(0), lenght as int, width as int) =~= Seq::<(int, int)>::empty());
            assert(start.painted(Seq::empty(), color.data) == start);
        }
        let n = lp.len();
        let mut k: usize = 0;
        while k < n
            invariant
                n == lp@.len(),
                lv == points_view(lp@),
                lv == line_points(argx1 as int, argy1 as int, argx2 as int, argy2 as int),
                rect_brush_fits(argx1 as int, argy1 as int, argx2 as int, argy2 as int, lenght as int, width as int),
                forall|j: int| 0 <= j < lv.len() ==> in_box(argx1 as int, argy1 as int, argx2 as int, argy2 as int, #[trigger] lv[j]),
                k <= n,
                start.wf(),
                self.wf(),
                self@ == start.painted(rect_brush_points(lv.take(k as int), lenght as int, width as int), color.data),
            decreases n - k,
        {
            let p = lp[k];
            assert(in_box(argx1 as int, argy1 as int, argx2 as int, argy2 as int, lv[k as int]));
            self.rect(p.0, p.1, lenght, width, color);
            proof {
                let prev = rect_brush_points(lv.take(k as int), lenght as int, width as int);
                let rp = rect_points(p.0 as int, p.1 as int, lenght as int, width as int);
                assert(lv.take(k + 1).drop_last() =~= lv.take(k as int));
                assert(rect_brush_points(lv.take(k + 1), lenght as int, width as int) == prev + rp);
                lemma_paint_concat(start.image, start.mask, start.mask_enabled, prev, rp, color.data);
            }
            k += 1;
        }
        proof {
            assert(lv.take(n as int) =~= lv);
        }
    }
}

impl Canvas {
    /// Saves the image for undo, then paints it opaque white.
    pub fn clear(&mut self)
        requires
            old(self).wf(),
        ensures
            final(self).wf(),
            final(self)@.undo == old(self)@.saved().undo,
            final(self)@.image.width == old(self)@.image.width,
            final(self)@.image.height == old(self)@.image.height,
            final(self)@.image.pixels.len() == old(self)@.image.pixels.len(),
            forall|i: int| 0 <= i < final(self)@.image.pixels.len() ==> #[trigger] final(self)@.image.pixels[i].data == rgba_word(255, 255, 255, 255),
            final(self)@.mask == old(self)@.mask,
            final(self)@.mask_flag == old(self)@.mask_flag,
            final(self)@.mask_enabled == old(self)@.mask_enabled,
            final(self)@.copy_buffer == old(self)@.copy_buffer,
            final(self)@.rect == old(self)@.rect,
    {
        self.undo_save();
        let ghost u = self@.undo;
        self.image.set(Color::rgba(255, 255, 255, 255));
        assert(self@.undo =~= u);
    }

    /// Saves the image for undo, then flood fills it from (x, y) with
    /// `color`.
    pub fn fill(&mut self, x: i32, y: i32, color: Color)
        requires
            old(self).wf(),
            old(self)@.image.width <= i32::MAX,
            old(self)@.image.height <= i32::MAX,
        ensures
            final(self).wf(),
            final(self)@.undo == old(self)@.saved().undo,
            final(self)@.mask == old(self)@.mask,
            final(self)@.mask_flag == old(self)@.mask_flag,
            final(self)@.mask_enabled == old(self)@.mask_enabled,
            final(self)@.copy_buffer == old(self)@.copy_buffer,
            final(self)@.rect == old(self)@.rect,
            ({
                let img = old(self)@.image;
                let old_c = img.pixcol_word(x as int, y as int);
                let res = blend_word(old_c, color.data);
                &&& !fill_changes(old_c, color.data) || !img.in_bounds(x as int, y as int) ==> final(self)@.image == img
                &&& fill_changes(old_c, color.data) ==> repaints_only(img, final(self)@.image, old_c, res)
                &&& fill_changes(old_c, color.data) ==> fill_closed(img, final(self)@.image, old_c)
                &&& fill_changes(old_c, color.data) && img.in_bounds(x as int, y as int) ==> final(self)@.image.pixels[img.index(x as int, y as int)].data == res
                &&& changes_reached(img, final(self)@.image, x as int, y as int, either_word(old_c, res))
                &&& lacks_word(img, res) ==> changes_reached(img, final(self)@.image, x as int, y as int, only_word(old_c))
            }),
    {
        self.undo_save();
        let ghost u = self@.undo;
        self.image.fill(x, y, color);
        assert(self@.undo =~= u);
    }

    /// Saves the image for undo, then pastes `newimage` starting at (x, y)
    /// with the given opacity.
    pub fn paste_selection(&mut self, x: i32, y: i32, opacity: u8, newimage: Image)
        requires
            old(self).wf(),
            newimage.wf(),
            paste_fits(x as int, y as int, newimage@),
        ensures
            final(self).wf(),
            final(self)@.undo == old(self)@.saved().undo,
            final(self)@.mask == old(self)@.mask,
            final(self)@.mask_flag == old(self)@.mask_flag,
            final(self)@.mask_enabled == old(self)@.mask_enabled,
            final(self)@.copy_buffer == old(self)@.copy_buffer,
            final(self)@.rect == old(self)@.rect,
            final(self)@.image.width == old(self)@.image.width,
            final(self)@.image.height == old(self)@.image.height,
            forall|tx: int, ty: int|
                old(self)@.image.in_bounds(tx, ty) ==> #[trigger] final(self)@.image.pixels[old(self)@.image.index(tx, ty)]
                    == pasted_at(old(self)@.image, newimage@, x as int, y as int, opacity, tx, ty),
    {
        self.undo_save();
        let ghost u = self@.undo;
        self.image.paste_selection(x, y, opacity, newimage);
        assert(self@.undo =~= u);
    }

    /// Pastes the copy buffer starting at (x, y) with the given opacity.
    pub fn paste_buffer(&mut self, x: i32, y: i32, opacity: u8)
        requires
            old(self).wf(),
            paste_fits(x as int, y as int, old(self)@.copy_buffer),
        ensures
            final(self).wf(),
            final(self)@.undo == old(self)@.undo,
            final(self)@.mask == old(self)@.mask,
            final(self)@.mask_flag == old(self)@.mask_flag,
            final(self)@.mask_enabled == old(self)@.mask_enabled,
            final(self)@.copy_buffer == old(self)@.copy_buffer,
            final(self)@.rect == old(self)@.rect,
            final(self)@.image.width == old(self)@.image.width,
            final(self)@.image.height == old(self)@.image.height,
            forall|tx: int, ty: int|
                old(self)@.image.in_bounds(tx, ty) ==> #[trigger] final(self)@.image.pixels[old(self)@.image.index(tx, ty)]
                    == pasted_at(old(self)@.image, old(self)@.copy_buffer, x as int, y as int, opacity, tx, ty),
    {
        let ghost u = self@.undo;
        let buffer = self.copy_buffer.copy();
        self.image.paste_selection(x, y, opacity, buffer);
        assert(self@.undo =~= u);
    }

    /// Swaps the image and the mask, so that painting goes to the mask, or
    /// back to the image. The mask is applied to painting exactly when the
    /// image is being painted.
    pub fn paint_on_mask(&mut self)
        requires
            old(self).wf(),
        ensures
            final(self).wf(),
            final(self)@ == (CanvasView {
                image: old(self)@.mask,
                mask: old(self)@.image,
                mask_flag: !old(self)@.mask_flag,
                mask_enabled: old(self)@.mask_flag,
                ..old(self)@
            }),
    {
        let ghost u = self@.undo;
        let image2 = self.image.copy();
        self.image = self.mask.copy();
        self.mask = image2;
        if self.mask_flag {
            self.mask_flag = false;
            self.enable_mask(true);
        } else {
            self.mask_flag = true;
            self.enable_mask(false);
        }
        assert(self@.undo =~= u);
    }

    /// Paints the mask (or the image, while painting on the mask) with the
    /// translucent red of a fresh mask.
    pub fn clear_mask(&mut self)
        requires
            old(self).wf(),
        ensures
            final(self).wf(),
            final(self)@.undo == old(self)@.undo,
            final(self)@.mask_flag == old(self)@.mask_flag,
            final(self)@.mask_enabled == old(self)@.mask_enabled,
            final(self)@.copy_buffer == old(self)@.copy_buffer,
            final(self)@.rect == old(self)@.rect,
            old(self)@.mask_flag ==> final(self)@.mask == old(self)@.mask,
            !old(self)@.mask_flag ==> final(self)@.image == old(self)@.image,
            ({
                let target = if old(self)@.mask_flag { final(self)@.image } else { final(self)@.mask };
                let before = if old(self)@.mask_flag { old(self)@.image } else { old(self)@.mask };
                &&& target.width == before.width
                &&& target.height == before.height
                &&& target.pixels.len() == before.pixels.len()
                &&& forall|i: int| 0 <= i < target.pixels.len() ==> #[trigger] target.pixels[i].data == rgba_word(255, 0, 0, 50)
            }),
    {
        let ghost u = self@.undo;
        if self.mask_flag {
            self.image.set(Color::rgba(255, 0, 0, 50));
        } else {
            self.mask.set(Color::rgba(255, 0, 0, 50));
        }
        assert(self@.undo =~= u);
    }

    /// Turns applying the mask on or off.
    pub fn enable_mask(&mut self, status: bool)
        ensures
            final(self)@ == (CanvasView { mask_enabled: status, ..old(self)@ }),
    {
        let ghost u = self@.undo;
        self.mask_enabled = status;
        assert(self@.undo =~= u);
    }

    /// Whether painting currently goes to the mask.
    pub fn mask_flag(&self) -> (flag: bool)
        ensures
            flag == self@.mask_flag,
    {
        let flag = self.mask_flag;
        flag
    }
}

/// Undo brings back the image that the last save stored: whatever is drawn
/// on a canvas after `undo_save`, as long as the undo stack is left alone,
/// `undo` restores the image as it was at the save.
pub proof fn lemma_undo_restores(before: CanvasView, later: CanvasView)
    requires
        before.wf(),
        later.undo == before.saved().undo,
    ensures
        later.undone().image == before.image,
        later.undone().undo.len() == later.undo.len() - 1,
{
}

/// The undo stack never holds more than `UNDODEPTH` images: saving on a
/// well formed canvas gives a well formed canvas.
pub proof fn lemma_save_keeps_bound(c: CanvasView)
    requires
        c.wf(),
    ensures
        c.saved().wf(),
        c.saved().undo.len() <= UNDODEPTH,
        c.saved().undo.last() == c.image,
{
    let s = c.saved();
    assert forall|i: int| 0 <= i < s.undo.len() implies (#[trigger] s.undo[i]).wf() && s.undo[i].width == s.image.width
        && s.undo[i].height == s.image.height by {
        if c.undo.len() + 1 > UNDODEPTH {
            assert(s.undo[i] == c.undo.push(c.image)[i + 1]);
        } else {
            assert(s.undo[i] == c.undo.push(c.image)[i]);
        }
    }
}

/// Switching to painting on the mask and back restores the canvas.
pub proof fn lemma_paint_on_mask_twice(c: CanvasView)
    ensures
        ({
            let once = CanvasView {
                image: c.mask,
                mask: c.image,
                mask_flag: !c.mask_flag,
                mask_enabled: c.mask_flag,
                ..c
            };
            let twice = CanvasView {
                image: once.mask,
                mask: once.image,
                mask_flag: !once.mask_flag,
                mask_enabled: once.mask_flag,
                ..once
            };
            twice == CanvasView { mask_enabled: !c.mask_flag, ..c }
        }),
{
}

impl Rect {
    /// The point (px, py) lies in the rectangle.
    pub open spec fn has(self, px: int, py: int) -> bool {
        px >= self.x && px < self.x + (self.width as i32) && py >= self.y && py < self.y + (self.height as i32)
    }

    /// Whether (px, py) lies in the rectangle: from its corner up to, not
    /// including, the corner plus its size (each size read as an `i32`).
    pub fn contains(&self, px: i32, py: i32) -> (b: bool)
        requires
            i32::MIN <= self.x + (self.width as i32) <= i32::MAX,
            i32::MIN <= self.y + (self.height as i32) <= i32::MAX,
        ensures
            b == self.has(px as int, py as int),
    {
        px >= self.x && px < self.x + (self.width as i32) && py >= self.y && py < self.y + (self.height as i32)
    }
}

/// What the canvas widget is told.
#[derive(Clone, Copy, Debug)]
pub enum WidgetEvent {
    /// The mouse at (x, y) in window coordinates, with its buttons.
    Mouse { x: i32, y: i32, left: bool, right: bool, middle: bool },
    /// A typed character.
    Text { c: char },
    Other,
}

/// What the canvas widget asks of its owner after an event: the callbacks
/// to call, in the order of the fields, and whether to redraw.
#[derive(Clone, Copy, Debug)]
pub struct EventResponse {
    pub right_click: Option<(i32, i32)>,
    pub click: Option<(i32, i32)>,
    pub middle: bool,
    pub clear_click: bool,
    pub shortcut: Option<char>,
    pub redraw: bool,
}

/// The characters that are shortcuts for the owner of the canvas.
pub open spec fn is_shortcut(c: char) -> bool {
    c == 'v' || c == 'c' || c == 'x' || c == 'Q'
}

/// The response to an event that asks for nothing.
pub open spec fn no_response() -> EventResponse {
    EventResponse { right_click: None, click: None, middle: false, clear_click: false, shortcut: None, redraw: false }
}

impl Canvas {
    /// Handles an event of the widget. A mouse event inside the canvas's
    /// rectangle reports a right click and a left click at the point
    /// relative to the rectangle, and when no button is down, that the
    /// last click is to be forgotten. The character `z` undoes; `v`, `c`,
    /// `x` and `Q` go to the owner as shortcuts.
    pub fn event(&mut self, ev: WidgetEvent) -> (resp: EventResponse)
        requires
            old(self).wf(),
            i32::MIN <= old(self)@.rect.x + (old(self)@.rect.width as i32) <= i32::MAX,
            i32::MIN <= old(self)@.rect.y + (old(self)@.rect.height as i32) <= i32::MAX,
            ev matches WidgetEvent::Mouse { x, y, .. } ==> i32::MIN <= x - old(self)@.rect.x <= i32::MAX
                && i32::MIN <= y - old(self)@.rect.y <= i32::MAX,
        ensures
            final(self).wf(),
            match ev {
                WidgetEvent::Mouse { x, y, left, right, middle } => final(self)@ == old(self)@ && if old(self)@.rect.has(x as int, y as int) {
                    let p = ((x - old(self)@.rect.x) as i32, (y - old(self)@.rect.y) as i32);
                    resp == (EventResponse {
                        right_click: if right { Some(p) } else { None },
                        click: if left { Some(p) } else { None },
                        middle,
                        clear_click: !left && !right && !middle,
                        shortcut: None,
                        redraw: left || right,
                    })
                } else {
                    resp == no_response()
                },
                WidgetEvent::Text { c } => {
                    &&& final(self)@ == if c == 'z' { old(self)@.undone() } else { old(self)@ }
                    &&& resp == (EventResponse { shortcut: if is_shortcut(c) { Some(c) } else { None }, redraw: c == 'z', ..no_response() })
                },
                WidgetEvent::Other => final(self)@ == old(self)@ && resp == no_response(),
            },
    {
        let mut resp = EventResponse { right_click: None, click: None, middle: false, clear_click: false, shortcut: None, redraw: false };
        match ev {
            WidgetEvent::Mouse { x, y, left, right, middle } => {
                if self.rect.contains(x, y) {
                    let p = (x - self.rect.x, y - self.rect.y);
                    if right {
                        resp.right_click = Some(p);
                        resp.redraw = true;
                    }
                    if left {
                        resp.click = Some(p);
                        resp.redraw = true;
                    }
                    resp.middle = middle;
                    if !right && !left && !middle {
                        resp.clear_click = true;
                    }
                }
            },
            WidgetEvent::Text { c } => {
                if c == 'z' {
                    self.undo();
                    resp.redraw = true;
                }
                if c == 'v' || c == 'c' || c == 'x' || c == 'Q' {
                    resp.shortcut = Some(c);
                }
            },
            WidgetEvent::Other => {},
        }
        resp
    }
}

impl Canvas {
    /// Saves the image for undo, clears it to black when `clear` is set,
    /// and draws the `width` by `height` pixels `new_slice` over it at its
    /// top left corner: how a transformed image is put on the canvas.
    pub fn transformation_with(&mut self, new_slice: &[Color], width: u32, height: u32, clear: bool)
        requires
            old(self).wf(),
        ensures
            final(self).wf(),
            final(self)@.undo == old(self)@.saved().undo,
            final(self)@.mask == old(self)@.mask,
            final(self)@.mask_flag == old(self)@.mask_flag,
            final(self)@.mask_enabled == old(self)@.mask_enabled,
            final(self)@.copy_buffer == old(self)@.copy_buffer,
            final(self)@.rect == old(self)@.rect,
            final(self)@.image.width == old(self)@.image.width,
            final(self)@.image.height == old(self)@.image.height,
            forall|tx: int, ty: int|
                old(self)@.image.in_bounds(tx, ty) ==> #[trigger] final(self)@.image.pixels[old(self)@.image.index(tx, ty)]
                    == blit_at(
                    if clear { black_image(old(self)@.image) } else { old(self)@.image },
                    0,
                    0,
                    width as int,
                    height as int,
                    new_slice@,
                    tx,
                    ty,
                ),
    {
        self.undo_save();
        let ghost u = self@.undo;
        let ghost base = if clear { black_image(self@.image) } else { self@.image };
        if clear {
            self.image.clear();
            assert(self@.image.pixels =~= base.pixels);
        }
        assert(self@.image == base);
        self.image.image(0, 0, width, height, new_slice);
        assert(self@.undo =~= u);
    }

    /// Saves the image for undo and replaces it by its transformation:
    /// the transformed pixels are drawn over the image at its top left
    /// corner, over black for a quarter turn or a resize.
    pub fn transformation(&mut self, t: Transform)
        requires
            old(self).wf(),
            transform_fits(old(self)@.image.width, old(self)@.image.height, t),
        ensures
            final(self).wf(),
            final(self)@.undo == old(self)@.saved().undo,
            final(self)@.mask == old(self)@.mask,
            final(self)@.mask_flag == old(self)@.mask_flag,
            final(self)@.mask_enabled == old(self)@.mask_enabled,
            final(self)@.copy_buffer == old(self)@.copy_buffer,
            final(self)@.rect == old(self)@.rect,
            final(self)@.image.width == old(self)@.image.width,
            final(self)@.image.height == old(self)@.image.height,
            ({
                let img = old(self)@.image;
                let size = transformed_size(img.width, img.height, t);
                let base = if t is Rotate90 || t is Resize { black_image(img) } else { img };
                forall|tx: int, ty: int|
                    img.in_bounds(tx, ty) ==> #[trigger] final(self)@.image.pixels[img.index(tx, ty)] == blit_at(
                        base,
                        0,
                        0,
                        size.0 as int,
                        size.1 as int,
                        transformed(img.width, img.height, img.pixels, t),
                        tx,
                        ty,
                    )
            }),
    {
        let w = self.image.width();
        let h = self.image.height();
        let new_slice = trans_from_slice(self.image.data(), w, h, t);
        let clear = match t {
            Transform::Rotate90 | Transform::Resize { .. } => true,
            _ => false,
        };
        let (nw, nh) = match t {
            Transform::Rotate90 => (h, w),
            Transform::Resize { width, height } => (width, height),
            _ => (w, h),
        };
        self.transformation_with(&new_slice, nw, nh, clear);
    }

    /// The image after filling the rectangle with opaque white and drawing
    /// the `nw` by `nh` pixels `part` at its corner.
    pub open spec fn selection_put(img: ImageView, selection: Rect, part: Seq<Color>, nw: u32, nh: u32) -> ImageView {
        let (x, y, w, h) = (selection.x as int, selection.y as int, selection.width as int, selection.height as int);
        let filled = ImageView {
            pixels: Seq::new(img.pixels.len(), |i: int| filled_at(img, x, y, w, h, rgba_word(255, 255, 255, 255), i % img.width as int, i / img.width as int)),
            ..img
        };
        ImageView {
            pixels: Seq::new(img.pixels.len(), |i: int| blit_at(filled, x, y, nw as int, nh as int, part, i % img.width as int, i / img.width as int)),
            ..img
        }
    }

    /// Saves the image for undo, fills the rectangle of `selection` with
    /// opaque white and draws the `nw` by `nh` pixels `part` at its
    /// corner: how a transformed selection is put back.
    pub fn put_selection(&mut self, selection: Rect, part: &[Color], nw: u32, nh: u32)
        requires
            old(self).wf(),
            selection.width <= i32::MAX,
            selection.height <= i32::MAX,
            selection.x + selection.width <= i32::MAX,
            selection.y + selection.height <= i32::MAX,
            old(self)@.image.width <= i32::MAX,
            old(self)@.image.height <= i32::MAX,
        ensures
            final(self).wf(),
            final(self)@ == old(self)@.saved().with_image(Self::selection_put(old(self)@.image, selection, part@, nw, nh)),
    {
        let ghost img = self@.image;
        self.undo_save();
        let ghost saved = self@;
        let x = selection.x;
        let y = selection.y;
        let w = selection.width;
        let h = selection.height;
        self.image.rect(x, y, w, h, Color::rgba(255, 255, 255, 255));
        let ghost filled = self@.image;
        let ghost fv = ImageView {
            pixels: Seq::new(img.pixels.len(), |i: int| filled_at(img, x as int, y as int, w as int, h as int, rgba_word(255, 255, 255, 255), i % img.width as int, i / img.width as int)),
            ..img
        };
        proof {
            assert forall|i: int| 0 <= i < img.pixels.len() implies #[trigger] filled.pixels[i] == fv.pixels[i] by {
                lemma_block_split(i, img.width as int, img.height as int);
                let (tx, ty) = (i % img.width as int, i / img.width as int);
                assert(filled.pixels[img.index(tx, ty)] == filled_at(img, x as int, y as int, w as int, h as int, rgba_word(255, 255, 255, 255), tx, ty));
            }
            assert(filled.pixels =~= fv.pixels);
            assert(filled == fv);
        }
        self.image.image(x, y, nw, nh, part);
        proof {
            let target = Self::selection_put(img, selection, part@, nw, nh);
            assert forall|i: int| 0 <= i < img.pixels.len() implies #[trigger] self@.image.pixels[i] == target.pixels[i] by {
                lemma_block_split(i, img.width as int, img.height as int);
                let (tx, ty) = (i % img.width as int, i / img.width as int);
                assert(self@.image.pixels[fv.index(tx, ty)] == blit_at(fv, x as int, y as int, nw as int, nh as int, part@, tx, ty));
            }
            assert(self@.image.pixels =~= target.pixels);
            assert(self@.undo =~= saved.undo);
        }
    }

    /// Saves the image for undo and transforms the part under `selection`:
    /// the part is copied (pure white turning transparent), transformed,
    /// the rectangle filled with opaque white, and the result drawn at the
    /// selection's corner; a resized part is drawn at its new size.
    pub fn trans_selection(&mut self, selection: Rect, t: Transform)
        requires
            old(self).wf(),
            transform_fits(selection.width, selection.height, t),
            selection.width as int * selection.height as int <= usize::MAX,
            selection.width <= i32::MAX,
            selection.height <= i32::MAX,
            selection.x + selection.width <= i32::MAX,
            selection.y + selection.height <= i32::MAX,
            old(self)@.image.width <= i32::MAX,
            old(self)@.image.height <= i32::MAX,
        ensures
            final(self).wf(),
            ({
                let img = old(self)@.image;
                let (w, h) = (selection.width, selection.height);
                let size = transformed_size(w, h, t);
                let part = transformed(w, h, selection_pixels(img, selection.x as int, selection.y as int, w as int, h as int), t);
                final(self)@ == old(self)@.saved().with_image(Self::selection_put(img, selection, part, size.0, size.1))
            }),
    {
        let ghost img = self@.image;
        let x = selection.x;
        let y = selection.y;
        let w = selection.width;
        let h = selection.height;
        let part_img = self.image.copy_selection(x, y, w, h);
        proof {
            assert(w > 0) by (nonlinear_arith)
                requires
                    w * h > 0,
            ;
            let sp = selection_pixels(img, x as int, y as int, w as int, h as int);
            assert forall|k: int| 0 <= k < w * h implies #[trigger] part_img@.pixels[k] == sp[k] by {
                lemma_block_split(k, w as int, h as int);
                let (i, j) = (k % w as int, k / w as int);
                assert(part_img@.pixels[j * w + i].data == white_to_clear(img.pixcol_word(x + i, y + j)));
            }
            assert(part_img@.pixels =~= sp);
        }
        let part = trans_from_slice(part_img.data(), w, h, t);
        let (nw, nh) = match t {
            Transform::Rotate90 => (h, w),
            Transform::Resize { width, height } => (width, height),
            _ => (w, h),
        };
        self.put_selection(selection, &part, nw, nh);
    }
}

impl Canvas {
    /// What saving the canvas writes: the width and height of its
    /// rectangle, and the red, green, blue and alpha bytes of each pixel of
    /// the image. The image must not be empty.
    pub fn save_buffer(&self) -> (r: (u32, u32, Vec<u8>))
        requires
            self.wf(),
            self@.image.pixels.len() > 0,
            4 * self@.image.pixels.len() <= usize::MAX,
        ensures
            r.0 == self@.rect.width,
            r.1 == self@.rect.height,
            r.2@ == rgba_bytes_of(self@.image.pixels),
    {
        let bytes = rgba_bytes(self.image.data());
        (self.rect.width, self.rect.height, bytes)
    }
}

} // verus!

verus! {

impl Canvas {
    /// The color of the image at (x, y), or transparent black where (x, y)
    /// lies outside the image.
    fn pixcol(&self, x: i32, y: i32) -> (c: Color)
        requires
            self.wf(),
        ensures
            c.data == self@.image.pixcol_word(x as int, y as int),
            self@.image.in_bounds(x as int, y as int) ==> c == self@.image.pixels[self@.image.index(x as int, y as int)],
    {
        proof {
            if self@.image.in_bounds(x as int, y as int) {
                lemma_index_bounds(self@.image.width as int, self@.image.height as int, x as int, y as int);
            }
        }
        self.image.pixcol(x, y)
    }

    /// Scanline flood fill through the mask: as the image's scanline fill,
    /// with every pixel painted through the mask, so that pixels may get
    /// different words; the neighbouring rows are searched only along the
    /// pixels that got the start pixel's new word.
    #[verifier::rlimit(100)]
    #[verifier::spinoff_prover]
    fn flood_fill_scanline(&mut self, x: i32, y: i32, new_color: u32, old_color: u32)
        requires
            old(self).wf(),
            old(self)@.image.width <= i32::MAX,
            old(self)@.image.height <= i32::MAX,
            old(self)@.image.in_bounds(x as int, y as int),
            old_color == new_color || paint_changes(old(self)@, old_color, new_color),
        ensures
            final(self).wf(),
            final(self)@ == old(self)@.with_image(final(self)@.image),
            old_color != new_color ==> repaints_masked(old(self)@, old(self)@.image, final(self)@.image, old_color, new_color),
            old_color != new_color && old(self)@.image.pixels[old(self)@.image.index(x as int, y as int)].data == old_color
                ==> final(self)@.image.pixels[old(self)@.image.index(x as int, y as int)].data
                == masked_result(old(self)@, x as int, y as int, old_color, new_color),
            old_color == new_color || old(self)@.image.pixels[old(self)@.image.index(x as int, y as int)].data != old_color
                ==> final(self)@ == old(self)@,
            changes_reached(old(self)@.image, final(self)@.image, x as int, y as int, canvas_words(old(self)@, old_color, new_color)),
            old_color != new_color ==> rows_closed(old(self)@.image, final(self)@.image, old_color),
            old_color != new_color ==> stretch_closed(old(self)@, final(self)@.image, x as int, y as int, old_color, new_color),
            old_color != new_color && paint_uniform(old(self)@, old_color, new_color)
                ==> fill_closed(old(self)@.image, final(self)@.image, old_color),
            old_color != new_color ==> forall|px: int|
                old(self)@.image.in_bounds(px, y as int) && run_between(old(self)@.image, y as int, x as int, px, old_color)
                    ==> #[trigger] final(self)@.image.pixels[old(self)@.image.index(px, y as int)].data
                    == masked_result(old(self)@, px, y as int, old_color, new_color),
        decreases count_word(old(self)@.image.pixels, old_color),
    {
        if old_color == new_color {
            return;
        }
        if self.pixcol(x, y).data != old_color {
            proof {
                lemma_index_bounds(old(self)@.image.width as int, old(self)@.image.height as int, x as int, y as int);
                lemma_no_stretch(old(self)@, old(self)@.image, x as int, y as int, old_color, new_color);
            }
            return;
        }
        let ghost entry = self@;
        let ghost img = entry.image;
        let ghost si = img.index(x as int, y as int);
        let ghost ok = canvas_words(entry, old_color, new_color);
        let w = self.width() as i32;
        let h = self.height() as i32;
        proof {
            lemma_index_bounds(w as int, h as int, x as int, y as int);
            assert(repaints_masked(entry, img, img, old_color, new_color));
        }

        // paint the current row from the start position to the right
        let mut x1: i32 = x;
        while x1 < w && self.pixcol(x1, y).data == old_color
            invariant
                self.wf(),
                entry.wf(),
                img == entry.image,
                w == img.width,
                h == img.height,
                w <= i32::MAX,
                img.in_bounds(x as int, y as int),
                si == img.index(x as int, y as int),
                img.pixels[si].data == old_color,
                x <= x1 <= w,
                self@ == entry.with_image(self@.image),
                repaints_masked(entry, img, self@.image, old_color, new_color),
                x1 > x ==> self@.image.pixels[si].data == masked_result(entry, x as int, y as int, old_color, new_color),
                row_painted(entry, self@.image, y as int, x as int, x1 as int, old_color, new_color),
                forall|q: int| 0 <= q < w && !(x <= q < x1) ==> #[trigger] self@.image.pixels[img.index(q, y as int)] == img.pixels[img.index(q, y as int)],
                ok == canvas_words(entry, old_color, new_color),
                changes_reached(img, self@.image, x as int, y as int, ok),
                forall|q: int| x <= q < x1 ==> #[trigger] img.pixels[img.index(q, y as int)].data == old_color,
                forall|px: int, py: int| img.in_bounds(px, py) && py != y ==> #[trigger] self@.image.pixels[img.index(px, py)] == img.pixels[img.index(px, py)],
            decreases w - x1,
        {
            let ghost before = self@.image;
            proof {
                lemma_index_bounds(w as int, h as int, x1 as int, y as int);
                lemma_masked_step(entry, img, before, x1 as int, y as int, old_color, new_color);
                if x1 > x {
                    if si == img.index(x1 as int, y as int) {
                        lemma_index_row(w as int, x as int, y as int, x1 as int, y as int);
                    }
                }
            }
            self.pixel(x1, y, Color { data: new_color });
            proof {
                assert forall|q: int| 0 <= q < w && q != x1 implies #[trigger] self@.image.pixels[img.index(q, y as int)] == before.pixels[img.index(q, y as int)] by {
                    lemma_index_bounds(w as int, h as int, q, y as int);
                    if img.index(q, y as int) == img.index(x1 as int, y as int) {
                        lemma_index_row(w as int, x1 as int, y as int, q, y as int);
                    }
                }
                assert(before.pixels[img.index(x1 as int, y as int)] == img.pixels[img.index(x1 as int, y as int)]);
                assert forall|q: int| (if x <= x1 { x <= q <= x1 } else { x1 <= q <= x }) implies #[trigger] ok(img.pixels[img.index(q, y as int)].data) by {
                    assert(img.pixels[img.index(q, y as int)].data == old_color);
                }
                lemma_reached_row(img, y as int, x as int, x1 as int, ok);
                lemma_paint_reached(img, before, self@.image, x as int, y as int, x1 as int, ok);
                assert forall|px: int, py: int| img.in_bounds(px, py) && py != y implies #[trigger] self@.image.pixels[img.index(px, py)] == before.pixels[img.index(px, py)] by {
                    lemma_index_bounds(w as int, h as int, px, py);
                    if img.index(px, py) == img.index(x1 as int, y as int) {
                        lemma_index_row(w as int, x1 as int, y as int, px, py);
                    }
                }
            }
            x1 = x1 + 1;
        }
        let ghost r = x1 as int;
        proof {
            if r < w {
                lemma_index_bounds(w as int, h as int, r, y as int);
                assert(self@.image.pixels[img.index(r, y as int)] == img.pixels[img.index(r, y as int)]);
            }
        }
        // the start pixel was painted on the first step
        let res_color = self.pixcol(x, y).data;
        assert(res_color == masked_result(entry, x as int, y as int, old_color, new_color));

        // paint the current row from the start position to the left
        x1 = x - 1;
        while x1 >= 0 && self.pixcol(x1, y).data == old_color
            invariant
                self.wf(),
                entry.wf(),
                img == entry.image,
                w == img.width,
                h == img.height,
                w <= i32::MAX,
                img.in_bounds(x as int, y as int),
                si == img.index(x as int, y as int),
                -1 <= x1 < x,
                self@ == entry.with_image(self@.image),
                repaints_masked(entry, img, self@.image, old_color, new_color),
                self@.image.pixels[si].data == masked_result(entry, x as int, y as int, old_color, new_color),
                res_color == masked_result(entry, x as int, y as int, old_color, new_color),
                paint_changes(entry, old_color, new_color),
                x < r <= w,
                r == w || img.pixels[img.index(r, y as int)].data != old_color,
                row_painted(entry, self@.image, y as int, x1 + 1, r, old_color, new_color),
                forall|q: int| 0 <= q <= x1 ==> #[trigger] self@.image.pixels[img.index(q, y as int)] == img.pixels[img.index(q, y as int)],
                ok == canvas_words(entry, old_color, new_color),
                changes_reached(img, self@.image, x as int, y as int, ok),
                forall|q: int| x1 < q < r ==> #[trigger] img.pixels[img.index(q, y as int)].data == old_color,
                forall|px: int, py: int| img.in_bounds(px, py) && py != y ==> #[trigger] self@.image.pixels[img.index(px, py)] == img.pixels[img.index(px, py)],
                forall|q: int| r <= q < w ==> #[trigger] self@.image.pixels[img.index(q, y as int)] == img.pixels[img.index(q, y as int)],
            decreases x1 + 1,
        {
            let ghost before = self@.image;
            proof {
                lemma_index_bounds(w as int, h as int, x1 as int, y as int);
                lemma_masked_step(entry, img, before, x1 as int, y as int, old_color, new_color);
                if si == img.index(x1 as int, y as int) {
                    lemma_index_row(w as int, x as int, y as int, x1 as int, y as int);
                }
            }
            self.pixel(x1, y, Color { data: new_color });
            proof {
                assert forall|q: int| 0 <= q < w && q != x1 implies #[trigger] self@.image.pixels[img.index(q, y as int)] == before.pixels[img.index(q, y as int)] by {
                    lemma_index_bounds(w as int, h as int, q, y as int);
                    if img.index(q, y as int) == img.index(x1 as int, y as int) {
                        lemma_index_row(w as int, x1 as int, y as int, q, y as int);
                    }
                }
                assert(self@.image.pixels[img.index(x1 as int, y as int)].data == masked_result(entry, x1 as int, y as int, old_color, new_color));
                assert(before.pixels[img.index(x1 as int, y as int)] == img.pixels[img.index(x1 as int, y as int)]);
                assert forall|q: int| (if x <= x1 { x <= q <= x1 } else { x1 <= q <= x }) implies #[trigger] ok(img.pixels[img.index(q, y as int)].data) by {
                    assert(img.pixels[img.index(q, y as int)].data == old_color);
                }
                lemma_reached_row(img, y as int, x as int, x1 as int, ok);
                lemma_paint_reached(img, before, self@.image, x as int, y as int, x1 as int, ok);
                assert forall|px: int, py: int| img.in_bounds(px, py) && py != y implies #[trigger] self@.image.pixels[img.index(px, py)] == before.pixels[img.index(px, py)] by {
                    lemma_index_bounds(w as int, h as int, px, py);
                    if img.index(px, py) == img.index(x1 as int, y as int) {
                        lemma_index_row(w as int, x1 as int, y as int, px, py);
                    }
                }
            }
            x1 = x1 - 1;
        }
        let ghost l = x1 as int;
        let ghost mid = self@.image;
        proof {
            if l >= 0 {
                lemma_index_bounds(w as int, h as int, l, y as int);
                assert(self@.image.pixels[img.index(l, y as int)] == img.pixels[img.index(l, y as int)]);
            }
            assert forall|px: int, py: int|
                img.in_bounds(px, py) && (py != y || px <= l || px >= r)
                    implies #[trigger] mid.pixels[img.index(px, py)] == img.pixels[img.index(px, py)] by {
                if py == y {
                    if px <= l {
                        assert(mid.pixels[img.index(px, y as int)] == img.pixels[img.index(px, y as int)]);
                    } else {
                        assert(mid.pixels[img.index(px, y as int)] == img.pixels[img.index(px, y as int)]);
                    }
                }
            }
            assert(repaints_masked(entry, mid, mid, old_color, new_color));
        }

        // search the rows above and below along the pixels of the start
        // pixel's new word, to the right and to the left
        let mut pass: u8 = 0;
        while pass < 4
            invariant
                self.wf(),
                entry.wf(),
                img == entry.image,
                w == img.width,
                h == img.height,
                w <= i32::MAX,
                h <= i32::MAX,
                img.in_bounds(x as int, y as int),
                si == img.index(x as int, y as int),
                img.pixels[si].data == old_color,
                entry == old(self)@,
                self@ == entry.with_image(self@.image),
                repaints_masked(entry, img, self@.image, old_color, new_color),
                self@.image.pixels[si].data == masked_result(entry, x as int, y as int, old_color, new_color),
                res_color == masked_result(entry, x as int, y as int, old_color, new_color),
                paint_changes(entry, old_color, new_color),
                old_color != new_color,
                -1 <= l < x < r <= w,
                r == w || img.pixels[img.index(r, y as int)].data != old_color,
                l == -1 || img.pixels[img.index(l, y as int)].data != old_color,
                row_painted(entry, self@.image, y as int, l + 1, r, old_color, new_color),
                ok == canvas_words(entry, old_color, new_color),
                changes_reached(img, self@.image, x as int, y as int, ok),
                pass <= 4,
                forall|q: int| l < q < r ==> #[trigger] img.pixels[img.index(q, y as int)].data == old_color,
                repaints_masked(entry, mid, self@.image, old_color, new_color),
                rows_closed(mid, self@.image, old_color),
                paint_uniform(entry, old_color, new_color) ==> fill_closed(mid, self@.image, old_color),
                forall|q: int, ny2: int|
                    in_stretch(entry, x as int, y as int, q, old_color, new_color) && pass_done(pass as int, x as int, y as int, q, ny2)
                        && img.in_bounds(q, ny2) ==> #[trigger] self@.image.pixels[img.index(q, ny2)].data != old_color,
            decreases 4 - pass,
        {
            let ny: i32 = if pass < 2 { y - 1 } else { y + 1 };
            let step: i32 = if pass % 2 == 0 { 1 } else { -1 };
            x1 = if pass % 2 == 0 { x } else { x - 1 };
            while 0 <= x1 && x1 < w && self.pixcol(x1, y).data == res_color
                invariant
                    self.wf(),
                    entry.wf(),
                    img == entry.image,
                    w == img.width,
                    h == img.height,
                    w <= i32::MAX,
                    h <= i32::MAX,
                    img.in_bounds(x as int, y as int),
                    si == img.index(x as int, y as int),
                    img.pixels[si].data == old_color,
                    entry == old(self)@,
                    self@ == entry.with_image(self@.image),
                    repaints_masked(entry, img, self@.image, old_color, new_color),
                    self@.image.pixels[si].data == masked_result(entry, x as int, y as int, old_color, new_color),
                    res_color == masked_result(entry, x as int, y as int, old_color, new_color),
                    paint_changes(entry, old_color, new_color),
                    old_color != new_color,
                    ny == y - 1 || ny == y + 1,
                    step == 1 || step == -1,
                    -1 <= x1 <= w,
                    -1 <= l < x < r <= w,
                    row_painted(entry, self@.image, y as int, l + 1, r, old_color, new_color),
                    ok == canvas_words(entry, old_color, new_color),
                    changes_reached(img, self@.image, x as int, y as int, ok),
                    step == 1 ==> x <= x1 && row_holds(self@.image, y as int, x as int, x1 as int, res_color),
                    step == -1 ==> x1 < x && row_holds(self@.image, y as int, x1 + 1, x + 1, res_color),
                    pass < 4,
                    ny == (if pass < 2 { y - 1 } else { y + 1 }),
                    step == (if pass % 2 == 0 { 1int } else { -1int }),
                    r == w || img.pixels[img.index(r, y as int)].data != old_color,
                    l == -1 || img.pixels[img.index(l, y as int)].data != old_color,
                    forall|q: int| l < q < r ==> #[trigger] img.pixels[img.index(q, y as int)].data == old_color,
                    repaints_masked(entry, mid, self@.image, old_color, new_color),
                    rows_closed(mid, self@.image, old_color),
                    paint_uniform(entry, old_color, new_color) ==> fill_closed(mid, self@.image, old_color),
                    forall|q: int, ny2: int|
                        in_stretch(entry, x as int, y as int, q, old_color, new_color) && pass_done(pass as int, x as int, y as int, q, ny2)
                            && img.in_bounds(q, ny2) ==> #[trigger] self@.image.pixels[img.index(q, ny2)].data != old_color,
                    forall|q: int| (if step == 1 { x <= q < x1 } else { x1 < q < x }) && 0 <= ny < h
                        ==> #[trigger] self@.image.pixels[img.index(q, ny as int)].data != old_color,
                decreases if step == 1 { w - x1 } else { x1 + 1 },
            {
                let ghost lo_e: int = if step == 1 { x as int } else { x1 as int };
                let ghost hi_e: int = if step == 1 { x1 + 1 } else { x + 1 };
                proof {
                    lemma_index_bounds(w as int, h as int, x as int, y as int);
                    assert(row_holds(self@.image, y as int, lo_e, hi_e, res_color));
                    assert(res_color != old_color);
                }
                if 0 <= ny && ny < h && self.pixcol(x1, ny).data == old_color {
                    let ghost before = self@;
                    proof {
                        lemma_canvas_word(entry, x as int, y as int, old_color, new_color);
                        assert forall|q: int| (if x <= x1 { x <= q <= x1 } else { x1 <= q <= x }) implies #[trigger] ok(img.pixels[img.index(q, y as int)].data) by {
                            lemma_index_bounds(w as int, h as int, q, y as int);
                            assert(self@.image.pixels[self@.image.index(q, y as int)].data == res_color);
                            assert(img.in_bounds(q, y as int));
                            assert(self@.image.pixels[img.index(q, y as int)] == img.pixels[img.index(q, y as int)] || (img.pixels[img.index(q, y as int)].data
                                == old_color && self@.image.pixels[img.index(q, y as int)].data == masked_result(entry, q, y as int, old_color, new_color)));
                        }
                        lemma_reached_row(img, y as int, x as int, x1 as int, ok);
                        lemma_masked_old_back(entry, img, self@.image, x1 as int, ny as int, old_color, new_color);
                        lemma_reached_step(img, x as int, y as int, x1 as int, y as int, x1 as int, ny as int, ok);
                        lemma_index_bounds(w as int, h as int, x1 as int, ny as int);
                        assert(self@.image.pixels[si] != img.pixels[si]);
                        lemma_masked_count(entry, img, self@.image, x as int, y as int, old_color, new_color);
                        assert forall|px: int, py: int| self@.image.in_bounds(px, py) implies #[trigger] masked_result(self@, px, py, old_color, new_color) != old_color by {
                            assert(masked_result(entry, px, py, old_color, new_color) != old_color);
                        }
                    }
                    self.flood_fill_scanline(x1, ny, new_color, old_color);
                    proof {
                        assert(masked_result(before, 0, 0, old_color, new_color) == masked_result(entry, 0, 0, old_color, new_color));
                        assert forall|px: int, py: int| img.in_bounds(px, py) implies #[trigger] self@.image.pixels[img.index(px, py)] == before.image.pixels[img.index(px, py)] || (before.image.pixels[img.index(px, py)].data
                            == old_color && self@.image.pixels[img.index(px, py)].data == masked_result(entry, px, py, old_color, new_color)) by {
                            assert(masked_result(before, px, py, old_color, new_color) == masked_result(entry, px, py, old_color, new_color));
                            assert(before.image.index(px, py) == img.index(px, py));
                            assert(before.image.in_bounds(px, py));
                            assert(self@.image.pixels[before.image.index(px, py)] == before.image.pixels[before.image.index(px, py)] || (before.image.pixels[before.image.index(px, py)].data
                                == old_color && self@.image.pixels[before.image.index(px, py)].data == masked_result(before, px, py, old_color, new_color)));
                        }
                        assert(repaints_masked(entry, before.image, self@.image, old_color, new_color));
                        lemma_masked_trans(entry, img, before.image, self@.image, old_color, new_color);
                        lemma_row_stays(entry, before.image, self@.image, y as int, l + 1, r, old_color, new_color);
                        assert(before.image.pixels[si].data != old_color);
                        assert(canvas_words(before, old_color, new_color) == ok);
                        lemma_canvas_words_back(entry, img, before.image, old_color, new_color);
                        lemma_call_join(img, before.image, self@.image, x as int, y as int, x1 as int, ny as int, ok);
                        lemma_masked_row_holds_stays(entry, img, before.image, self@.image, y as int, lo_e, hi_e, old_color, new_color, res_color);
                        lemma_masked_trans(entry, mid, before.image, self@.image, old_color, new_color);
                        lemma_rows_closed_masked(entry, mid, before.image, self@.image, old_color, new_color);
                        if paint_uniform(entry, old_color, new_color) {
                            assert forall|p1: int, q1: int, p2: int, q2: int|
                                before.image.in_bounds(p1, q1) && before.image.in_bounds(p2, q2)
                                    implies #[trigger] masked_result(before, p1, q1, old_color, new_color)
                                    == #[trigger] masked_result(before, p2, q2, old_color, new_color) by {
                                assert(masked_result(before, p1, q1, old_color, new_color) == masked_result(entry, p1, q1, old_color, new_color));
                                assert(masked_result(before, p2, q2, old_color, new_color) == masked_result(entry, p2, q2, old_color, new_color));
                            }
                            lemma_closed_masked(entry, mid, before.image, self@.image, old_color, new_color);
                        }
                        lemma_masked_keeps(entry, img, before.image, self@.image, old_color, new_color);
                        assert forall|q: int, ny2: int|
                            in_stretch(entry, x as int, y as int, q, old_color, new_color) && pass_done(pass as int, x as int, y as int, q, ny2)
                                && img.in_bounds(q, ny2) implies #[trigger] self@.image.pixels[img.index(q, ny2)].data != old_color by {
                            assert(before.image.pixels[img.index(q, ny2)].data != old_color);
                            assert(self@.image.pixels[img.index(q, ny2)] == before.image.pixels[img.index(q, ny2)]);
                        }
                        assert forall|q: int| (if step == 1 { x <= q < x1 } else { x1 < q < x }) && 0 <= ny < h
                            implies #[trigger] self@.image.pixels[img.index(q, ny as int)].data != old_color by {
                            assert(before.image.pixels[img.index(q, ny as int)].data != old_color);
                            assert(self@.image.pixels[img.index(q, ny as int)] == before.image.pixels[img.index(q, ny as int)]);
                        }
                        assert(masked_result(before, x1 as int, ny as int, old_color, new_color) != old_color);
                        assert(self@.image.pixels[img.index(x1 as int, ny as int)].data != old_color);
                    }
                }
                x1 = x1 + step;
            }
            proof {
                // every column of the stretch on this side was searched
                assert forall|q: int, ny2: int|
                    in_stretch(entry, x as int, y as int, q, old_color, new_color) && pass_done(pass + 1, x as int, y as int, q, ny2)
                        && img.in_bounds(q, ny2) implies #[trigger] self@.image.pixels[img.index(q, ny2)].data != old_color by {
                    if !pass_done(pass as int, x as int, y as int, q, ny2) {
                        assert(ny2 == ny);
                        if step == 1 {
                            assert(x <= q);
                            if q >= x1 {
                                lemma_index_bounds(w as int, h as int, x1 as int, y as int);
                                assert(img.pixels[img.index(x1 as int, y as int)].data == old_color);
                                if x1 >= r {
                                    assert(img.pixels[img.index(r, y as int)].data == old_color);
                                }
                                assert(masked_result(entry, x1 as int, y as int, old_color, new_color) == res_color);
                                assert(self@.image.pixels[img.index(x1 as int, y as int)].data == res_color);
                                assert(false);
                            }
                        } else {
                            assert(q < x);
                            if q <= x1 {
                                lemma_index_bounds(w as int, h as int, x1 as int, y as int);
                                assert(img.pixels[img.index(x1 as int, y as int)].data == old_color);
                                if x1 <= l {
                                    assert(img.pixels[img.index(l, y as int)].data == old_color);
                                }
                                assert(masked_result(entry, x1 as int, y as int, old_color, new_color) == res_color);
                                assert(self@.image.pixels[img.index(x1 as int, y as int)].data == res_color);
                                assert(false);
                            }
                        }
                    }
                }
            }
            pass = pass + 1;
        }
        proof {
            assert forall|q: int, ny2: int|
                in_stretch(entry, x as int, y as int, q, old_color, new_color) && (ny2 == y - 1 || ny2 == y + 1) && img.in_bounds(q, ny2)
                    implies #[trigger] self@.image.pixels[img.index(q, ny2)].data != old_color by {
                assert(pass_done(4, x as int, y as int, q, ny2));
            }
            lemma_masked_assemble(entry, mid, self@.image, x as int, y as int, l, r, old_color, new_color);
        }
    }

    /// Fills from (x, y) with `color`, through the mask, the region of the
    /// start pixel's color. Without the mask this is the image's scanline
    /// fill; with it, pixels may get different words, and the rows above
    /// and below are searched only along the pixels that got the start
    /// pixel's new word.
    pub fn fill_mask(&mut self, x: i32, y: i32, color: Color)
        requires
            old(self).wf(),
            old(self)@.image.width <= i32::MAX,
            old(self)@.image.height <= i32::MAX,
            old(self)@.image.in_bounds(x as int, y as int),
            ({
                let old_c = old(self)@.image.pixels[old(self)@.image.index(x as int, y as int)].data;
                old_c == color.data || !old(self)@.mask_enabled || paint_changes(old(self)@, old_c, color.data)
            }),
        ensures
            final(self).wf(),
            final(self)@ == old(self)@.with_image(final(self)@.image),
            ({
                let img = old(self)@.image;
                let old_c = img.pixels[img.index(x as int, y as int)].data;
                &&& old_c == color.data ==> final(self)@ == old(self)@
                &&& old_c != color.data ==> repaints_masked(old(self)@, img, final(self)@.image, old_c, color.data)
                &&& old_c != color.data ==> final(self)@.image.pixels[img.index(x as int, y as int)].data
                    == masked_result(old(self)@, x as int, y as int, old_c, color.data)
                &&& old_c != color.data ==> forall|px: int|
                    img.in_bounds(px, y as int) && run_between(img, y as int, x as int, px, old_c)
                        ==> #[trigger] final(self)@.image.pixels[img.index(px, y as int)].data
                        == masked_result(old(self)@, px, y as int, old_c, color.data)
                &&& old_c != color.data && !old(self)@.mask_enabled ==> fill_closed(img, final(self)@.image, old_c)
                &&& old_c != color.data && paint_changes(old(self)@, old_c, color.data) ==> rows_closed(img, final(self)@.image, old_c)
                &&& old_c != color.data && paint_changes(old(self)@, old_c, color.data)
                    ==> stretch_closed(old(self)@, final(self)@.image, x as int, y as int, old_c, color.data)
                &&& old_c != color.data && paint_uniform(old(self)@, old_c, color.data) ==> fill_closed(img, final(self)@.image, old_c)
                &&& changes_reached(img, final(self)@.image, x as int, y as int, canvas_words(old(self)@, old_c, color.data))
                &&& !old(self)@.mask_enabled ==> changes_reached(img, final(self)@.image, x as int, y as int,
                    either_word(old_c, blend_word(old_c, color.data)))
                &&& !old(self)@.mask_enabled && lacks_word(img, blend_word(old_c, color.data))
                    ==> changes_reached(img, final(self)@.image, x as int, y as int, only_word(old_c))
            }),
    {
        let rgba = self.pixcol(x, y);
        if self.mask_enabled {
            self.flood_fill_scanline(x, y, color.data, rgba.data);
        } else {
            let ghost entry = self@;
            let ghost img = entry.image;
            let ghost old_c = rgba.data;
            proof {
                lemma_index_bounds(img.width as int, img.height as int, x as int, y as int);
            }
            self.image.flood_fill_scanline(x, y, color.data, rgba.data);
            proof {
                assert(self@.undo =~= entry.undo);
                assert(self@ == entry.with_image(self@.image));
                let ok = canvas_words(entry, old_c, color.data);
                let eo = either_word(old_c, blend_word(old_c, color.data));
                lemma_canvas_word(entry, x as int, y as int, old_c, color.data);
                assert forall|px: int, py: int|
                    img.in_bounds(px, py) && #[trigger] self@.image.pixels[img.index(px, py)] != img.pixels[img.index(px, py)]
                        implies crate::reach::reached(img, x as int, y as int, px, py, ok) by {
                    assert(crate::reach::reached(img, x as int, y as int, px, py, eo));
                    lemma_reached_wider(img, x as int, y as int, px, py, eo, ok);
                }
                if !fill_changes(old_c, color.data) {
                    assert(self@.image == img);
                    if old_c != color.data {
                        assert(masked_result(entry, x as int, y as int, old_c, color.data) == old_c);
                    }
                    if old_c != color.data {
                        assert forall|px: int|
                            img.in_bounds(px, y as int) && run_between(img, y as int, x as int, px, old_c)
                                implies #[trigger] self@.image.pixels[img.index(px, y as int)].data
                                == masked_result(entry, px, y as int, old_c, color.data) by {
                            assert(img.pixels[img.index(px, y as int)].data == old_c);
                        }
                    }
                } else {
                    let fin = self@.image;
                    assert forall|px: int, py: int| img.in_bounds(px, py) implies #[trigger] fin.pixels[img.index(px, py)] == img.pixels[img.index(px, py)] || (img.pixels[img.index(px, py)].data
                        == old_c && fin.pixels[img.index(px, py)].data == masked_result(entry, px, py, old_c, color.data)) by {
                        lemma_index_bounds(img.width as int, img.height as int, px, py);
                        let i = img.index(px, py);
                        assert(fin.pixels[i] == img.pixels[i] || (img.pixels[i].data == old_c && fin.pixels[i].data == blend_word(old_c, color.data)));
                    }
                    assert forall|px: int|
                        img.in_bounds(px, y as int) && run_between(img, y as int, x as int, px, old_c)
                            implies #[trigger] fin.pixels[img.index(px, y as int)].data
                            == masked_result(entry, px, y as int, old_c, color.data) by {
                        lemma_closed_run(img, fin, x as int, y as int, px, old_c, blend_word(old_c, color.data));
                    }
                    lemma_closed_rows(img, fin, old_c);
                    assert forall|q: int, ny2: int|
                        in_stretch(entry, x as int, y as int, q, old_c, color.data) && (ny2 == y - 1 || ny2 == y + 1) && img.in_bounds(q, ny2)
                            implies #[trigger] fin.pixels[img.index(q, ny2)].data != old_c by {
                        assert(img.pixels[img.index(q, y as int)].data == old_c);
                        assert(fin.pixels[img.index(q, y as int)].data == masked_result(entry, q, y as int, old_c, color.data));
                        assert(fin.pixels[fin.index(q, y as int)] != img.pixels[img.index(q, y as int)]);
                        assert(settled(fin, q, y as int, old_c));
                    }
                }
            }
        }
    }
}

} // verus!

verus! {

/// A brush of radius 0 stamps one point per point of the line.
proof fn lemma_brush_points_zero(line: Seq<(int, int)>)
    ensures
        brush_points(line, 0) == line,
    decreases line.len(),
{
    if line.len() > 0 {
        lemma_brush_points_zero(line.drop_last());
        assert(line =~= line.drop_last() + seq![line.last()]);
    }
}

/// A brush stroke of radius 0 draws exactly the line.
pub proof fn lemma_brush_line_zero(c: CanvasView, x1: int, y1: int, x2: int, y2: int, word: u32)
    ensures
        c.painted(brush_points(line_points(x1, y1, x2, y2), 0), word) == c.painted(line_points(x1, y1, x2, y2), word),
{
    lemma_brush_points_zero(line_points(x1, y1, x2, y2));
}

/// The canvas keeps the size of its image through every change its
/// operations make: saving for undo, undoing, drawing points, putting a
/// selection back, and replacing the image by one of the same size; and the
/// canvas stays well formed through them.
pub proof fn lemma_canvas_size_kept(
    c: CanvasView,
    pts: Seq<(int, int)>,
    word: u32,
    selection: Rect,
    part: Seq<Color>,
    nw: u32,
    nh: u32,
)
    requires
        c.wf(),
    ensures
        c.saved().image == c.image,
        c.saved().wf(),
        c.undone().image.width == c.image.width,
        c.undone().image.height == c.image.height,
        c.undone().wf(),
        c.painted(pts, word).image.width == c.image.width,
        c.painted(pts, word).image.height == c.image.height,
        c.painted(pts, word).wf(),
        Canvas::selection_put(c.image, selection, part, nw, nh).width == c.image.width,
        Canvas::selection_put(c.image, selection, part, nw, nh).height == c.image.height,
{
    lemma_save_keeps_bound(c);
    lemma_paint_dims(c.image, c.mask, c.mask_enabled, pts, word);
    if c.undo.len() > 1 {
        assert(c.undo.last() == c.undo[c.undo.len() - 1]);
        assert(c.undo.last().wf());
        let u = c.undone();
        assert forall|i: int| 0 <= i < u.undo.len() implies (#[trigger] u.undo[i]).wf() && u.undo[i].width == u.image.width
            && u.undo[i].height == u.image.height by {
            assert(u.undo[i] == c.undo[i]);
        }
    }
}

} // verus!

verus! {

/// A brush stroke that starts and ends at the same point draws what a
/// circle of the same radius drawn there draws.
pub proof fn lemma_brush_dot_is_circle(c: CanvasView, x: int, y: int, radius: int, word: u32)
    ensures
        c.painted(brush_points(line_points(x, y, x, y), radius), word) == c.painted(circle_points(x, y, radius), word),
{
    assert(dist1(x, x) == 0);
    assert(line_walk(x, y, start_err(x, y, x, y), x, y, 0, 0, dir(x, x), dir(y, y), 0) == seq![(x, y)]);
    assert(line_points(x, y, x, y) == seq![(x, y)]);
    let line = seq![(x, y)];
    assert(line.drop_last() =~= Seq::<(int, int)>::empty());
    assert(brush_points(line.drop_last(), radius) == Seq::<(int, int)>::empty());
    assert(brush_points(line, radius) == brush_points(line.drop_last(), radius) + circle_points(x, y, radius));
    assert(brush_points(line, radius) =~= circle_points(x, y, radius));
}

/// A brush stroke draws, for each point of its line, every point of the
/// circle of its radius around that point.
pub proof fn lemma_brush_stamps_each_point(line: Seq<(int, int)>, radius: int)
    ensures
        forall|k: int, j: int|
            0 <= k < line.len() && 0 <= j < circle_points(line[k].0, line[k].1, radius).len()
                ==> brush_points(line, radius).contains(#[trigger] circle_points(line[k].0, line[k].1, radius)[j]),
    decreases line.len(),
{
    if line.len() > 0 {
        let init = line.drop_last();
        lemma_brush_stamps_each_point(init, radius);
        let head = brush_points(init, radius);
        let last = circle_points(line.last().0, line.last().1, radius);
        assert(brush_points(line, radius) == head + last);
        assert forall|k: int, j: int|
            0 <= k < line.len() && 0 <= j < circle_points(line[k].0, line[k].1, radius).len()
                implies brush_points(line, radius).contains(#[trigger] circle_points(line[k].0, line[k].1, radius)[j]) by {
            let p = circle_points(line[k].0, line[k].1, radius)[j];
            if k < init.len() {
                assert(init[k] == line[k]);
                assert(head.contains(p));
                let m = choose|m: int| 0 <= m < head.len() && head[m] == p;
                assert((head + last)[m] == p);
            } else {
                assert(line[k] == line.last());
                assert((head + last)[head.len() + j] == p);
            }
        }
    }
}

} // verus!

verus! {

/// Drawing an opaque color without the mask leaves every drawn point
/// inside the image holding that color.
pub proof fn lemma_paint_opaque(img: ImageView, mask: ImageView, pts: Seq<(int, int)>, word: u32, p: (int, int))
    requires
        img.wf(),
        alpha_of(word) == 255,
        pts.contains(p),
        img.in_bounds(p.0, p.1),
    ensures
        paint_seq(img, mask, false, pts, word).pixcol_word(p.0, p.1) == word,
    decreases pts.len(),
{
    lemma_paint_dims(img, mask, false, pts, word);
    let init = pts.drop_last();
    let q = pts.last();
    let prev = paint_seq(img, mask, false, init, word);
    lemma_paint_dims(img, mask, false, init, word);
    lemma_index_bounds(img.width as int, img.height as int, p.0, p.1);
    if q == p {
        lemma_blend_extremes(prev.pixels[prev.index(p.0, p.1)].data, word);
    } else {
        let k = choose|k: int| 0 <= k < pts.len() && pts[k] == p;
        assert(k < init.len());
        assert(init[k] == p);
        lemma_paint_opaque(img, mask, init, word, p);
        if prev.in_bounds(q.0, q.1) {
            lemma_index_bounds(img.width as int, img.height as int, q.0, q.1);
            if prev.index(q.0, q.1) == prev.index(p.0, p.1) {
                lemma_index_row(img.width as int, p.0, p.1, q.0, q.1);
            }
        }
    }
}

/// A rectangle drawn on the canvas in an opaque color without the mask
/// leaves every point of its closed outline that lies inside the image in
/// that color.
pub proof fn lemma_rect_paints_outline(c: CanvasView, x: int, y: int, l: int, w: int, word: u32)
    requires
        c.wf(),
        !c.mask_enabled,
        alpha_of(word) == 255,
        0 <= l,
        0 <= w,
    ensures
        forall|j: int| 0 <= j <= w && c.image.in_bounds(x, y + j)
            ==> #[trigger] c.painted(rect_points(x, y, l, w), word).image.pixcol_word(x, y + j) == word,
        forall|j: int| 0 <= j <= w && c.image.in_bounds(x + l, y + j)
            ==> #[trigger] c.painted(rect_points(x, y, l, w), word).image.pixcol_word(x + l, y + j) == word,
        forall|i: int| 0 <= i <= l && c.image.in_bounds(x + i, y)
            ==> #[trigger] c.painted(rect_points(x, y, l, w), word).image.pixcol_word(x + i, y) == word,
        forall|i: int| 0 <= i <= l && c.image.in_bounds(x + i, y + w)
            ==> #[trigger] c.painted(rect_points(x, y, l, w), word).image.pixcol_word(x + i, y + w) == word,
{
    let pts = rect_points(x, y, l, w);
    lemma_rect_outline_closed(x, y, l, w);
    assert forall|j: int| 0 <= j <= w && c.image.in_bounds(x, y + j)
        implies #[trigger] c.painted(pts, word).image.pixcol_word(x, y + j) == word by {
        assert(pts.contains((x, y + j)));
        lemma_paint_opaque(c.image, c.mask, pts, word, (x, y + j));
    }
    assert forall|j: int| 0 <= j <= w && c.image.in_bounds(x + l, y + j)
        implies #[trigger] c.painted(pts, word).image.pixcol_word(x + l, y + j) == word by {
        assert(pts.contains((x, y + j)));
        assert(pts.contains((x + l, y + j)));
        lemma_paint_opaque(c.image, c.mask, pts, word, (x + l, y + j));
    }
    assert forall|i: int| 0 <= i <= l && c.image.in_bounds(x + i, y)
        implies #[trigger] c.painted(pts, word).image.pixcol_word(x + i, y) == word by {
        assert(pts.contains((x + i, y)));
        lemma_paint_opaque(c.image, c.mask, pts, word, (x + i, y));
    }
    assert forall|i: int| 0 <= i <= l && c.image.in_bounds(x + i, y + w)
        implies #[trigger] c.painted(pts, word).image.pixcol_word(x + i, y + w) == word by {
        assert(pts.contains((x + i, y)));
        assert(pts.contains((x + i, y + w)));
        lemma_paint_opaque(c.image, c.mask, pts, word, (x + i, y + w));
    }
}

/// A filled disc drawn on the canvas in an opaque color without the mask
/// leaves every point within its radius that lies inside the image in that
/// color.
pub proof fn lemma_disc_paints_inside(c: CanvasView, x0: int, y0: int, radius: int, word: u32)
    requires
        c.wf(),
        !c.mask_enabled,
        alpha_of(word) == 255,
        radius < 0,
    ensures
        forall|px: int, py: int|
            (px - x0) * (px - x0) + (py - y0) * (py - y0) <= radius * radius && c.image.in_bounds(px, py)
                ==> #[trigger] c.painted(circle_points(x0, y0, radius), word).image.pixcol_word(px, py) == word,
{
    let pts = circle_points(x0, y0, radius);
    lemma_disc_filled(x0, y0, radius);
    assert forall|px: int, py: int|
        (px - x0) * (px - x0) + (py - y0) * (py - y0) <= radius * radius && c.image.in_bounds(px, py)
            implies #[trigger] c.painted(pts, word).image.pixcol_word(px, py) == word by {
        assert(pts.contains((px, py)));
        lemma_paint_opaque(c.image, c.mask, pts, word, (px, py));
    }
}

} // verus!
