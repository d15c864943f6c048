use vstd::prelude::*;
use crate::color::{Color, blend, blend_word, rgba_word, red_of, green_of, blue_of, alpha_of, lemma_word_from_components, lemma_rgba_components, lemma_blend_extremes};
use vstd::arithmetic::div_mod::{lemma_fundamental_div_mod, lemma_mod_pos_bound};

verus! {

/// What an image is: its size and its pixels, row after row.
pub struct ImageView {
    pub width: u32,
    pub height: u32,
    pub pixels: Seq<Color>,
}

impl ImageView {
    /// The pixel buffer holds exactly one color per position.
    pub open spec fn wf(self) -> bool {
        &&& self.pixels.len() == self.width as int * self.height as int
        &&& self.pixels.len() <= usize::MAX
    }

    pub open spec fn in_bounds(self, x: int, y: int) -> bool {
        0 <= x < self.width && 0 <= y < self.height
    }

    /// Position of pixel (x, y) in the buffer.
    pub open spec fn index(self, x: int, y: int) -> int {
        y * self.width + x
    }

    /// The word at (x, y), or transparent black where (x, y) lies outside
    /// the image.
    pub open spec fn pixcol_word(self, x: int, y: int) -> u32 {
        if self.in_bounds(x, y) {
            self.pixels[self.index(x, y)].data
        } else {
            0
        }
    }

    /// The image after drawing `c` at (x, y): inside the image the pixel
    /// becomes `c` blended over it, outside nothing changes.
    pub open spec fn with_pixel(self, x: int, y: int, c: u32) -> ImageView {
        if self.in_bounds(x, y) {
            let i = self.index(x, y);
            ImageView {
                pixels: self.pixels.update(i, Color { data: blend_word(self.pixels[i].data, c) }),
                ..self
            }
        } else {
            self
        }
    }
}

pub proof fn lemma_index_bounds(w: int, h: int, x: int, y: int)
    by (nonlinear_arith)
    requires
        0 <= x < w,
        0 <= y < h,
    ensures
        0 <= y * w,
        0 <= y * w + x < w * h,
        y * w + w <= w * h,
        (y + 1) * w == y * w + w,
        (y - 1) * w == y * w - w,
{
}

/// Positions inside the image have distinct buffer positions.
pub proof fn lemma_index_row(w: int, x: int, y: int, x2: int, y2: int)
    by (nonlinear_arith)
    requires
        0 <= x < w,
        0 <= x2 < w,
        y2 * w + x2 == y * w + x,
    ensures
        x2 == x,
        y2 == y,
{
    if y2 > y {
        assert(y2 * w >= (y + 1) * w);
    } else if y2 < y {
        assert(y * w >= (y2 + 1) * w);
    }
}

/// Position `k` of a block `w` wide is at column `k % w` of row `k / w`.
pub proof fn lemma_block_split(k: int, w: int, h: int)
    requires
        0 <= k < w * h,
        0 < w,
    ensures
        0 <= k / w < h,
        0 <= k % w < w,
        k == (k / w) * w + k % w,
{
    lemma_fundamental_div_mod(k, w);
    lemma_mod_pos_bound(k, w);
    assert(0 <= k / w < h) by (nonlinear_arith)
        requires
            k == w * (k / w) + k % w,
            0 <= k % w < w,
            0 <= k < w * h,
            0 < w,
    ;
    assert(w * (k / w) == (k / w) * w) by (nonlinear_arith);
}

/// An image: a width, a height and a buffer of colors.
pub struct Image {
    width: u32,
    height: u32,
    data: Vec<Color>,
}

impl View for Image {
    type V = ImageView;

    closed spec fn view(&self) -> ImageView {
        ImageView { width: self.width, height: self.height, pixels: self.data@ }
    }
}

/// The word that `copy_selection` keeps for a pixel: pure white (whatever
/// its alpha) becomes transparent black, everything else stays.
pub open spec fn white_to_clear(w: u32) -> u32 {
    if red_of(w) == 255 && green_of(w) == 255 && blue_of(w) == 255 {
        0
    } else {
        w
    }
}

/// The word that `paste_selection` draws for a buffer pixel: its color with
/// alpha `opacity`, or fully transparent where the buffer pixel is.
pub open spec fn paste_word(w: u32, opacity: u8) -> u32 {
    rgba_word(red_of(w), green_of(w), blue_of(w), if alpha_of(w) != 0 { opacity } else { 0 })
}

impl Image {
    pub open spec fn wf(&self) -> bool {
        self@.wf()
    }

    /// An image of the given size filled with one color.
    pub fn from_color(width: u32, height: u32, color: Color) -> (img: Image)
        requires
            width as int * height as int <= usize::MAX,
        ensures
            img.wf(),
            img@.width == width,
            img@.height == height,
            forall|i: int| 0 <= i < img@.pixels.len() ==> img@.pixels[i] == color,
    {
        let n: usize = (width as usize) * (height as usize);
        let mut data: Vec<Color> = Vec::new();
        let mut k: usize = 0;
        while k < n
            invariant
                k <= n,
                data@.len() == k,
                forall|i: int| 0 <= i < k ==> data@[i] == color,
            decreases n - k,
        {
            data.push(color);
            k += 1;
        }
        Image { width, height, data }
    }

    /// A black image of the given size.
    pub fn new(width: u32, height: u32) -> (img: Image)
        requires
            width as int * height as int <= usize::MAX,
        ensures
            img.wf(),
            img@.width == width,
            img@.height == height,
            forall|i: int| 0 <= i < img@.pixels.len() ==> img@.pixels[i].data == rgba_word(0, 0, 0, 255),
    {
        Image::from_color(width, height, Color::rgb(0, 0, 0))
    }

    /// An image over the given buffer, refused when the buffer does not hold
    /// one color per position.
    pub fn from_data(width: u32, height: u32, data: Vec<Color>) -> (res: Result<Image, String>)
        requires
            width as int * height as int <= usize::MAX,
        ensures
            data@.len() == width as int * height as int <==> res is Ok,
            res matches Ok(img) ==> img.wf() && img@ == (ImageView { width, height, pixels: data@ }),
    {
        if (width as usize) * (height as usize) != data.len() {
            return Err(String::from_str("not enough or too much data given compared to width and height"));
        }
        Ok(Image { width, height, data })
    }

    pub fn width(&self) -> (w: u32)
        ensures
            w == self@.width,
    {
        self.width
    }

    pub fn height(&self) -> (h: u32)
        ensures
            h == self@.height,
    {
        self.height
    }

    /// The pixel buffer.
    pub fn data(&self) -> (d: &[Color])
        ensures
            d@ == self@.pixels,
    {
        self.data.as_slice()
    }

    /// The pixel buffer, taking the image apart.
    pub fn into_data(self) -> (d: Vec<Color>)
        ensures
            d@ == self@.pixels,
    {
        self.data
    }

    /// Draws `color` at (x, y), blended over what is there; nothing happens
    /// outside the image.
    pub fn pixel(&mut self, x: i32, y: i32, color: Color)
        requires
            old(self).wf(),
        ensures
            final(self)@ == old(self)@.with_pixel(x as int, y as int, color.data),
            final(self).wf(),
    {
        if x >= 0 && y >= 0 && (x as u32) < self.width && (y as u32) < self.height {
            proof {
                assert((y as int) * (self.width as int) + (x as int) < (self.width as int) * (self.height as int)) by (nonlinear_arith)
                    requires
                        0 <= x < self.width,
                        0 <= y < self.height,
                ;
                assert(0 <= (y as int) * (self.width as int)) by (nonlinear_arith)
                    requires
                        0 <= x < self.width,
                        0 <= y < self.height,
                ;
            }
            let i: usize = (y as usize) * (self.width as usize) + (x as usize);
            let old_word = self.data[i].data;
            let new_word = blend(old_word, color.data);
            self.data.set(i, Color { data: new_word });
        }
    }

    /// The color at (x, y), read safely: transparent black where (x, y)
    /// lies outside the image.
    pub fn pixcol(&self, x: i32, y: i32) -> (c: Color)
        requires
            self.wf(),
        ensures
            c.data == self@.pixcol_word(x as int, y as int),
    {
        if x >= 0 && y >= 0 && (x as u32) < self.width && (y as u32) < self.height {
            proof {
                assert((y as int) * (self.width as int) + (x as int) < (self.width as int) * (self.height as int)) by (nonlinear_arith)
                    requires
                        0 <= x < self.width,
                        0 <= y < self.height,
                ;
                assert(0 <= (y as int) * (self.width as int)) by (nonlinear_arith)
                    requires
                        0 <= x < self.width,
                        0 <= y < self.height,
                ;
            }
            let i: usize = (y as usize) * (self.width as usize) + (x as usize);
            self.data[i]
        } else {
            assert(rgba_word(0, 0, 0, 0) == 0) by (bit_vector);
            Color::rgba(0, 0, 0, 0)
        }
    }

    /// The word of `pixcol`.
    pub fn pixraw(&self, x: i32, y: i32) -> (w: u32)
        requires
            self.wf(),
        ensures
            w == self@.pixcol_word(x as int, y as int),
    {
        self.pixcol(x, y).data
    }

    /// Sets every pixel to `color`.
    pub fn set(&mut self, color: Color)
        requires
            old(self).wf(),
        ensures
            final(self).wf(),
            final(self)@.width == old(self)@.width,
            final(self)@.height == old(self)@.height,
            final(self)@.pixels.len() == old(self)@.pixels.len(),
            forall|i: int| 0 <= i < final(self)@.pixels.len() ==> final(self)@.pixels[i] == color,
    {
        let n = self.data.len();
        let mut k: usize = 0;
        while k < n
            invariant
                k <= n,
                n == self.data@.len(),
                self.wf(),
                self@.width == old(self)@.width,
                self@.height == old(self)@.height,
                forall|i: int| 0 <= i < k ==> self.data@[i] == color,
            decreases n - k,
        {
            self.data.set(k, color);
            k += 1;
        }
    }

    /// Sets every pixel to opaque black.
    pub fn clear(&mut self)
        requires
            old(self).wf(),
        ensures
            final(self).wf(),
            final(self)@.width == old(self)@.width,
            final(self)@.height == old(self)@.height,
            final(self)@.pixels.len() == old(self)@.pixels.len(),
            forall|i: int| 0 <= i < final(self)@.pixels.len() ==> final(self)@.pixels[i].data == rgba_word(0, 0, 0, 255),
    {
        self.set(Color::rgb(0, 0, 0));
    }
}

impl Image {
    /// A copy of the image.
    pub fn copy(&self) -> (res: Image)
        ensures
            res@ == self@,
    {
        let mut data: Vec<Color> = Vec::new();
        let n = self.data.len();
        let mut k: usize = 0;
        while k < n
            invariant
                n == self.data@.len(),
                k <= n,
                data@ == self.data@.take(k as int),
            decreases n - k,
        {
            data.push(self.data[k]);
            k += 1;
            assert(data@ =~= self.data@.take(k as int));
        }
        assert(data@ =~= self.data@);
        Image { width: self.width, height: self.height, data }
    }

    /// Copies the `w` by `h` block at (x, y) into a new image, reading each
    /// pixel as `pixcol` does and turning pure white into transparent black.
    pub fn copy_selection(&self, x: i32, y: i32, w: u32, h: u32) -> (res: Image)
        requires
            self.wf(),
            w as int * h as int <= usize::MAX,
            w <= i32::MAX,
            h <= i32::MAX,
            x as int + w as int <= i32::MAX,
            y as int + h as int <= i32::MAX,
        ensures
            res.wf(),
            res@.width == w,
            res@.height == h,
            forall|i: int, j: int|
                0 <= i < w && 0 <= j < h ==> #[trigger] res@.pixels[j * w + i].data == white_to_clear(
                    self@.pixcol_word(x + i, y + j),
                ),
    {
        let mut vec: Vec<Color> = Vec::new();
        let mut y1: i32 = y;
        let ye: i32 = y + h as i32;
        let xe: i32 = x + w as i32;
        while y1 < ye
            invariant
                self.wf(),
                y <= y1 <= ye,
                ye == y + h,
                xe == x + w,
                vec@.len() == (y1 - y) * w,
                forall|i: int, j: int|
                    0 <= i < w && 0 <= j < y1 - y ==> #[trigger] vec@[j * w + i].data == white_to_clear(
                        self@.pixcol_word(x + i, y + j),
                    ),
            decreases ye - y1,
        {
            let mut x1: i32 = x;
            let ghost row_start = vec@.len();
            while x1 < xe
                invariant
                    self.wf(),
                    y <= y1 < ye,
                    x <= x1 <= xe,
                    xe == x + w,
                    row_start == (y1 - y) * w,
                    vec@.len() == row_start + (x1 - x),
                    forall|i: int, j: int|
                        0 <= i < w && 0 <= j < y1 - y ==> #[trigger] vec@[j * w + i].data == white_to_clear(
                            self@.pixcol_word(x + i, y + j),
                        ),
                    forall|i: int|
                        0 <= i < x1 - x ==> #[trigger] vec@[row_start + i].data == white_to_clear(
                            self@.pixcol_word(x + i, y1 as int),
                        ),
                decreases xe - x1,
            {
                let mut col = self.pixcol(x1, y1);
                if col.r() == 255 && col.g() == 255 && col.b() == 255 {
                    col = Color::rgba(0, 0, 0, 0);
                    assert(rgba_word(0, 0, 0, 0) == 0) by (bit_vector);
                }
                let ghost before = vec@;
                vec.push(col);
                proof {
                    assert forall|i: int, j: int|
                        0 <= i < w && 0 <= j < y1 - y implies #[trigger] vec@[j * w + i].data == white_to_clear(
                            self@.pixcol_word(x + i, y + j),
                        ) by {
                        assert(j * w + i < (y1 - y) * w) by (nonlinear_arith)
                            requires
                                0 <= i < w,
                                0 <= j < y1 - y,
                        ;
                        assert(0 <= j * w) by (nonlinear_arith)
                            requires
                                0 <= i < w,
                                0 <= j < y1 - y,
                        ;
                        assert(vec@[j * w + i] == before[j * w + i]);
                    }
                    assert forall|i: int|
                        0 <= i < x1 + 1 - x implies #[trigger] vec@[row_start + i].data == white_to_clear(
                            self@.pixcol_word(x + i, y1 as int),
                        ) by {
                        if i < x1 - x {
                            assert(vec@[row_start + i] == before[row_start + i]);
                        }
                    }
                }
                x1 += 1;
            }
            proof {
                assert forall|i: int, j: int|
                    0 <= i < w && 0 <= j < y1 + 1 - y implies #[trigger] vec@[j * w + i].data == white_to_clear(
                        self@.pixcol_word(x + i, y + j),
                    ) by {
                    if j == y1 - y {
                        assert(j * w + i == row_start + i);
                    }
                }
                assert((y1 + 1 - y) * w == (y1 - y) * w + w) by (nonlinear_arith);
            }
            y1 += 1;
        }
        proof {
            assert((y1 - y) * w == w * h) by (nonlinear_arith)
                requires
                    y1 - y == h,
            ;
        }
        Image { width: w, height: h, data: vec }
    }
}

/// What `paste_selection` leaves at (tx, ty): the buffer pixel that lands
/// there drawn over the old pixel, or the old pixel outside the pasted
/// block.
pub open spec fn pasted_at(old: ImageView, buf: ImageView, xc: int, yc: int, opacity: u8, tx: int, ty: int) -> Color {
    let i = old.index(tx, ty);
    if xc <= tx < xc + buf.width && yc <= ty < yc + buf.height {
        Color {
            data: blend_word(
                old.pixels[i].data,
                paste_word(buf.pixels[buf.index(tx - xc, ty - yc)].data, opacity),
            ),
        }
    } else {
        old.pixels[i]
    }
}

/// The pasted block, with its top left corner at (x, y), fits the
/// coordinates.
pub open spec fn paste_fits(x: int, y: int, buf: ImageView) -> bool {
    &&& buf.width <= i32::MAX
    &&& buf.height <= i32::MAX
    &&& x + buf.width <= i32::MAX
    &&& y + buf.height <= i32::MAX
}

impl Image {
    /// Draws `buffer` into the image starting at (x, y), its top left
    /// corner: each buffer pixel keeps its color
    /// and gets alpha `opacity` (fully transparent ones stay transparent),
    /// and is drawn over the image.
    pub fn paste_selection(&mut self, x: i32, y: i32, opacity: u8, buffer: Image)
        requires
            old(self).wf(),
            buffer.wf(),
            paste_fits(x as int, y as int, buffer@),
        ensures
            final(self).wf(),
            final(self)@.width == old(self)@.width,
            final(self)@.height == old(self)@.height,
            forall|tx: int, ty: int|
                old(self)@.in_bounds(tx, ty) ==> #[trigger] final(self)@.pixels[old(self)@.index(tx, ty)]
                    == pasted_at(old(self)@, buffer@, x as int, y as int, opacity, tx, ty),
    {
        let ghost old_img = self@;
        let ghost buf = buffer@;
        let w = buffer.width() as i32;
        let h = buffer.height() as i32;
        let xc = x;
        let yc = y;
        let data = buffer.into_data();
        let mut i: usize = 0;
        let mut y1: i32 = yc;
        while y1 < yc + h
            invariant
                self.wf(),
                old_img.wf(),
                buf.wf(),
                self@.width == old_img.width,
                self@.height == old_img.height,
                w == buf.width,
                h == buf.height,
                data@ == buf.pixels,
                xc == x,
                yc == y,
                paste_fits(x as int, y as int, buf),
                yc <= y1 <= yc + h,
                i == (y1 - yc) * w,
                forall|tx: int, ty: int|
                    old_img.in_bounds(tx, ty) ==> #[trigger] self@.pixels[old_img.index(tx, ty)] == if ty < y1 {
                        pasted_at(old_img, buf, xc as int, yc as int, opacity, tx, ty)
                    } else {
                        old_img.pixels[old_img.index(tx, ty)]
                    },
            decreases yc + h - y1,
        {
            let mut x1: i32 = xc;
            while x1 < xc + w
                invariant
                    self.wf(),
                    old_img.wf(),
                    buf.wf(),
                    self@.width == old_img.width,
                    self@.height == old_img.height,
                    w == buf.width,
                    h == buf.height,
                    data@ == buf.pixels,
                    xc == x,
                    yc == y,
                    paste_fits(x as int, y as int, buf),
                    yc <= y1 < yc + h,
                    xc <= x1 <= xc + w,
                    i == (y1 - yc) * w + (x1 - xc),
                    forall|tx: int, ty: int|
                        old_img.in_bounds(tx, ty) ==> #[trigger] self@.pixels[old_img.index(tx, ty)] == if ty < y1 || (ty == y1 && tx < x1) {
                            pasted_at(old_img, buf, xc as int, yc as int, opacity, tx, ty)
                        } else {
                            old_img.pixels[old_img.index(tx, ty)]
                        },
                decreases xc + w - x1,
            {
                proof {
                    assert((y1 - yc) * w + (x1 - xc) < w * h) by (nonlinear_arith)
                        requires
                            0 <= x1 - xc < w,
                            0 <= y1 - yc < h,
                    ;
                    assert(0 <= (y1 - yc) * w) by (nonlinear_arith)
                        requires
                            0 <= y1 - yc,
                            0 <= w,
                    ;
                }
                if i < data.len() {
                    let c = data[i];
                    let r = c.r();
                    let g = c.g();
                    let b = c.b();
                    let mut a = c.a();
                    if a != 0 {
                        a = opacity;
                    }
                    let ghost before = self@;
                    let pc = Color::rgba(r, g, b, a);
                    assert(pc.data == paste_word(buf.pixels[buf.index(x1 - xc, y1 - yc)].data, opacity));
                    self.pixel(x1, y1, pc);
                    proof {
                        assert forall|tx: int, ty: int|
                            old_img.in_bounds(tx, ty) implies #[trigger] self@.pixels[old_img.index(tx, ty)] == if ty < y1 || (ty == y1 && tx < x1 + 1) {
                                pasted_at(old_img, buf, xc as int, yc as int, opacity, tx, ty)
                            } else {
                                old_img.pixels[old_img.index(tx, ty)]
                            } by {
                            lemma_index_bounds(old_img.width as int, old_img.height as int, tx, ty);
                            if tx == x1 && ty == y1 {
                            } else {
                                if old_img.in_bounds(x1 as int, y1 as int) {
                                    lemma_index_bounds(old_img.width as int, old_img.height as int, x1 as int, y1 as int);
                                    if old_img.index(tx, ty) == old_img.index(x1 as int, y1 as int) {
                                        lemma_index_row(old_img.width as int, x1 as int, y1 as int, tx, ty);
                                    }
                                }
                                assert(self@.pixels[old_img.index(tx, ty)] == before.pixels[old_img.index(tx, ty)]);
                            }
                        }
                    }
                }
                i += 1;
                x1 += 1;
            }
            proof {
                assert((y1 + 1 - yc) * w == (y1 - yc) * w + w) by (nonlinear_arith);
            }
            y1 += 1;
        }
    }

    /// A copy of the image where every pixel takes the color of `color` and
    /// keeps its own alpha.
    pub fn colorize(&self, color: Color, opacity: u8) -> (res: Image)
        requires
            self.wf(),
        ensures
            res.wf(),
            res@.width == self@.width,
            res@.height == self@.height,
            forall|i: int|
                0 <= i < res@.pixels.len() ==> #[trigger] res@.pixels[i].data == rgba_word(
                    red_of(color.data),
                    green_of(color.data),
                    blue_of(color.data),
                    alpha_of(self@.pixels[i].data),
                ),
    {
        let w = self.width;
        let h = self.height;
        let mut data = self.copy().into_data();
        let n = data.len();
        let mut i: usize = 0;
        while i < n
            invariant
                n == data@.len(),
                n == self@.pixels.len(),
                i <= n,
                forall|k: int|
                    0 <= k < i ==> #[trigger] data@[k].data == rgba_word(
                        red_of(color.data),
                        green_of(color.data),
                        blue_of(color.data),
                        alpha_of(self@.pixels[k].data),
                    ),
                forall|k: int| i <= k < n ==> #[trigger] data@[k] == self@.pixels[k],
            decreases n - i,
        {
            let a = data[i].a();
            data.set(i, Color::rgba(color.r(), color.g(), color.b(), a));
            i += 1;
        }
        Image { width: w, height: h, data }
    }
}

/// What drawing the `w` by `h` block `data` with its top left corner at
/// (sx, sy) leaves at (tx, ty): the block pixel that lands there drawn over
/// the old one, or the old pixel where no block pixel lands. Nothing is
/// drawn when the corner lies outside the image.
pub open spec fn blit_at(old: ImageView, sx: int, sy: int, w: int, h: int, data: Seq<Color>, tx: int, ty: int) -> Color {
    let i = old.index(tx, ty);
    let j = (ty - sy) * w + (tx - sx);
    if 0 <= sx < old.width && 0 <= sy < old.height && sx <= tx < sx + w && sy <= ty < sy + h && j < data.len() {
        Color { data: blend_word(old.pixels[i].data, data[j].data) }
    } else {
        old.pixels[i]
    }
}

impl Image {
    /// Draws the `w` by `h` block `data`, row after row, with its top left
    /// corner at (start_x, start_y), each pixel blended over the image;
    /// the parts outside the image are left out, and nothing is drawn when
    /// the corner lies outside the image.
    pub fn image(&mut self, start_x: i32, start_y: i32, w: u32, h: u32, data: &[Color])
        requires
            old(self).wf(),
        ensures
            final(self).wf(),
            final(self)@.width == old(self)@.width,
            final(self)@.height == old(self)@.height,
            forall|tx: int, ty: int|
                old(self)@.in_bounds(tx, ty) ==> #[trigger] final(self)@.pixels[old(self)@.index(tx, ty)]
                    == blit_at(old(self)@, start_x as int, start_y as int, w as int, h as int, data@, tx, ty),
    {
        let ghost old_img = self@;
        if start_x < 0 || start_y < 0 || start_x as u32 >= self.width || start_y as u32 >= self.height {
            return;
        }
        let sx = start_x as u64;
        let sy = start_y as u64;
        let ww = self.width as u64;
        let hh = self.height as u64;
        let y_end: u64 = if sy + (h as u64) < hh { sy + (h as u64) } else { hh };
        let x_end: u64 = if sx + (w as u64) < ww { sx + (w as u64) } else { ww };
        let mut ty: u64 = sy;
        while ty < y_end
            invariant
                self.wf(),
                old_img.wf(),
                self@.width == old_img.width,
                self@.height == old_img.height,
                ww == old_img.width,
                hh == old_img.height,
                sx == start_x,
                sy == start_y,
                0 <= sx < ww,
                0 <= sy < hh,
                y_end == if sy + h < hh { sy + h } else { hh as int },
                x_end == if sx + w < ww { sx + w } else { ww as int },
                sy <= ty <= y_end,
                forall|tx: int, yy: int|
                    old_img.in_bounds(tx, yy) ==> #[trigger] self@.pixels[old_img.index(tx, yy)] == if yy < ty {
                        blit_at(old_img, start_x as int, start_y as int, w as int, h as int, data@, tx, yy)
                    } else {
                        old_img.pixels[old_img.index(tx, yy)]
                    },
            decreases y_end - ty,
        {
            let mut tx: u64 = sx;
            while tx < x_end
                invariant
                    self.wf(),
                    old_img.wf(),
                    self@.width == old_img.width,
                    self@.height == old_img.height,
                    ww == old_img.width,
                    hh == old_img.height,
                    sx == start_x,
                    sy == start_y,
                    0 <= sx < ww,
                    0 <= sy < hh,
                    y_end == if sy + h < hh { sy + h } else { hh as int },
                    x_end == if sx + w < ww { sx + w } else { ww as int },
                    sy <= ty < y_end,
                    sx <= tx <= x_end,
                    forall|xx: int, yy: int|
                        old_img.in_bounds(xx, yy) ==> #[trigger] self@.pixels[old_img.index(xx, yy)] == if yy < ty || (yy == ty && xx < tx) {
                            blit_at(old_img, start_x as int, start_y as int, w as int, h as int, data@, xx, yy)
                        } else {
                            old_img.pixels[old_img.index(xx, yy)]
                        },
                decreases x_end - tx,
            {
                proof {
                    assert((ty - sy) * w + (tx - sx) <= 0xFFFF_FFFF * 0x1_0000_0000) by (nonlinear_arith)
                        requires
                            0 <= ty - sy < h,
                            0 <= tx - sx < w,
                            h <= 0xFFFF_FFFF,
                            w <= 0xFFFF_FFFF,
                    ;
                    assert(0 <= (ty - sy) * w) by (nonlinear_arith)
                        requires
                            0 <= ty - sy,
                    ;
                    lemma_index_bounds(ww as int, hh as int, tx as int, ty as int);
                }
                let j: u64 = (ty - sy) * (w as u64) + (tx - sx);
                if j < data.len() as u64 {
                    let ghost before = self@;
                    let i: usize = (ty * ww + tx) as usize;
                    let new_word = blend(self.data[i].data, data[j as usize].data);
                    self.data.set(i, Color { data: new_word });
                    proof {
                        assert forall|xx: int, yy: int|
                            old_img.in_bounds(xx, yy) implies #[trigger] self@.pixels[old_img.index(xx, yy)] == if yy < ty || (yy == ty && xx < tx + 1) {
                                blit_at(old_img, start_x as int, start_y as int, w as int, h as int, data@, xx, yy)
                            } else {
                                old_img.pixels[old_img.index(xx, yy)]
                            } by {
                            lemma_index_bounds(ww as int, hh as int, xx, yy);
                            if !(xx == tx && yy == ty) {
                                if old_img.index(xx, yy) == old_img.index(tx as int, ty as int) {
                                    lemma_index_row(ww as int, tx as int, ty as int, xx, yy);
                                }
                                assert(self@.pixels[old_img.index(xx, yy)] == before.pixels[old_img.index(xx, yy)]);
                            }
                        }
                    }
                } else {
                    proof {
                        assert forall|xx: int, yy: int|
                            old_img.in_bounds(xx, yy) implies #[trigger] self@.pixels[old_img.index(xx, yy)] == if yy < ty || (yy == ty && xx < tx + 1) {
                                blit_at(old_img, start_x as int, start_y as int, w as int, h as int, data@, xx, yy)
                            } else {
                                old_img.pixels[old_img.index(xx, yy)]
                            } by {
                        }
                    }
                }
                tx += 1;
            }
            proof {
                assert forall|xx: int, yy: int|
                    old_img.in_bounds(xx, yy) implies #[trigger] self@.pixels[old_img.index(xx, yy)] == if yy < ty + 1 {
                        blit_at(old_img, start_x as int, start_y as int, w as int, h as int, data@, xx, yy)
                    } else {
                        old_img.pixels[old_img.index(xx, yy)]
                    } by {
                }
            }
            ty += 1;
        }
    }
}

/// The rows (or columns) a filled rectangle from `x` of size `w` covers in
/// an image of `size` rows (or columns): from the start, clamped into the
/// image, up to the end, clamped into the image and not before the start.
pub open spec fn rect_span(x: int, w: int, size: int) -> (int, int) {
    let s0 = if size - 1 < x { size - 1 } else { x };
    let start = if s0 < 0 { 0 } else { s0 };
    let e0 = if size < x + w { size } else { x + w };
    let end = if e0 < start { start } else { e0 };
    (start, end)
}

/// What filling the rectangle leaves at (tx, ty).
pub open spec fn filled_at(old: ImageView, x: int, y: int, w: int, h: int, c: u32, tx: int, ty: int) -> Color {
    let (x0, x1) = rect_span(x, w, old.width as int);
    let (y0, y1) = rect_span(y, h, old.height as int);
    let i = old.index(tx, ty);
    if x0 <= tx < x1 && y0 <= ty < y1 {
        Color { data: blend_word(old.pixels[i].data, c) }
    } else {
        old.pixels[i]
    }
}

/// The image after filling the rectangle, as a whole.
pub open spec fn filled_view(v: ImageView, x: int, y: int, w: int, h: int, c: u32) -> ImageView {
    ImageView { pixels: Seq::new(v.pixels.len(), |i: int| filled_at(v, x, y, w, h, c, i % v.width as int, i / v.width as int)), ..v }
}

impl Image {
    /// Fills the `w` by `h` rectangle at (x, y), clamped into the image,
    /// with `color` blended over each pixel.
    pub fn rect(&mut self, x: i32, y: i32, w: u32, h: u32, color: Color)
        requires
            old(self).wf(),
            old(self)@.width <= i32::MAX,
            old(self)@.height <= i32::MAX,
            w <= i32::MAX,
            h <= i32::MAX,
            x + w <= i32::MAX,
            y + h <= i32::MAX,
        ensures
            final(self).wf(),
            final(self)@.width == old(self)@.width,
            final(self)@.height == old(self)@.height,
            forall|tx: int, ty: int|
                old(self)@.in_bounds(tx, ty) ==> #[trigger] final(self)@.pixels[old(self)@.index(tx, ty)]
                    == filled_at(old(self)@, x as int, y as int, w as int, h as int, color.data, tx, ty),
            final(self)@ == filled_view(old(self)@, x as int, y as int, w as int, h as int, color.data),
    {
        let ghost old_img = self@;
        let self_w = self.width as i32;
        let self_h = self.height as i32;
        let sy0 = if self_h - 1 < y { self_h - 1 } else { y };
        let start_y = if sy0 < 0 { 0 } else { sy0 };
        let ey0 = if self_h < y + h as i32 { self_h } else { y + h as i32 };
        let end_y = if ey0 < start_y { start_y } else { ey0 };
        let sx0 = if self_w - 1 < x { self_w - 1 } else { x };
        let start_x = if sx0 < 0 { 0 } else { sx0 };
        let ex0 = if self_w < x + w as i32 { self_w } else { x + w as i32 };
        let end_x = if ex0 < start_x { start_x } else { ex0 };
        let mut ty: i32 = start_y;
        while ty < end_y
            invariant
                self.wf(),
                old_img.wf(),
                self@.width == old_img.width,
                self@.height == old_img.height,
                self_w == old_img.width,
                self_h == old_img.height,
                (start_x as int, end_x as int) == rect_span(x as int, w as int, self_w as int),
                (start_y as int, end_y as int) == rect_span(y as int, h as int, self_h as int),
                start_y <= ty <= end_y,
                forall|xx: int, yy: int|
                    old_img.in_bounds(xx, yy) ==> #[trigger] self@.pixels[old_img.index(xx, yy)] == if yy < ty {
                        filled_at(old_img, x as int, y as int, w as int, h as int, color.data, xx, yy)
                    } else {
                        old_img.pixels[old_img.index(xx, yy)]
                    },
            decreases end_y - ty,
        {
            let mut tx: i32 = start_x;
            while tx < end_x
                invariant
                    self.wf(),
                    old_img.wf(),
                    self@.width == old_img.width,
                    self@.height == old_img.height,
                    self_w == old_img.width,
                    self_h == old_img.height,
                    (start_x as int, end_x as int) == rect_span(x as int, w as int, self_w as int),
                    (start_y as int, end_y as int) == rect_span(y as int, h as int, self_h as int),
                    start_y <= ty < end_y,
                    start_x <= tx <= end_x,
                    forall|xx: int, yy: int|
                        old_img.in_bounds(xx, yy) ==> #[trigger] self@.pixels[old_img.index(xx, yy)] == if yy < ty || (yy == ty && xx < tx) {
                            filled_at(old_img, x as int, y as int, w as int, h as int, color.data, xx, yy)
                        } else {
                            old_img.pixels[old_img.index(xx, yy)]
                        },
                decreases end_x - tx,
            {
                let ghost before = self@;
                self.pixel(tx, ty, color);
                proof {
                    lemma_index_bounds(self_w as int, self_h as int, tx as int, ty as int);
                    assert forall|xx: int, yy: int|
                        old_img.in_bounds(xx, yy) implies #[trigger] self@.pixels[old_img.index(xx, yy)] == if yy < ty || (yy == ty && xx < tx + 1) {
                            filled_at(old_img, x as int, y as int, w as int, h as int, color.data, xx, yy)
                        } else {
                            old_img.pixels[old_img.index(xx, yy)]
                        } by {
                        lemma_index_bounds(self_w as int, self_h as int, xx, yy);
                        if !(xx == tx && yy == ty) {
                            if old_img.index(xx, yy) == old_img.index(tx as int, ty as int) {
                                lemma_index_row(self_w as int, tx as int, ty as int, xx, yy);
                            }
                            assert(self@.pixels[old_img.index(xx, yy)] == before.pixels[old_img.index(xx, yy)]);
                        }
                    }
                }
                tx += 1;
            }
            ty += 1;
        }
        proof {
            let fv = filled_view(old_img, x as int, y as int, w as int, h as int, color.data);
            assert forall|i: int| 0 <= i < old_img.pixels.len() implies #[trigger] self@.pixels[i] == fv.pixels[i] by {
                lemma_block_split(i, old_img.width as int, old_img.height as int);
                let (tx, ty2) = (i % old_img.width as int, i / old_img.width as int);
                assert(self@.pixels[old_img.index(tx, ty2)] == filled_at(old_img, x as int, y as int, w as int, h as int, color.data, tx, ty2));
            }
            assert(self@.pixels =~= fv.pixels);
        }
    }
}

/// The pixels `copy_selection` copies, row after row.
pub open spec fn selection_pixels(v: ImageView, x: int, y: int, w: int, h: int) -> Seq<Color> {
    Seq::new((w * h) as nat, |k: int| Color { data: white_to_clear(v.pixcol_word(x + k % w, y + k / w)) })
}

/// The image with every pixel opaque black.
pub open spec fn black_image(v: ImageView) -> ImageView {
    ImageView { pixels: Seq::new(v.pixels.len(), |i: int| Color { data: rgba_word(0, 0, 0, 255) }), ..v }
}

} // verus!

verus! {

/// Copying a block and pasting it back fully opaque at the same corner
/// leaves the image as it was, where every pixel of the block is opaque or
/// fully transparent. The requirements on `buf` are what `copy_selection`
/// ensures of the copy.
pub proof fn lemma_copy_paste_restores(img: ImageView, buf: ImageView, x: int, y: int, tx: int, ty: int)
    requires
        img.wf(),
        0 <= x,
        0 <= y,
        x + buf.width <= img.width,
        y + buf.height <= img.height,
        forall|i: int, j: int|
            0 <= i < buf.width && 0 <= j < buf.height ==> #[trigger] buf.pixels[j * buf.width + i].data == white_to_clear(
                img.pixcol_word(x + i, y + j),
            ),
        forall|px: int, py: int|
            x <= px < x + buf.width && y <= py < y + buf.height ==> alpha_of(#[trigger] img.pixcol_word(px, py)) == 0
                || alpha_of(img.pixcol_word(px, py)) == 255,
        img.in_bounds(tx, ty),
    ensures
        pasted_at(img, buf, x, y, 255, tx, ty) == img.pixels[img.index(tx, ty)],
{
    if x <= tx < x + buf.width && y <= ty < y + buf.height {
        let (i, j) = (tx - x, ty - y);
        let c = img.pixcol_word(tx, ty);
        assert(img.pixcol_word(x + i, y + j) == c);
        assert(buf.pixels[buf.index(i, j)].data == white_to_clear(c));
        let pw = paste_word(white_to_clear(c), 255);
        lemma_word_from_components(c);
        assert(alpha_of(c) == 0 || alpha_of(c) == 255);
        if red_of(c) == 255 && green_of(c) == 255 && blue_of(c) == 255 {
            assert(alpha_of(0) == 0) by (bit_vector);
            assert(pw == rgba_word(red_of(0), green_of(0), blue_of(0), 0));
            lemma_rgba_components(red_of(0), green_of(0), blue_of(0), 0);
            lemma_blend_extremes(c, pw);
        } else if alpha_of(c) == 0 {
            lemma_rgba_components(red_of(c), green_of(c), blue_of(c), 0);
            lemma_blend_extremes(c, pw);
        } else {
            assert(pw == rgba_word(red_of(c), green_of(c), blue_of(c), 255));
            assert(pw == c);
            lemma_blend_extremes(c, pw);
        }
        lemma_word_from_components(img.pixels[img.index(tx, ty)].data);
    }
}

} // verus!
