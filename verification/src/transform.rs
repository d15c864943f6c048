//! Whole-image transformations: the pixels go to the `image` crate as a
//! buffer of bytes, four per pixel in the order the color words lie in
//! memory on a little-endian machine (blue, green, red, alpha), and come
//! back the same way.
use vstd::prelude::*;
use vstd::arithmetic::div_mod::{lemma_fundamental_div_mod_converse, lemma_fundamental_div_mod, lemma_mod_pos_bound};
use crate::color::{Color, rgba_word, red_of, green_of, blue_of, alpha_of, lemma_word_from_components, lemma_rgba_components};

verus! {

/// The four bytes of a color word in memory: blue, green, red, alpha.
pub open spec fn word_bytes(w: u32) -> Seq<u8> {
    seq![blue_of(w), green_of(w), red_of(w), alpha_of(w)]
}

/// The bytes of a run of colors, four per color.
pub open spec fn bytes_of(s: Seq<Color>) -> Seq<u8> {
    Seq::new(4 * s.len(), |j: int| word_bytes(s[j / 4].data)[j % 4])
}

/// The colors read back from bytes, one per full group of four.
pub open spec fn colors_of(b: Seq<u8>) -> Seq<Color> {
    Seq::new(b.len() / 4, |i: int| Color { data: rgba_word(b[4 * i + 2], b[4 * i + 1], b[4 * i], b[4 * i + 3]) })
}

/// The bytes an image file is written from: red, green, blue and alpha of
/// each color in turn.
pub open spec fn rgba_bytes_of(s: Seq<Color>) -> Seq<u8> {
    Seq::new(4 * s.len(), |j: int| {
        let w = s[j / 4].data;
        seq![red_of(w), green_of(w), blue_of(w), alpha_of(w)][j % 4]
    })
}

proof fn lemma_quad(i: int, k: int)
    requires
        0 <= i,
        0 <= k < 4,
    ensures
        (4 * i + k) / 4 == i,
        (4 * i + k) % 4 == k,
{
    lemma_fundamental_div_mod_converse(4 * i + k, 4, i, k);
}

/// Computes `bytes_of`.
pub fn colors_to_bytes(data: &[Color]) -> (bytes: Vec<u8>)
    requires
        4 * data@.len() <= usize::MAX,
    ensures
        bytes@ == bytes_of(data@),
{
    let mut bytes: Vec<u8> = Vec::new();
    let mut i: usize = 0;
    while i < data.len()
        invariant
            i <= data@.len(),
            4 * data@.len() <= usize::MAX,
            bytes@ == bytes_of(data@.take(i as int)),
        decreases data@.len() - i,
    {
        let w = data[i].data;
        let ghost before = bytes@;
        bytes.push((w & 0xFFu32) as u8);
        bytes.push(((w & 0xFF00u32) >> 8u32) as u8);
        bytes.push(((w & 0xFF0000u32) >> 16u32) as u8);
        bytes.push(((w & 0xFF000000u32) >> 24u32) as u8);
        proof {
            let t = data@.take(i + 1);
            assert(t.len() == i + 1);
            assert forall|j: int| 0 <= j < 4 * t.len() implies #[trigger] bytes@[j] == word_bytes(t[j / 4].data)[j % 4] by {
                if j < 4 * i {
                    assert(data@.take(i as int)[j / 4] == t[j / 4]);
                } else {
                    lemma_quad(i as int, j - 4 * i);
                }
            }
            assert(bytes@ =~= bytes_of(t));
        }
        i += 1;
    }
    assert(data@.take(i as int) =~= data@);
    bytes
}

/// Computes `colors_of`; the buffer holds at least one color.
pub fn bytes_to_colors(bytes: &[u8]) -> (data: Vec<Color>)
    requires
        bytes@.len() >= 4,
    ensures
        data@ == colors_of(bytes@),
{
    let mut data: Vec<Color> = Vec::new();
    let mut i: usize = 0;
    while i <= bytes.len() - 4
        invariant
            bytes@.len() >= 4,
            i % 4 == 0,
            i <= bytes@.len(),
            data@.len() == i / 4,
            forall|k: int| 0 <= k < data@.len() ==> #[trigger] data@[k] == colors_of(bytes@)[k],
        decreases bytes@.len() - i,
    {
        let r = bytes[i];
        let g = bytes[i + 1];
        let b = bytes[i + 2];
        let a = bytes[i + 3];
        data.push(Color::rgba(b, g, r, a));
        proof {
            lemma_quad(i as int / 4, 0);
            assert(4 * (i as int / 4) == i);
        }
        i += 4;
    }
    proof {
        assert(i / 4 == bytes@.len() / 4);
    }
    assert(data@ =~= colors_of(bytes@));
    data
}

/// The bytes of the colors for an image file: red, green, blue and alpha
/// of each color. There has to be at least one color.
pub fn rgba_bytes(data: &[Color]) -> (bytes: Vec<u8>)
    requires
        data@.len() > 0,
        4 * data@.len() <= usize::MAX,
    ensures
        bytes@ == rgba_bytes_of(data@),
{
    let raw = colors_to_bytes(data);
    let mut bytes: Vec<u8> = Vec::new();
    let mut i: usize = 0;
    while i <= raw.len() - 4
        invariant
            raw@ == bytes_of(data@),
            raw@.len() == 4 * data@.len(),
            data@.len() > 0,
            i % 4 == 0,
            i <= raw@.len(),
            bytes@.len() == i,
            forall|j: int| 0 <= j < i ==> #[trigger] bytes@[j] == rgba_bytes_of(data@)[j],
        decreases raw@.len() - i,
    {
        bytes.push(raw[i + 2]);
        bytes.push(raw[i + 1]);
        bytes.push(raw[i]);
        bytes.push(raw[i + 3]);
        proof {
            let q = i as int / 4;
            assert(4 * q == i) by {
                lemma_quad(q, 0);
            }
            assert forall|j: int| 0 <= j < i + 4 implies #[trigger] bytes@[j] == rgba_bytes_of(data@)[j] by {
                if j >= i {
                    lemma_quad(q, j - i);
                    lemma_quad(q, 0);
                    lemma_quad(q, 1);
                    lemma_quad(q, 2);
                    lemma_quad(q, 3);
                }
            }
        }
        i += 4;
    }
    assert(bytes@ =~= rgba_bytes_of(data@));
    bytes
}

/// Reading back the bytes of a run of colors gives the same colors.
pub proof fn lemma_bytes_round_trip(s: Seq<Color>)
    ensures
        colors_of(bytes_of(s)) == s,
{
    let b = bytes_of(s);
    assert forall|i: int| 0 <= i < s.len() implies #[trigger] colors_of(b)[i] == s[i] by {
        lemma_quad(i, 0);
        lemma_quad(i, 1);
        lemma_quad(i, 2);
        lemma_quad(i, 3);
        lemma_word_from_components(s[i].data);
    }
    assert((4 * s.len()) / 4 == s.len()) by {
        lemma_quad(s.len() as int, 0);
    }
    assert(colors_of(b) =~= s);
}

// ---------------------------------------------------------------------
// Calls into the `image` crate, on RGBA byte buffers of `width` by
// `height` pixels.

/// `image::imageops::flip_vertical` on the buffer. Claimed, as its source
/// shows: the result has the same size, and the pixel at (x, y) goes to
/// (x, height - 1 - y).
#[verifier::external_body]
fn flip_vertical_bytes(width: u32, height: u32, bytes: Vec<u8>) -> (r: Vec<u8>)
    requires
        bytes@.len() == 4 * width * height,
    ensures
        r@.len() == bytes@.len(),
        forall|x: int, y: int, k: int|
            0 <= x < width && 0 <= y < height && 0 <= k < 4 ==> r@[4 * ((height - 1 - y) * width + x) + k]
                == #[trigger] bytes@[4 * (y * width + x) + k],
{
    let buf = image::ImageBuffer::<image::Rgba<u8>, Vec<u8>>::from_raw(width, height, bytes).unwrap();
    image::imageops::flip_vertical(&buf).into_raw()
}

/// `image::imageops::flip_horizontal` on the buffer. Claimed, as its source
/// shows: the result has the same size, and the pixel at (x, y) goes to
/// (width - 1 - x, y).
#[verifier::external_body]
fn flip_horizontal_bytes(width: u32, height: u32, bytes: Vec<u8>) -> (r: Vec<u8>)
    requires
        bytes@.len() == 4 * width * height,
    ensures
        r@.len() == bytes@.len(),
        forall|x: int, y: int, k: int|
            0 <= x < width && 0 <= y < height && 0 <= k < 4 ==> r@[4 * (y * width + (width - 1 - x)) + k]
                == #[trigger] bytes@[4 * (y * width + x) + k],
{
    let buf = image::ImageBuffer::<image::Rgba<u8>, Vec<u8>>::from_raw(width, height, bytes).unwrap();
    image::imageops::flip_horizontal(&buf).into_raw()
}

/// `image::imageops::rotate90` on the buffer. Claimed, as its source
/// shows: the result is `height` pixels wide and `width` high, and the
/// pixel at (x, y) goes to (height - 1 - y, x).
#[verifier::external_body]
fn rotate90_bytes(width: u32, height: u32, bytes: Vec<u8>) -> (r: Vec<u8>)
    requires
        bytes@.len() == 4 * width * height,
    ensures
        r@.len() == bytes@.len(),
        forall|x: int, y: int, k: int|
            0 <= x < width && 0 <= y < height && 0 <= k < 4 ==> r@[4 * (x * height + (height - 1 - y)) + k]
                == #[trigger] bytes@[4 * (y * width + x) + k],
{
    let buf = image::ImageBuffer::<image::Rgba<u8>, Vec<u8>>::from_raw(width, height, bytes).unwrap();
    image::imageops::rotate90(&buf).into_raw()
}

/// `image::imageops::colorops::invert` on the buffer. Claimed, as its
/// source shows: each of the first three bytes of a pixel becomes 255
/// minus itself, the fourth (alpha) stays.
#[verifier::external_body]
fn invert_bytes(width: u32, height: u32, bytes: Vec<u8>) -> (r: Vec<u8>)
    requires
        bytes@.len() == 4 * width * height,
    ensures
        r@.len() == bytes@.len(),
        forall|j: int| 0 <= j < r@.len() ==> #[trigger] r@[j] == if j % 4 == 3 { bytes@[j] as int } else { 255 - bytes@[j] },
{
    let mut buf = image::ImageBuffer::<image::Rgba<u8>, Vec<u8>>::from_raw(width, height, bytes).unwrap();
    image::imageops::colorops::invert(&mut buf);
    buf.into_raw()
}

/// `c + v` kept within 0 and 255.
pub open spec fn clamp_byte(c: int, v: int) -> int {
    if c + v < 0 {
        0
    } else if c + v > 255 {
        255
    } else {
        c + v
    }
}

/// `image::imageops::colorops::brighten` on the buffer. Claimed, as its
/// source shows: `value` is added to each of the first three bytes of a
/// pixel, kept within 0 and 255; the fourth (alpha) stays.
#[verifier::external_body]
fn brighten_bytes(width: u32, height: u32, bytes: Vec<u8>, value: i32) -> (r: Vec<u8>)
    requires
        bytes@.len() == 4 * width * height,
        -1000 <= value <= 1000,
    ensures
        r@.len() == bytes@.len(),
        forall|j: int| 0 <= j < r@.len() ==> #[trigger] r@[j] == if j % 4 == 3 { bytes@[j] as int } else { clamp_byte(bytes@[j] as int, value as int) },
{
    let buf = image::ImageBuffer::<image::Rgba<u8>, Vec<u8>>::from_raw(width, height, bytes).unwrap();
    image::imageops::colorops::brighten(&buf, value).into_raw()
}

/// What `image::imageops::resize` with the nearest-pixel filter makes of a
/// `width` by `height` RGBA buffer at the new size.
pub uninterp spec fn nearest_resized(width: u32, height: u32, bytes: Seq<u8>, nwidth: u32, nheight: u32) -> Seq<u8>;

/// `image::imageops::resize` with `FilterType::Nearest`. Claimed: the
/// result is the name above applied to the arguments, and, as the source
/// shows, it holds `nwidth` by `nheight` pixels.
#[verifier::external_body]
fn resize_nearest_bytes(width: u32, height: u32, bytes: Vec<u8>, nwidth: u32, nheight: u32) -> (r: Vec<u8>)
    requires
        bytes@.len() == 4 * width * height,
        4 * nwidth * nheight <= usize::MAX,
    ensures
        r@ == nearest_resized(width, height, bytes@, nwidth, nheight),
        r@.len() == 4 * nwidth * nheight,
{
    let buf = image::ImageBuffer::<image::Rgba<u8>, Vec<u8>>::from_raw(width, height, bytes).unwrap();
    image::imageops::resize(&buf, nwidth, nheight, image::imageops::FilterType::Nearest).into_raw()
}

// ---------------------------------------------------------------------
// Transformations on pixels

/// A transformation that the `image` crate makes without a fractional
/// parameter.
#[derive(Clone, Copy, Debug)]
pub enum Transform {
    FlipVertical,
    FlipHorizontal,
    /// A quarter turn clockwise.
    Rotate90,
    /// Each color component up by 10.
    Brighten,
    /// Each color component down by 10.
    Darken,
    Invert,
    /// Scaling to a new size, taking the nearest pixel.
    Resize { width: u32, height: u32 },
    /// No change.
    Keep,
}

/// The word with each color component moved by `v`, kept within 0 and
/// 255; alpha stays.
pub open spec fn brightened(w: u32, v: int) -> u32 {
    rgba_word(
        clamp_byte(red_of(w) as int, v) as u8,
        clamp_byte(green_of(w) as int, v) as u8,
        clamp_byte(blue_of(w) as int, v) as u8,
        alpha_of(w),
    )
}

/// The word with each color component replaced by 255 minus itself; alpha
/// stays.
pub open spec fn inverted(w: u32) -> u32 {
    rgba_word((255 - red_of(w)) as u8, (255 - green_of(w)) as u8, (255 - blue_of(w)) as u8, alpha_of(w))
}

/// The size of a `w` by `h` image after `t`.
pub open spec fn transformed_size(w: u32, h: u32, t: Transform) -> (u32, u32) {
    match t {
        Transform::Rotate90 => (h, w),
        Transform::Resize { width, height } => (width, height),
        _ => (w, h),
    }
}

/// The pixels, row after row, of the `w` by `h` image `s` after `t`.
pub open spec fn transformed(w: u32, h: u32, s: Seq<Color>, t: Transform) -> Seq<Color> {
    match t {
        Transform::FlipVertical => Seq::new(s.len(), |i: int| s[(h - 1 - i / w as int) * w + i % w as int]),
        Transform::FlipHorizontal => Seq::new(s.len(), |i: int| s[(i / w as int) * w + (w - 1 - i % w as int)]),
        Transform::Rotate90 => Seq::new(s.len(), |i: int| s[(h - 1 - i % h as int) * w + i / h as int]),
        Transform::Brighten => Seq::new(s.len(), |i: int| Color { data: brightened(s[i].data, 10) }),
        Transform::Darken => Seq::new(s.len(), |i: int| Color { data: brightened(s[i].data, -10) }),
        Transform::Invert => Seq::new(s.len(), |i: int| Color { data: inverted(s[i].data) }),
        Transform::Resize { width, height } => colors_of(nearest_resized(w, h, bytes_of(s), width, height)),
        Transform::Keep => s,
    }
}

/// The transformation can be made: the image and, for a resize, the new
/// size are not empty, and the byte buffers fit in memory.
pub open spec fn transform_fits(w: u32, h: u32, t: Transform) -> bool {
    &&& w * h > 0
    &&& 4 * w * h <= usize::MAX
    &&& t matches Transform::Resize { width, height } ==> width * height > 0 && 4 * width * height <= usize::MAX
}

/// Position `i` of a `w` by `h` image is at column `i % w` of row `i / w`.
proof fn lemma_split(i: int, w: int, h: int)
    requires
        0 <= i < w * h,
        0 < w,
    ensures
        0 <= i / w < h,
        0 <= i % w < w,
        i == (i / w) * w + i % w,
{
    lemma_fundamental_div_mod(i, w);
    lemma_mod_pos_bound(i, w);
    assert(0 <= i / w < h) by (nonlinear_arith)
        requires
            i == w * (i / w) + i % w,
            0 <= i % w < w,
            0 <= i < w * h,
            0 < w,
    ;
    assert(w * (i / w) == (i / w) * w) by (nonlinear_arith);
}

proof fn lemma_cell(x: int, y: int, w: int, h: int)
    requires
        0 <= x < w,
        0 <= y < h,
    ensures
        0 <= y * w + x < w * h,
        (y * w + x) / w == y,
        (y * w + x) % w == x,
{
    assert(0 <= y * w + x < w * h) by (nonlinear_arith)
        requires
            0 <= x < w,
            0 <= y < h,
    ;
    lemma_fundamental_div_mod_converse(y * w + x, w, y, x);
}

/// Bytes that hold, pixel for pixel, the bytes of the pixels `src(i)` of
/// `s` read back as those pixels.
proof fn lemma_moved(r: Seq<u8>, s: Seq<Color>, n: int, src: spec_fn(int) -> int)
    requires
        r.len() == 4 * n,
        0 <= n,
        forall|i: int| 0 <= i < n ==> 0 <= #[trigger] src(i) < s.len(),
        forall|i: int, k: int| 0 <= i < n && 0 <= k < 4 ==> r[4 * i + k] == #[trigger] bytes_of(s)[4 * src(i) + k],
    ensures
        colors_of(r) == Seq::new(n as nat, |i: int| s[src(i)]),
{
    lemma_quad(n, 0);
    assert forall|i: int| 0 <= i < n implies #[trigger] colors_of(r)[i] == s[src(i)] by {
        let j = src(i);
        assert(r[4 * i + 0] == bytes_of(s)[4 * j + 0]);
        assert(r[4 * i + 1] == bytes_of(s)[4 * j + 1]);
        assert(r[4 * i + 2] == bytes_of(s)[4 * j + 2]);
        assert(r[4 * i + 3] == bytes_of(s)[4 * j + 3]);
        lemma_quad(j, 0);
        lemma_quad(j, 1);
        lemma_quad(j, 2);
        lemma_quad(j, 3);
        lemma_word_from_components(s[j].data);
    }
    assert(colors_of(r) =~= Seq::new(n as nat, |i: int| s[src(i)]));
}

/// Bytes whose pixels are each made from the same pixel of `s` by `f`,
/// component by component, read back as those pixels.
proof fn lemma_mapped(r: Seq<u8>, s: Seq<Color>, f: spec_fn(u32) -> u32)
    requires
        r.len() == 4 * s.len(),
        forall|i: int| 0 <= i < s.len() ==> {
            let w = #[trigger] s[i].data;
            &&& r[4 * i] == blue_of(f(w))
            &&& r[4 * i + 1] == green_of(f(w))
            &&& r[4 * i + 2] == red_of(f(w))
            &&& r[4 * i + 3] == alpha_of(f(w))
        },
    ensures
        colors_of(r) == Seq::new(s.len(), |i: int| Color { data: f(s[i].data) }),
{
    lemma_quad(s.len() as int, 0);
    assert forall|i: int| 0 <= i < s.len() implies #[trigger] colors_of(r)[i] == Color { data: f(s[i].data) } by {
        lemma_word_from_components(f(s[i].data));
    }
    assert(colors_of(r) =~= Seq::new(s.len(), |i: int| Color { data: f(s[i].data) }));
}

/// Transforms the `width` by `height` image `image_data`: its bytes go
/// through the `image` crate and come back as pixels.
pub fn trans_from_slice(image_data: &[Color], width: u32, height: u32, t: Transform) -> (r: Vec<Color>)
    requires
        image_data@.len() == width * height,
        transform_fits(width, height, t),
    ensures
        r@ == transformed(width, height, image_data@, t),
        r@.len() == transformed_size(width, height, t).0 * transformed_size(width, height, t).1,
{
    let ghost s = image_data@;
    let ghost (w, h) = (width as int, height as int);
    proof {
        assert(4 * w * h == 4 * (w * h)) by (nonlinear_arith);
        assert(w * h == h * w) by (nonlinear_arith);
    }
    let bytes = colors_to_bytes(image_data);
    let ghost b = bytes@;
    let out = match t {
        Transform::FlipVertical => {
            let out = flip_vertical_bytes(width, height, bytes);
            proof {
                let src = |i: int| (h - 1 - i / w) * w + i % w;
                assert forall|i: int| 0 <= i < w * h implies 0 <= #[trigger] src(i) < s.len() by {
                    lemma_split(i, w, h);
                    lemma_cell(i % w, h - 1 - i / w, w, h);
                }
                assert forall|i: int, k: int| 0 <= i < w * h && 0 <= k < 4 implies out@[4 * i + k] == #[trigger] b[4 * src(i) + k] by {
                    lemma_split(i, w, h);
                    let (x, y) = (i % w, h - 1 - i / w);
                    assert(out@[4 * ((h - 1 - y) * w + x) + k] == b[4 * (y * w + x) + k]);
                }
                lemma_moved(out@, s, w * h, src);
                assert(transformed(width, height, s, t) =~= Seq::new((w * h) as nat, |i: int| s[src(i)]));
            }
            out
        },
        Transform::FlipHorizontal => {
            let out = flip_horizontal_bytes(width, height, bytes);
            proof {
                let src = |i: int| (i / w) * w + (w - 1 - i % w);
                assert forall|i: int| 0 <= i < w * h implies 0 <= #[trigger] src(i) < s.len() by {
                    lemma_split(i, w, h);
                    lemma_cell(w - 1 - i % w, i / w, w, h);
                }
                assert forall|i: int, k: int| 0 <= i < w * h && 0 <= k < 4 implies out@[4 * i + k] == #[trigger] b[4 * src(i) + k] by {
                    lemma_split(i, w, h);
                    let (x, y) = (w - 1 - i % w, i / w);
                    assert(out@[4 * (y * w + (w - 1 - x)) + k] == b[4 * (y * w + x) + k]);
                }
                lemma_moved(out@, s, w * h, src);
                assert(transformed(width, height, s, t) =~= Seq::new((w * h) as nat, |i: int| s[src(i)]));
            }
            out
        },
        Transform::Rotate90 => {
            let out = rotate90_bytes(width, height, bytes);
            proof {
                let src = |i: int| (h - 1 - i % h) * w + i / h;
                assert forall|i: int| 0 <= i < w * h implies 0 <= #[trigger] src(i) < s.len() by {
                    lemma_split(i, h, w);
                    lemma_cell(i / h, h - 1 - i % h, w, h);
                }
                assert forall|i: int, k: int| 0 <= i < w * h && 0 <= k < 4 implies out@[4 * i + k] == #[trigger] b[4 * src(i) + k] by {
                    lemma_split(i, h, w);
                    let (x, y) = (i / h, h - 1 - i % h);
                    assert(out@[4 * (x * h + (h - 1 - y)) + k] == b[4 * (y * w + x) + k]);
                }
                lemma_moved(out@, s, w * h, src);
                assert(transformed(width, height, s, t) =~= Seq::new((w * h) as nat, |i: int| s[src(i)]));
            }
            out
        },
        Transform::Brighten | Transform::Darken => {
            let v: i32 = if let Transform::Brighten = t { 10 } else { -10 };
            let out = brighten_bytes(width, height, bytes, v);
            proof {
                let f = |c: u32| brightened(c, v as int);
                assert forall|i: int| 0 <= i < s.len() implies {
                    let c = #[trigger] s[i].data;
                    &&& out@[4 * i] == blue_of(f(c))
                    &&& out@[4 * i + 1] == green_of(f(c))
                    &&& out@[4 * i + 2] == red_of(f(c))
                    &&& out@[4 * i + 3] == alpha_of(f(c))
                } by {
                    let c = s[i].data;
                    lemma_quad(i, 0);
                    lemma_quad(i, 1);
                    lemma_quad(i, 2);
                    lemma_quad(i, 3);
                    lemma_rgba_components(
                        clamp_byte(red_of(c) as int, v as int) as u8,
                        clamp_byte(green_of(c) as int, v as int) as u8,
                        clamp_byte(blue_of(c) as int, v as int) as u8,
                        alpha_of(c),
                    );
                    assert(out@[4 * i] == clamp_byte(b[4 * i] as int, v as int));
                    assert(out@[4 * i + 1] == clamp_byte(b[4 * i + 1] as int, v as int));
                    assert(out@[4 * i + 2] == clamp_byte(b[4 * i + 2] as int, v as int));
                    assert(out@[4 * i + 3] == b[4 * i + 3]);
                }
                lemma_mapped(out@, s, f);
                assert(transformed(width, height, s, t) =~= Seq::new(s.len(), |i: int| Color { data: f(s[i].data) }));
            }
            out
        },
        Transform::Invert => {
            let out = invert_bytes(width, height, bytes);
            proof {
                let f = |c: u32| inverted(c);
                assert forall|i: int| 0 <= i < s.len() implies {
                    let c = #[trigger] s[i].data;
                    &&& out@[4 * i] == blue_of(f(c))
                    &&& out@[4 * i + 1] == green_of(f(c))
                    &&& out@[4 * i + 2] == red_of(f(c))
                    &&& out@[4 * i + 3] == alpha_of(f(c))
                } by {
                    let c = s[i].data;
                    lemma_quad(i, 0);
                    lemma_quad(i, 1);
                    lemma_quad(i, 2);
                    lemma_quad(i, 3);
                    lemma_rgba_components((255 - red_of(c)) as u8, (255 - green_of(c)) as u8, (255 - blue_of(c)) as u8, alpha_of(c));
                    assert(out@[4 * i] == 255 - b[4 * i]);
                    assert(out@[4 * i + 1] == 255 - b[4 * i + 1]);
                    assert(out@[4 * i + 2] == 255 - b[4 * i + 2]);
                    assert(out@[4 * i + 3] == b[4 * i + 3]);
                }
                lemma_mapped(out@, s, f);
                assert(transformed(width, height, s, t) =~= Seq::new(s.len(), |i: int| Color { data: f(s[i].data) }));
            }
            out
        },
        Transform::Resize { width: nw, height: nh } => {
            resize_nearest_bytes(width, height, bytes, nw, nh)
        },
        Transform::Keep => {
            proof {
                lemma_bytes_round_trip(s);
            }
            bytes
        },
    };
    proof {
        if let Transform::Resize { width: nw, height: nh } = t {
            lemma_quad(nw * nh, 0);
            assert(4 * nw * nh == 4 * (nw * nh)) by (nonlinear_arith);
        }
        lemma_quad(w * h, 0);
    }
    bytes_to_colors(&out)
}

/// What a transformation code names: one of the transformations above, or
/// one that takes a fractional parameter and is made outside this library.
#[derive(Clone, Copy, Debug)]
pub enum TransformCode {
    Blur,
    Unsharpen,
    Rotate,
    Contrast,
    Grayscale,
    Plain(Transform),
}

/// The transformation named by `cod`; `size_a` and `size_b` are the new
/// width and height for "resize" (the height read as `u32`). An unknown
/// code leaves the image as it is.
pub fn transform_code(cod: &str, size_a: u32, size_b: i32) -> (c: TransformCode)
    ensures
        c == if cod@ == "blur"@ {
            TransformCode::Blur
        } else if cod@ == "unsharpen"@ {
            TransformCode::Unsharpen
        } else if cod@ == "flip_vertical"@ {
            TransformCode::Plain(Transform::FlipVertical)
        } else if cod@ == "flip_horizontal"@ {
            TransformCode::Plain(Transform::FlipHorizontal)
        } else if cod@ == "rotate90"@ {
            TransformCode::Plain(Transform::Rotate90)
        } else if cod@ == "rotate"@ {
            TransformCode::Rotate
        } else if cod@ == "brighten"@ {
            TransformCode::Plain(Transform::Brighten)
        } else if cod@ == "darken"@ {
            TransformCode::Plain(Transform::Darken)
        } else if cod@ == "contrast"@ {
            TransformCode::Contrast
        } else if cod@ == "invert"@ {
            TransformCode::Plain(Transform::Invert)
        } else if cod@ == "grayscale"@ {
            TransformCode::Grayscale
        } else if cod@ == "resize"@ {
            TransformCode::Plain(Transform::Resize { width: size_a, height: size_b as u32 })
        } else {
            TransformCode::Plain(Transform::Keep)
        },
{
    let c = cod.to_owned();
    if c == "blur".to_owned() {
        TransformCode::Blur
    } else if c == "unsharpen".to_owned() {
        TransformCode::Unsharpen
    } else if c == "flip_vertical".to_owned() {
        TransformCode::Plain(Transform::FlipVertical)
    } else if c == "flip_horizontal".to_owned() {
        TransformCode::Plain(Transform::FlipHorizontal)
    } else if c == "rotate90".to_owned() {
        TransformCode::Plain(Transform::Rotate90)
    } else if c == "rotate".to_owned() {
        TransformCode::Rotate
    } else if c == "brighten".to_owned() {
        TransformCode::Plain(Transform::Brighten)
    } else if c == "darken".to_owned() {
        TransformCode::Plain(Transform::Darken)
    } else if c == "contrast".to_owned() {
        TransformCode::Contrast
    } else if c == "invert".to_owned() {
        TransformCode::Plain(Transform::Invert)
    } else if c == "grayscale".to_owned() {
        TransformCode::Grayscale
    } else if c == "resize".to_owned() {
        TransformCode::Plain(Transform::Resize { width: size_a, height: size_b as u32 })
    } else {
        TransformCode::Plain(Transform::Keep)
    }
}

} // verus!

verus! {

/// Inverting a picture twice gives it back.
pub proof fn lemma_invert_twice(w: u32, h: u32, s: Seq<Color>)
    ensures
        transformed(w, h, transformed(w, h, s, Transform::Invert), Transform::Invert) == s,
{
    let once = transformed(w, h, s, Transform::Invert);
    let twice = transformed(w, h, once, Transform::Invert);
    assert forall|i: int| 0 <= i < s.len() implies #[trigger] twice[i] == s[i] by {
        let c = s[i].data;
        let r = (255 - red_of(c)) as u8;
        let g = (255 - green_of(c)) as u8;
        let b = (255 - blue_of(c)) as u8;
        lemma_rgba_components(r, g, b, alpha_of(c));
        lemma_rgba_components((255 - r) as u8, (255 - g) as u8, (255 - b) as u8, alpha_of(c));
        assert((255 - r) as u8 == red_of(c));
        assert((255 - g) as u8 == green_of(c));
        assert((255 - b) as u8 == blue_of(c));
        lemma_word_from_components(c);
    }
    assert(twice =~= s);
}

} // verus!
