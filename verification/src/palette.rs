//! The color palette: 16 fixed colors followed by custom swatches, and its
//! text form.
use vstd::prelude::*;
use vstd::string::StringExecFns;
use crate::color::{Color, rgba_word, red_of, green_of, blue_of};
use crate::canvas::Rect;
use crate::controls::div_toward_zero;
use crate::text::{
    dec, split_on, join_with, parse_u8_spec, split_commas, strings_view, parse_u8, u8_to_string,
    lemma_u8_round_trip, lemma_dec_no_comma, lemma_split_join,
};

verus! {

/// Side of a swatch, in pixels.
pub const SWATCH_SIZE: i32 = 24;

/// How many custom swatches the palette has.
pub const SWATCH_MAX: usize = 66;

/// The 16 fixed colors (the VGA palette) followed by `SWATCH_MAX` white
/// custom swatches.
pub open spec fn default_words() -> Seq<u32> {
    seq![
        rgba_word(0, 0, 0, 255),
        rgba_word(255, 255, 255, 255),
        rgba_word(128, 128, 128, 255),
        rgba_word(255, 0, 0, 255),
        rgba_word(0, 255, 0, 255),
        rgba_word(0, 0, 255, 255),
        rgba_word(128, 0, 0, 255),
        rgba_word(0, 128, 0, 255),
        rgba_word(0, 0, 128, 255),
        rgba_word(255, 255, 0, 255),
        rgba_word(128, 0, 128, 255),
        rgba_word(0, 255, 255, 255),
        rgba_word(192, 192, 192, 255),
        rgba_word(128, 128, 0, 255),
        rgba_word(0, 128, 128, 255),
        rgba_word(255, 0, 255, 255),
    ] + Seq::new(SWATCH_MAX as nat, |i: int| rgba_word(255, 255, 255, 255))
}

/// The text pieces of a list of colors: red, green and blue of each, in
/// decimal.
pub open spec fn color_tokens(cs: Seq<Color>) -> Seq<Seq<char>>
    decreases cs.len(),
{
    if cs.len() == 0 {
        Seq::empty()
    } else {
        let c = cs.last().data;
        color_tokens(cs.drop_last()) + seq![dec(red_of(c) as nat), dec(green_of(c) as nat), dec(blue_of(c) as nat)]
    }
}

/// The red, green and blue components of a list of colors, in order.
pub open spec fn color_components(cs: Seq<Color>) -> Seq<u8>
    decreases cs.len(),
{
    if cs.len() == 0 {
        Seq::empty()
    } else {
        let c = cs.last().data;
        color_components(cs.drop_last()) + seq![red_of(c), green_of(c), blue_of(c)]
    }
}

/// The numbers read from text pieces, or `None` when a piece is not a
/// `u8`.
pub open spec fn parse_all(pieces: Seq<Seq<char>>) -> Option<Seq<u8>>
    decreases pieces.len(),
{
    if pieces.len() == 0 {
        Some(Seq::empty())
    } else {
        match (parse_all(pieces.drop_last()), parse_u8_spec(pieces.last())) {
            (Some(vs), Some(v)) => Some(vs.push(v)),
            _ => None,
        }
    }
}

/// The text a palette is saved as: the components of its custom swatches,
/// comma separated.
pub open spec fn palette_text(swatches: Seq<Color>) -> Seq<char> {
    join_with(color_tokens(swatches.skip(16)), ',')
}

/// The numbers the text of a saved palette is read as.
pub open spec fn palette_numbers(text: Seq<char>) -> Option<Seq<u8>> {
    parse_all(split_on(text, ','))
}

/// The first custom swatch index in `16..SWATCH_MAX` whose loaded color is
/// white, or 0 when there is none.
pub open spec fn first_white(colors: Seq<u8>, k: int) -> int
    decreases SWATCH_MAX - k,
{
    if k >= SWATCH_MAX {
        0
    } else {
        let i = 3 * (k - 16);
        if colors[i] == 255 && colors[i + 1] == 255 && colors[i + 2] == 255 {
            k
        } else {
            first_white(colors, k + 1)
        }
    }
}

/// Where swatch `k` is drawn by `prepare` and `draw`.
pub open spec fn swatch_position(rect: Rect, k: int) -> (int, int) {
    (rect.x + SWATCH_SIZE * k, rect.y as int)
}

/// Where `add` places a new swatch when the palette holds `len` of them:
/// after the last one, or on the second row once the first is full. The
/// width is read as a signed 32-bit number.
pub open spec fn add_position(rect: Rect, len: int) -> (int, int) {
    let wi = (rect.width as i32) as int;
    let max = div_toward_zero(wi, SWATCH_SIZE as int);
    let x = rect.x + SWATCH_SIZE * len;
    if x > wi - SWATCH_SIZE {
        (rect.x + SWATCH_SIZE * (len - max + 1), rect.y + SWATCH_SIZE)
    } else {
        (x, rect.y as int)
    }
}

/// The numbers `add` works out for a palette of `len` swatches fit in
/// `i32`.
pub open spec fn add_fits(rect: Rect, len: int) -> bool {
    let wi = (rect.width as i32) as int;
    let max = div_toward_zero(wi, SWATCH_SIZE as int);
    let x = rect.x + SWATCH_SIZE * len;
    &&& len <= i32::MAX
    &&& SWATCH_SIZE * len <= i32::MAX
    &&& x <= i32::MAX
    &&& i32::MIN <= wi - SWATCH_SIZE
    &&& x > wi - SWATCH_SIZE ==> {
        &&& len - max + 1 <= i32::MAX
        &&& SWATCH_SIZE * (len - max + 1) <= i32::MAX
        &&& i32::MIN <= rect.x + SWATCH_SIZE * (len - max + 1) <= i32::MAX
        &&& rect.y + SWATCH_SIZE <= i32::MAX
    }
}

pub struct Palette {
    pub swatches: Vec<Color>,
    rect: Rect,
    pub order: usize,
}

/// What a palette is: its swatches, its place on screen and the next custom
/// swatch to fill.
pub struct PaletteView {
    pub swatches: Seq<Color>,
    pub rect: Rect,
    pub order: usize,
}

impl View for Palette {
    type V = PaletteView;

    closed spec fn view(&self) -> PaletteView {
        PaletteView { swatches: self.swatches@, rect: self.rect, order: self.order }
    }
}

impl Palette {
    /// An empty palette at the given place, whose next custom swatch is
    /// the first after the fixed ones.
    pub fn new(x: i32, y: i32, width: u32, height: u32) -> (p: Palette)
        ensures
            p@.swatches.len() == 0,
            p@.order == 16,
            p@.rect == (Rect { x, y, width, height }),
    {
        Palette { swatches: Vec::new(), rect: Rect::new(x, y, width, height), order: 16 }
    }

    /// The default colors: the 16 fixed ones and white custom swatches.
    pub fn default_colors() -> (v: Vec<Color>)
        ensures
            v@.len() == default_words().len(),
            forall|i: int| 0 <= i < v@.len() ==> #[trigger] v@[i].data == default_words()[i],
    {
        let mut v: Vec<Color> = Vec::new();
        v.push(Color::rgb(0, 0, 0));
        v.push(Color::rgb(255, 255, 255));
        v.push(Color::rgb(128, 128, 128));
        v.push(Color::rgb(255, 0, 0));
        v.push(Color::rgb(0, 255, 0));
        v.push(Color::rgb(0, 0, 255));
        v.push(Color::rgb(128, 0, 0));
        v.push(Color::rgb(0, 128, 0));
        v.push(Color::rgb(0, 0, 128));
        v.push(Color::rgb(255, 255, 0));
        v.push(Color::rgb(128, 0, 128));
        v.push(Color::rgb(0, 255, 255));
        v.push(Color::rgb(192, 192, 192));
        v.push(Color::rgb(128, 128, 0));
        v.push(Color::rgb(0, 128, 128));
        v.push(Color::rgb(255, 0, 255));
        let mut i: usize = 0;
        while i < SWATCH_MAX
            invariant
                i <= SWATCH_MAX,
                v@.len() == 16 + i,
                forall|j: int| 0 <= j < 16 + i ==> #[trigger] v@[j].data == default_words()[j],
            decreases SWATCH_MAX - i,
        {
            v.push(Color::rgb(255, 255, 255));
            i += 1;
        }
        v
    }

    /// Appends the default colors to the palette and returns where each of
    /// them is drawn.
    pub fn prepare(&mut self) -> (positions: Vec<(i32, i32)>)
        requires
            old(self)@.rect.x + SWATCH_SIZE * 81 <= i32::MAX,
        ensures
            final(self)@.rect == old(self)@.rect,
            final(self)@.order == old(self)@.order,
            final(self)@.swatches.len() == old(self)@.swatches.len() + default_words().len(),
            forall|i: int| 0 <= i < old(self)@.swatches.len() ==> #[trigger] final(self)@.swatches[i] == old(self)@.swatches[i],
            forall|i: int|
                0 <= i < default_words().len() ==> #[trigger] final(self)@.swatches[old(self)@.swatches.len() + i].data
                    == default_words()[i],
            positions@.len() == default_words().len(),
            forall|k: int|
                0 <= k < positions@.len() ==> (#[trigger] positions@[k].0 as int, positions@[k].1 as int)
                    == swatch_position(old(self)@.rect, k),
    {
        let default = Self::default_colors();
        let mut positions: Vec<(i32, i32)> = Vec::new();
        let n0 = self.swatches.len();
        let mut k: usize = 0;
        while k < default.len()
            invariant
                default@.len() == default_words().len(),
                forall|i: int| 0 <= i < default@.len() ==> #[trigger] default@[i].data == default_words()[i],
                self.rect == old(self)@.rect,
                self.order == old(self)@.order,
                self.rect.x + SWATCH_SIZE * 81 <= i32::MAX,
                n0 == old(self)@.swatches.len(),
                k <= default@.len(),
                self@.swatches.len() == n0 + k,
                positions@.len() == k,
                forall|i: int| 0 <= i < n0 ==> #[trigger] self@.swatches[i] == old(self)@.swatches[i],
                forall|i: int| 0 <= i < k ==> #[trigger] self@.swatches[n0 + i].data == default_words()[i],
                forall|j: int|
                    0 <= j < k ==> (#[trigger] positions@[j].0 as int, positions@[j].1 as int) == swatch_position(self.rect, j),
            decreases default@.len() - k,
        {
            let x = self.rect.x + SWATCH_SIZE * (k as i32);
            let y = self.rect.y;
            positions.push((x, y));
            self.swatches.push(default[k]);
            k += 1;
        }
        positions
    }

    /// Gives swatch `id` the color.
    pub fn change(&mut self, id: usize, color: Color)
        requires
            id < old(self)@.swatches.len(),
        ensures
            final(self)@.swatches == old(self)@.swatches.update(id as int, color),
            final(self)@.order == old(self)@.order,
            final(self)@.rect == old(self)@.rect,
    {
        self.swatches.set(id, color);
    }

    /// Where each swatch is drawn, with its color.
    pub fn draw(&self) -> (placed: Vec<(i32, i32, Color)>)
        requires
            self@.swatches.len() == 0 || ({
                &&& SWATCH_SIZE * (self@.swatches.len() - 1) <= i32::MAX
                &&& self@.rect.x + SWATCH_SIZE * (self@.swatches.len() - 1) <= i32::MAX
            }),
        ensures
            placed@.len() == self@.swatches.len(),
            forall|k: int|
                0 <= k < placed@.len() ==> (#[trigger] placed@[k].0 as int, placed@[k].1 as int) == swatch_position(self@.rect, k)
                    && placed@[k].2 == self@.swatches[k],
    {
        let mut placed: Vec<(i32, i32, Color)> = Vec::new();
        let n = self.swatches.len();
        let mut k: usize = 0;
        while k < n
            invariant
                n == self@.swatches.len(),
                n == 0 || SWATCH_SIZE * (n - 1) <= i32::MAX,
                n == 0 || self.rect.x + SWATCH_SIZE * (n - 1) <= i32::MAX,
                k <= n,
                placed@.len() == k,
                forall|j: int|
                    0 <= j < k ==> (#[trigger] placed@[j].0 as int, placed@[j].1 as int) == swatch_position(self.rect, j)
                        && placed@[j].2 == self@.swatches[j],
            decreases n - k,
        {
            let color = self.swatches[k];
            let x = self.rect.x + SWATCH_SIZE * (k as i32);
            let y = self.rect.y;
            placed.push((x, y, color));
            k += 1;
        }
        placed
    }

    /// Appends a custom swatch and returns where it is drawn.
    pub fn add(&mut self, color: Color) -> (pos: (i32, i32))
        requires
            add_fits(old(self)@.rect, old(self)@.swatches.len() as int),
        ensures
            final(self)@.swatches == old(self)@.swatches.push(color),
            final(self)@.order == old(self)@.order,
            final(self)@.rect == old(self)@.rect,
            (pos.0 as int, pos.1 as int) == add_position(old(self)@.rect, old(self)@.swatches.len() as int),
    {
        let wi: i64 = (self.rect.width as i32) as i64;
        let max: i64 = if wi >= 0 { wi / 24 } else { -((-wi) / 24) };
        let len: i64 = self.swatches.len() as i64;
        let mut x: i64 = self.rect.x as i64 + 24 * len;
        let mut y: i64 = self.rect.y as i64;
        if x > wi - 24 {
            x = self.rect.x as i64 + 24 * (len - max + 1);
            y = self.rect.y as i64 + 24;
        }
        self.swatches.push(color);
        (x as i32, y as i32)
    }

    /// Makes every custom swatch in `16..SWATCH_MAX` white again, and
    /// starts custom colors over at the first custom swatch, 16, so that
    /// `next` gives the first empty custom swatch.
    pub fn reset(&mut self)
        requires
            old(self)@.swatches.len() >= SWATCH_MAX,
        ensures
            final(self)@.swatches.len() == old(self)@.swatches.len(),
            forall|k: int|
                0 <= k < final(self)@.swatches.len() ==> #[trigger] final(self)@.swatches[k] == if 16 <= k < SWATCH_MAX {
                    Color { data: rgba_word(255, 255, 255, 255) }
                } else {
                    old(self)@.swatches[k]
                },
            final(self)@.order == 16,
            final(self)@.rect == old(self)@.rect,
    {
        let mut k: usize = 16;
        while k < SWATCH_MAX
            invariant
                16 <= k <= SWATCH_MAX,
                old(self)@.swatches.len() >= SWATCH_MAX,
                self@.swatches.len() == old(self)@.swatches.len(),
                self.rect == old(self)@.rect,
                forall|j: int|
                    0 <= j < self@.swatches.len() ==> #[trigger] self@.swatches[j] == if 16 <= j < k {
                        Color { data: rgba_word(255, 255, 255, 255) }
                    } else {
                        old(self)@.swatches[j]
                    },
            decreases SWATCH_MAX - k,
        {
            self.change(k, Color::rgb(255, 255, 255));
            k += 1;
        }
        self.order = 16;
    }

    /// How many swatches the palette holds.
    pub fn count(&self) -> (n: usize)
        ensures
            n == self@.swatches.len(),
    {
        self.swatches.len()
    }

    /// The next custom swatch to fill; it moves on by one as long as it is
    /// below `SWATCH_MAX`.
    pub fn next(&mut self) -> (n: usize)
        ensures
            n == old(self)@.order,
            final(self)@.order == if old(self)@.order < SWATCH_MAX { old(self)@.order + 1 } else { old(self)@.order as int },
            final(self)@.swatches == old(self)@.swatches,
            final(self)@.rect == old(self)@.rect,
    {
        let n = self.order;
        if n < SWATCH_MAX {
            self.order = n + 1;
        }
        n
    }
}

/// Joining one more piece appends the separator and the piece (after a
/// first piece; a single piece is joined as itself).
proof fn lemma_join_push(pieces: Seq<Seq<char>>, p: Seq<char>, c: char)
    ensures
        join_with(pieces.push(p), c) == if pieces.len() == 0 { p } else { join_with(pieces, c).push(c) + p },
{
    assert(pieces.push(p).drop_last() =~= pieces);
    if pieces.len() == 0 {
        assert(pieces.push(p)[0] == p);
    }
}

proof fn lemma_tokens_len(cs: Seq<Color>)
    ensures
        color_tokens(cs).len() == 3 * cs.len(),
        color_components(cs).len() == 3 * cs.len(),
    decreases cs.len(),
{
    if cs.len() > 0 {
        lemma_tokens_len(cs.drop_last());
    }
}

proof fn lemma_tokens_no_comma(cs: Seq<Color>)
    ensures
        forall|i: int| 0 <= i < color_tokens(cs).len() ==> !(#[trigger] color_tokens(cs)[i]).contains(','),
    decreases cs.len(),
{
    if cs.len() > 0 {
        lemma_tokens_no_comma(cs.drop_last());
        lemma_tokens_len(cs.drop_last());
        let c = cs.last().data;
        lemma_dec_no_comma(red_of(c) as nat);
        lemma_dec_no_comma(green_of(c) as nat);
        lemma_dec_no_comma(blue_of(c) as nat);
        let t = color_tokens(cs);
        let t0 = color_tokens(cs.drop_last());
        assert forall|i: int| 0 <= i < t.len() implies !(#[trigger] t[i]).contains(',') by {
            if i < t0.len() {
                assert(t[i] == t0[i]);
            }
        }
    }
}

proof fn lemma_tokens_parse(cs: Seq<Color>)
    ensures
        parse_all(color_tokens(cs)) == Some(color_components(cs)),
    decreases cs.len(),
{
    if cs.len() > 0 {
        lemma_tokens_parse(cs.drop_last());
        let c = cs.last().data;
        let t0 = color_tokens(cs.drop_last());
        let r = dec(red_of(c) as nat);
        let g = dec(green_of(c) as nat);
        let b = dec(blue_of(c) as nat);
        lemma_u8_round_trip(red_of(c));
        lemma_u8_round_trip(green_of(c));
        lemma_u8_round_trip(blue_of(c));
        let t = t0 + seq![r, g, b];
        assert(t.drop_last() =~= t0 + seq![r, g]);
        assert(t.drop_last().drop_last() =~= t0 + seq![r]);
        assert(t.drop_last().drop_last().drop_last() =~= t0);
        let c0 = color_components(cs.drop_last());
        let t1 = t0 + seq![r];
        let t2 = t0 + seq![r, g];
        assert(t1.drop_last() =~= t0);
        assert(t1.last() == r);
        assert(parse_all(t1) == Some(c0.push(red_of(c))));
        assert(t2.drop_last() =~= t1);
        assert(t2.last() == g);
        assert(parse_all(t2) == Some(c0.push(red_of(c)).push(green_of(c))));
        assert(t.drop_last() =~= t2);
        assert(t.last() == b);
        assert(parse_all(t) == Some(c0.push(red_of(c)).push(green_of(c)).push(blue_of(c))));
        assert(color_components(cs) =~= c0.push(red_of(c)).push(green_of(c)).push(blue_of(c)));
    }
}

/// Where the components of color `i` sit among the components.
proof fn lemma_components_index(cs: Seq<Color>, i: int)
    requires
        0 <= i < cs.len(),
    ensures
        color_components(cs).len() == 3 * cs.len(),
        color_components(cs)[3 * i] == red_of(cs[i].data),
        color_components(cs)[3 * i + 1] == green_of(cs[i].data),
        color_components(cs)[3 * i + 2] == blue_of(cs[i].data),
    decreases cs.len(),
{
    lemma_tokens_len(cs);
    lemma_tokens_len(cs.drop_last());
    if i < cs.len() - 1 {
        lemma_components_index(cs.drop_last(), i);
    }
}

/// The text a palette is saved as reads back as the red, green and blue
/// components of its custom swatches, in order.
pub proof fn lemma_palette_text_reads_back(swatches: Seq<Color>)
    requires
        swatches.len() > 16,
    ensures
        palette_numbers(palette_text(swatches)) == Some(color_components(swatches.skip(16))),
        color_components(swatches.skip(16)).len() == 3 * (swatches.len() - 16),
{
    let cs = swatches.skip(16);
    lemma_tokens_len(cs);
    lemma_tokens_no_comma(cs);
    lemma_split_join(color_tokens(cs), ',');
    lemma_tokens_parse(cs);
}

/// The swatch that `load` puts at `k` for the numbers `colors`.
pub open spec fn loaded_word(colors: Seq<u8>, k: int) -> u32 {
    let i = 3 * (k - 16);
    rgba_word(colors[i], colors[i + 1], colors[i + 2], 255)
}

/// Saving a palette and loading the text back restores each custom swatch
/// in `16..SWATCH_MAX` as the opaque color with the same red, green and
/// blue.
pub proof fn lemma_palette_round_trip(swatches: Seq<Color>)
    requires
        swatches.len() >= SWATCH_MAX,
    ensures
        ({
            let numbers = palette_numbers(palette_text(swatches));
            &&& numbers is Some
            &&& numbers->0.len() >= 3 * (SWATCH_MAX - 16)
            &&& forall|k: int|
                16 <= k < SWATCH_MAX ==> #[trigger] loaded_word(numbers->0, k) == rgba_word(
                    red_of(swatches[k].data),
                    green_of(swatches[k].data),
                    blue_of(swatches[k].data),
                    255,
                )
        }),
{
    lemma_palette_text_reads_back(swatches);
    let cs = swatches.skip(16);
    assert forall|k: int| 16 <= k < SWATCH_MAX implies #[trigger] loaded_word(color_components(cs), k) == rgba_word(
        red_of(swatches[k].data),
        green_of(swatches[k].data),
        blue_of(swatches[k].data),
        255,
    ) by {
        lemma_components_index(cs, k - 16);
        assert(cs[k - 16] == swatches[k]);
    }
}

impl Palette {
    /// The text the palette is saved as: red, green and blue of every
    /// custom swatch (all but the 16 fixed colors), comma separated.
    pub fn save(&self) -> (text: String)
        requires
            self@.swatches.len() >= 16,
        ensures
            text@ == palette_text(self@.swatches),
    {
        let ghost sw = self@.swatches;
        let mut payload = String::new();
        let n = self.swatches.len();
        let mut k: usize = 16;
        proof {
            reveal_strlit(",");
            assert(sw.subrange(16, 16) =~= Seq::<Color>::empty());
        }
        while k < n
            invariant
                n == sw.len(),
                sw == self@.swatches,
                16 <= k <= n,
                payload@ == join_with(color_tokens(sw.subrange(16, k as int)), ','),
                ","@ == seq![','],
            decreases n - k,
        {
            let col = self.swatches[k];
            let r = u8_to_string(col.r());
            let g = u8_to_string(col.g());
            let b = u8_to_string(col.b());
            let ghost t0 = color_tokens(sw.subrange(16, k as int));
            proof {
                lemma_tokens_len(sw.subrange(16, k as int));
                assert(sw.subrange(16, k + 1).drop_last() =~= sw.subrange(16, k as int));
                assert(sw.subrange(16, k + 1).last() == col);
                let t = t0 + seq![r@, g@, b@];
                assert(color_tokens(sw.subrange(16, k + 1)) == t);
                assert(t0.push(r@) =~= t0 + seq![r@]);
                assert((t0 + seq![r@]).push(g@) =~= t0 + seq![r@, g@]);
                assert((t0 + seq![r@, g@]).push(b@) =~= t);
                lemma_join_push(t0, r@, ',');
                lemma_join_push(t0 + seq![r@], g@, ',');
                lemma_join_push(t0 + seq![r@, g@], b@, ',');
            }
            if k > 16 {
                payload.append(",");
            }
            payload.append(r.as_str());
            payload.append(",");
            payload.append(g.as_str());
            payload.append(",");
            payload.append(b.as_str());
            proof {
                let t = t0 + seq![r@, g@, b@];
                assert(payload@ =~= join_with(t, ','));
            }
            k += 1;
        }
        proof {
            assert(sw.subrange(16, n as int) =~= sw.skip(16));
        }
        payload
    }

    /// The numbers a saved palette text holds, or `None` when a piece
    /// between commas is not a number from 0 to 255.
    pub fn loadold(&self, text: &str) -> (numbers: Option<Vec<u8>>)
        ensures
            numbers is Some <==> palette_numbers(text@) is Some,
            numbers matches Some(v) ==> Some(v@) == palette_numbers(text@),
    {
        let pieces = split_commas(text);
        let ghost pv = strings_view(pieces@);
        let mut numbers: Vec<u8> = Vec::new();
        let n = pieces.len();
        let mut k: usize = 0;
        proof {
            assert(pv.take(0) =~= Seq::<Seq<char>>::empty());
        }
        while k < n
            invariant
                n == pieces@.len(),
                pv == strings_view(pieces@),
                pv == split_on(text@, ','),
                k <= n,
                parse_all(pv.take(k as int)) == Some(numbers@),
            decreases n - k,
        {
            let v = parse_u8(pieces[k].as_str());
            proof {
                assert(pv.take(k + 1).drop_last() =~= pv.take(k as int));
                assert(pv.take(k + 1).last() == pieces@[k as int]@);
            }
            match v {
                Some(b) => {
                    numbers.push(b);
                }
                None => {
                    proof {
                        lemma_parse_all_prefix(pv, k + 1);
                    }
                    return None;
                }
            }
            k += 1;
        }
        proof {
            assert(pv.take(n as int) =~= pv);
        }
        Some(numbers)
    }

    /// Loads the numbers of a saved palette text into the custom swatches
    /// `16..SWATCH_MAX`, each as the opaque color of the next three
    /// numbers, and makes the first white one among them the next to fill
    /// (or 0 when none is white).
    pub fn load(&mut self, text: &str)
        requires
            old(self)@.swatches.len() >= SWATCH_MAX,
            palette_numbers(text@) is Some,
            palette_numbers(text@)->0.len() >= 3 * (SWATCH_MAX - 16),
        ensures
            ({
                let colors = palette_numbers(text@)->0;
                &&& final(self)@.swatches.len() == old(self)@.swatches.len()
                &&& forall|k: int|
                    0 <= k < final(self)@.swatches.len() ==> #[trigger] final(self)@.swatches[k] == if 16 <= k < SWATCH_MAX {
                        Color { data: loaded_word(colors, k) }
                    } else {
                        old(self)@.swatches[k]
                    }
                &&& final(self)@.order == first_white(colors, 16)
                &&& final(self)@.rect == old(self)@.rect
            }),
    {
        let colors = match self.loadold(text) {
            Some(v) => v,
            None => {
                return;
            }
        };
        let ghost cv = colors@;
        let mut i: usize = 0;
        let mut sw: usize = 0;
        let mut k: usize = 16;
        while k < SWATCH_MAX
            invariant
                16 <= k <= SWATCH_MAX,
                i == 3 * (k - 16),
                cv == colors@,
                cv.len() >= 3 * (SWATCH_MAX - 16),
                old(self)@.swatches.len() >= SWATCH_MAX,
                self@.swatches.len() == old(self)@.swatches.len(),
                self@.rect == old(self)@.rect,
                forall|j: int|
                    0 <= j < self@.swatches.len() ==> #[trigger] self@.swatches[j] == if 16 <= j < k {
                        Color { data: loaded_word(cv, j) }
                    } else {
                        old(self)@.swatches[j]
                    },
                first_white(cv, 16) == if sw == 0 { first_white(cv, k as int) } else { sw as int },
                sw == 0 || 16 <= sw < k,
            decreases SWATCH_MAX - k,
        {
            let c = Color::rgb(colors[i], colors[i + 1], colors[i + 2]);
            self.swatches.set(k, c);
            if sw == 0 && colors[i] == 255 && colors[i + 1] == 255 && colors[i + 2] == 255 {
                sw = k;
            }
            i += 3;
            k += 1;
        }
        self.order = sw;
    }
}

proof fn lemma_parse_all_prefix(pieces: Seq<Seq<char>>, k: int)
    requires
        0 < k <= pieces.len(),
        parse_all(pieces.take(k)) is None,
    ensures
        parse_all(pieces) is None,
    decreases pieces.len(),
{
    if k < pieces.len() {
        assert(pieces.drop_last().take(k) =~= pieces.take(k));
        lemma_parse_all_prefix(pieces.drop_last(), k);
    } else {
        assert(pieces.take(k) =~= pieces);
    }
}

} // verus!
