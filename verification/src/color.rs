use vstd::prelude::*;

verus! {

/// A color packed as a 32-bit word: alpha in the top byte, then red, green
/// and blue.
#[derive(Clone, Copy, Debug)]
pub struct Color {
    pub data: u32,
}

/// The word of the color with the given components.
pub open spec fn rgba_word(r: u8, g: u8, b: u8, a: u8) -> u32 {
    ((a as u32) << 24u32) | ((r as u32) << 16u32) | ((g as u32) << 8u32) | (b as u32)
}

pub open spec fn red_of(w: u32) -> u8 {
    ((w & 0x00FF0000u32) >> 16u32) as u8
}

pub open spec fn green_of(w: u32) -> u8 {
    ((w & 0x0000FF00u32) >> 8u32) as u8
}

pub open spec fn blue_of(w: u32) -> u8 {
    (w & 0x000000FFu32) as u8
}

pub open spec fn alpha_of(w: u32) -> u8 {
    ((w & 0xFF000000u32) >> 24u32) as u8
}

/// The word that a pixel holds after `new` is drawn over `old`: an opaque
/// color replaces the pixel, a fully transparent one leaves it, and anything
/// in between mixes the two with the alpha of `new` as weight.
pub open spec fn blend_word(old: u32, new: u32) -> u32 {
    let alpha = (new >> 24u32) & 0xFFu32;
    if alpha >= 255 {
        new
    } else if alpha > 0 {
        let n_alpha = (255 - alpha) as u32;
        let rb = ((n_alpha * (old & 0x00FF00FFu32) + alpha * (new & 0x00FF00FFu32)) as u32)
            >> 8u32;
        let ag = (n_alpha * ((old & 0xFF00FF00u32) >> 8u32) + alpha * (0x01000000u32 | ((new
            & 0x0000FF00u32) >> 8u32))) as u32;
        (rb & 0x00FF00FFu32) | (ag & 0xFF00FF00u32)
    } else {
        old
    }
}

proof fn lemma_blend_no_overflow(alpha: u32, m1: u32, m2: u32)
    by (nonlinear_arith)
    requires
        0 < alpha < 255,
        m1 <= 0x010000FF,
        m2 <= 0x010000FF,
    ensures
        (255 - alpha) * m1 + alpha * m2 <= 0xFFFF_FFFF,
{
    assert((255 - alpha) * m1 <= (255 - alpha) * 0x010000FF);
    assert(alpha * m2 <= alpha * 0x010000FF);
}

/// Computes `blend_word(old, new)`.
pub fn blend(old: u32, new: u32) -> (res: u32)
    ensures
        res == blend_word(old, new),
{
    let alpha = (new >> 24u32) & 0xFFu32;
    if alpha >= 255 {
        new
    } else if alpha > 0 {
        let n_alpha: u32 = 255 - alpha;
        let m_old = old & 0x00FF00FFu32;
        let m_new = new & 0x00FF00FFu32;
        let h_old = (old & 0xFF00FF00u32) >> 8u32;
        let h_new = 0x01000000u32 | ((new & 0x0000FF00u32) >> 8u32);
        assert(m_old <= 0x010000FF && m_new <= 0x010000FF) by (bit_vector)
            requires
                m_old == old & 0x00FF00FFu32,
                m_new == new & 0x00FF00FFu32,
        ;
        assert(h_old <= 0x010000FF && h_new <= 0x010000FF) by (bit_vector)
            requires
                h_old == (old & 0xFF00FF00u32) >> 8u32,
                h_new == 0x01000000u32 | ((new & 0x0000FF00u32) >> 8u32),
        ;
        proof {
            lemma_blend_no_overflow(alpha, m_old, m_new);
            lemma_blend_no_overflow(alpha, h_old, h_new);
        }
        let rb = (n_alpha * m_old + alpha * m_new) >> 8u32;
        let ag = n_alpha * h_old + alpha * h_new;
        (rb & 0x00FF00FFu32) | (ag & 0xFF00FF00u32)
    } else {
        old
    }
}

impl Color {
    /// An opaque color.
    pub fn rgb(r: u8, g: u8, b: u8) -> (c: Color)
        ensures
            c.data == rgba_word(r, g, b, 255),
    {
        let data = 0xFF000000u32 | ((r as u32) << 16u32) | ((g as u32) << 8u32) | (b as u32);
        assert(data == rgba_word(r, g, b, 255)) by (bit_vector)
            requires
                data == 0xFF000000u32 | ((r as u32) << 16u32) | ((g as u32) << 8u32) | (b as u32),
        ;
        Color { data }
    }

    /// A color with the given alpha.
    pub fn rgba(r: u8, g: u8, b: u8, a: u8) -> (c: Color)
        ensures
            c.data == rgba_word(r, g, b, a),
    {
        Color { data: ((a as u32) << 24u32) | ((r as u32) << 16u32) | ((g as u32) << 8u32) | (b as u32) }
    }

    pub fn r(&self) -> (v: u8)
        ensures
            v == red_of(self.data),
    {
        ((self.data & 0x00FF0000u32) >> 16u32) as u8
    }

    pub fn g(&self) -> (v: u8)
        ensures
            v == green_of(self.data),
    {
        ((self.data & 0x0000FF00u32) >> 8u32) as u8
    }

    pub fn b(&self) -> (v: u8)
        ensures
            v == blue_of(self.data),
    {
        (self.data & 0x000000FFu32) as u8
    }

    pub fn a(&self) -> (v: u8)
        ensures
            v == alpha_of(self.data),
    {
        ((self.data & 0xFF000000u32) >> 24u32) as u8
    }
}

/// Packing four components and reading them back gives the same components.
pub proof fn lemma_rgba_components(r: u8, g: u8, b: u8, a: u8)
    ensures
        red_of(rgba_word(r, g, b, a)) == r,
        green_of(rgba_word(r, g, b, a)) == g,
        blue_of(rgba_word(r, g, b, a)) == b,
        alpha_of(rgba_word(r, g, b, a)) == a,
{
    assert(red_of(rgba_word(r, g, b, a)) == r) by (bit_vector);
    assert(green_of(rgba_word(r, g, b, a)) == g) by (bit_vector);
    assert(blue_of(rgba_word(r, g, b, a)) == b) by (bit_vector);
    assert(alpha_of(rgba_word(r, g, b, a)) == a) by (bit_vector);
}

/// A word is the packing of its own four components.
pub proof fn lemma_word_from_components(w: u32)
    ensures
        rgba_word(red_of(w), green_of(w), blue_of(w), alpha_of(w)) == w,
{
    assert(rgba_word(red_of(w), green_of(w), blue_of(w), alpha_of(w)) == w) by (bit_vector);
}

/// Drawing an opaque color gives that color; drawing a fully transparent
/// one changes nothing.
pub proof fn lemma_blend_extremes(old: u32, new: u32)
    ensures
        alpha_of(new) == 255 ==> blend_word(old, new) == new,
        alpha_of(new) == 0 ==> blend_word(old, new) == old,
{
    assert(alpha_of(new) == 255 ==> (new >> 24u32) & 0xFFu32 == 255) by (bit_vector);
    assert(alpha_of(new) == 0 ==> (new >> 24u32) & 0xFFu32 == 0) by (bit_vector);
}

} // verus!
