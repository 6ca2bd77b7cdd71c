//! Colours and the palette the window is drawn with.
use vstd::prelude::*;

use crate::shm;

verus! {

/// A colour as the buffer holds it: premultiplied ARGB8888, the colour channels
/// already scaled by the alpha.
#[derive(Debug, Clone, Copy, PartialEq, Eq, Structural)]
pub struct Color {
    word: u32,
}

/// A channel scaled by an alpha, rounded to nearest.
pub open spec fn scaled(c: u8, a: u8) -> u32 {
    ((c * a + 127) / 255) as u32
}

/// The word a colour spelled in straight channels makes.
pub open spec fn premultiply(r: u8, g: u8, b: u8, a: u8) -> u32 {
    shm::pack(a as u32, scaled(r, a), scaled(g, a), scaled(b, a))
}

fn scale(c: u8, a: u8) -> (r: u32)
    ensures
        r == scaled(c, a),
        r <= a,
{
    proof {
        lemma_scaled_below(c, a);
    }
    let p: u32 = c as u32 * a as u32;
    (p + 127) / 255
}

proof fn lemma_scaled_below(c: u8, a: u8)
    ensures
        0 <= c * a <= 65025,
        scaled(c, a) <= a,
        a == 255 ==> scaled(c, a) == c,
        a == 0 ==> scaled(c, a) == 0,
{
    assert(0 <= c * a <= 65025) by (nonlinear_arith)
        requires
            c <= 255,
            a <= 255,
    ;
    assert(c * a <= 255 * a) by (nonlinear_arith)
        requires
            c <= 255,
    ;
}

impl Color {
    /// The packed word.
    pub closed spec fn spec_argb(self) -> u32 {
        self.word
    }

    /// A colour from straight channels, as the config file spells one.
    pub fn rgba(r: u8, g: u8, b: u8, a: u8) -> (c: Self)
        ensures
            c.spec_argb() == premultiply(r, g, b, a),
    {
        let x: u32 = scale(r, a);
        let y: u32 = scale(g, a);
        let z: u32 = scale(b, a);
        Color { word: ((a as u32) << 24) | (x << 16) | (y << 8) | z }
    }

    /// The packed word, for the buffer.
    pub fn argb(self) -> (r: u32)
        ensures
            r == self.spec_argb(),
    {
        self.word
    }
}

/// A colour spelled in straight channels is premultiplied: no channel is above
/// the alpha. An opaque one comes out exactly as written, and one with no alpha
/// is no colour at all.
pub proof fn law_colours_are_premultiplied(r: u8, g: u8, b: u8, a: u8)
    ensures
        shm::premultiplied(premultiply(r, g, b, a)),
        shm::alpha(premultiply(r, g, b, a)) == a,
        a == 255 ==> premultiply(r, g, b, a) == shm::pack(255, r as u32, g as u32, b as u32),
        a == 0 ==> premultiply(r, g, b, a) == 0,
{
    lemma_scaled_below(r, a);
    lemma_scaled_below(g, a);
    lemma_scaled_below(b, a);
    shm::lemma_channels(a as u32, scaled(r, a), scaled(g, a), scaled(b, a));
    assert((0u32 << 24) | (0u32 << 16) | (0u32 << 8) | 0u32 == 0) by (bit_vector);
}

/// How the window looks. A colour carrying alpha composites over what is under
/// it.
#[derive(Debug, Clone, Copy, PartialEq, Eq, Structural)]
pub struct Theme {
    /// The window's fill; its alpha is the window's own transparency.
    pub background: Color,
    /// Input text and result titles.
    pub text: Color,
    /// The second line of a result row.
    pub subtitle: Color,
    /// The wash marking the selected result row.
    pub highlight: Color,
    /// The blinking caret in the input field.
    pub caret: Color,
    /// Behind selected input text.
    pub selection: Color,
}

/// The palette as words.
#[verifier::ext_equal]
pub struct Palette {
    pub background: u32,
    pub text: u32,
    pub subtitle: u32,
    pub highlight: u32,
    pub caret: u32,
    pub selection: u32,
}

impl View for Theme {
    type V = Palette;

    open spec fn view(&self) -> Palette {
        Palette {
            background: self.background.spec_argb(),
            text: self.text.spec_argb(),
            subtitle: self.subtitle.spec_argb(),
            highlight: self.highlight.spec_argb(),
            caret: self.caret.spec_argb(),
            selection: self.selection.spec_argb(),
        }
    }
}

/// The palette drawn with when the config sets no colours.
pub open spec fn default_palette() -> Palette {
    Palette {
        background: premultiply(0x1f, 0x21, 0x24, 0xf0),
        text: premultiply(0xec, 0xec, 0xec, 0xff),
        subtitle: premultiply(0x88, 0x88, 0x88, 0xff),
        highlight: premultiply(0xff, 0xff, 0xff, 0x0d),
        caret: premultiply(0x6f, 0xd3, 0xef, 0xff),
        selection: premultiply(0x2f, 0x7b, 0xa6, 0xff),
    }
}

impl Default for Theme {
    fn default() -> (r: Self)
        ensures
            r@ == default_palette(),
    {
        Theme {
            background: Color::rgba(0x1f, 0x21, 0x24, 0xf0),
            text: Color::rgba(0xec, 0xec, 0xec, 0xff),
            subtitle: Color::rgba(0x88, 0x88, 0x88, 0xff),
            highlight: Color::rgba(0xff, 0xff, 0xff, 0x0d),
            caret: Color::rgba(0x6f, 0xd3, 0xef, 0xff),
            selection: Color::rgba(0x2f, 0x7b, 0xa6, 0xff),
        }
    }
}

} // verus!
