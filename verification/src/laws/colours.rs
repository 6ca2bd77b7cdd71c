//! What a colour spelled in a config file is in the buffer.
use vstd::prelude::*;

use crate::config;
use crate::shm;
use crate::theme;

verus! {

/// The hex digits by their values, in the small letters or the capitals.
pub open spec fn hex(d: int, capital: bool) -> char {
    if capital {
        seq!['0', '1', '2', '3', '4', '5', '6', '7', '8', '9', 'A', 'B', 'C', 'D', 'E', 'F'][d]
    } else {
        seq!['0', '1', '2', '3', '4', '5', '6', '7', '8', '9', 'a', 'b', 'c', 'd', 'e', 'f'][d]
    }
}

/// A byte in two hex digits, each in either case.
pub open spec fn spelled(b: u8, high: bool, low: bool) -> Seq<char> {
    seq![hex(b as int / 16, high), hex(b as int % 16, low)]
}

proof fn lemma_hex(d: int, capital: bool)
    requires
        0 <= d < 16,
    ensures
        config::digit(hex(d, capital)) == Some(d as u8),
{
    let small = seq!['0', '1', '2', '3', '4', '5', '6', '7', '8', '9', 'a', 'b', 'c', 'd', 'e', 'f'];
    let large = seq!['0', '1', '2', '3', '4', '5', '6', '7', '8', '9', 'A', 'B', 'C', 'D', 'E', 'F'];
    if d < 10 {
        assert(small[d] as int == 0x30 + d);
        assert(large[d] as int == 0x30 + d);
    } else {
        assert(small[d] as int == 0x61 + d - 10);
        assert(large[d] as int == 0x41 + d - 10);
    }
}

proof fn lemma_byte(s: Seq<char>, i: int, b: u8, high: bool, low: bool)
    requires
        0 <= i,
        i + 1 < s.len(),
        s[i] == spelled(b, high, low)[0],
        s[i + 1] == spelled(b, high, low)[1],
    ensures
        config::digit(s[i]) is Some,
        config::digit(s[i + 1]) is Some,
        config::byte(s, i) == b,
{
    lemma_hex(b as int / 16, high);
    lemma_hex(b as int % 16, low);
}

/// A colour is its bytes in hex, red first, then green and blue, with or without
/// the alpha behind them and the hash before them, in either case; without an
/// alpha it is opaque.
pub proof fn law_a_colour_is_its_bytes_in_hex(
    r: u8,
    g: u8,
    b: u8,
    a: u8,
    p: bool,
    q: bool,
)
    ensures
        ({
            let rgb = spelled(r, p, q) + spelled(g, q, p) + spelled(b, p, p);
            let rgba = rgb + spelled(a, q, q);
            &&& config::color_of(rgb) == Some(theme::premultiply(r, g, b, 255))
            &&& config::color_of(seq!['#'] + rgb) == Some(theme::premultiply(r, g, b, 255))
            &&& config::color_of(rgba) == Some(theme::premultiply(r, g, b, a))
            &&& config::color_of(seq!['#'] + rgba) == Some(theme::premultiply(r, g, b, a))
        }),
{
    let rgb = spelled(r, p, q) + spelled(g, q, p) + spelled(b, p, p);
    let rgba = rgb + spelled(a, q, q);
    lemma_byte(rgb, 0, r, p, q);
    lemma_byte(rgb, 2, g, q, p);
    lemma_byte(rgb, 4, b, p, p);
    lemma_byte(rgba, 0, r, p, q);
    lemma_byte(rgba, 2, g, q, p);
    lemma_byte(rgba, 4, b, p, p);
    lemma_byte(rgba, 6, a, q, q);
    assert forall|i: int| 0 <= i < rgb.len() implies config::digit(#[trigger] rgb[i]) is Some by {
        assert(i == 0 || i == 1 || i == 2 || i == 3 || i == 4 || i == 5);
    }
    assert forall|i: int| 0 <= i < rgba.len() implies config::digit(#[trigger] rgba[i]) is Some by {
        assert(i == 0 || i == 1 || i == 2 || i == 3 || i == 4 || i == 5 || i == 6 || i == 7);
    }
    assert(config::digit('#') is None);
    assert(rgb[0] != '#');
    assert(rgba[0] != '#');
    assert((seq!['#'] + rgb).drop_first() =~= rgb);
    assert((seq!['#'] + rgba).drop_first() =~= rgba);
}

/// Anything but six or eight hex digits, behind a hash or not, is no colour.
pub proof fn law_nothing_else_is_a_colour(s: Seq<char>)
    ensures
        config::color_of(s) is Some ==> ({
            let n = if s.len() > 0 && s[0] == '#' {
                1int
            } else {
                0
            };
            &&& s.len() == n + 6 || s.len() == n + 8
            &&& forall|i: int|
                n <= i < s.len() ==> '0' <= #[trigger] s[i] <= '9' || 'a' <= s[i] <= 'f' || 'A'
                    <= s[i] <= 'F'
        }),
{
    if config::color_of(s) is Some {
        let t = config::color_digits(s);
        let n = s.len() - t.len();
        assert forall|i: int| n <= i < s.len() implies '0' <= #[trigger] s[i] <= '9' || 'a' <= s[i]
            <= 'f' || 'A' <= s[i] <= 'F' by {
            assert(t[i - n] == s[i]);
        }
    }
}

/// The word of a colour is its alpha, red, green and blue in that order, eight
/// bits each, the last three scaled by the alpha to the nearest whole.
pub proof fn law_the_word_of_a_colour(r: u8, g: u8, b: u8, a: u8)
    ensures
        exists|x: int, y: int, z: int|
            theme::premultiply(r, g, b, a) == #[trigger] word(a as int, x, y, z) && nearest(
                x,
                r as int * a as int,
            ) && nearest(y, g as int * a as int) && nearest(z, b as int * a as int),
{
    let (x, y, z) = (theme::scaled(r, a), theme::scaled(g, a), theme::scaled(b, a));
    lemma_scaled(r, a);
    lemma_scaled(g, a);
    lemma_scaled(b, a);
    let w = a as u32;
    assert((w << 24) | (x << 16) | (y << 8) | z == w * 0x1000000 + x * 0x10000 + y * 0x100 + z)
        by (bit_vector)
        requires
            w <= 255,
            x <= 255,
            y <= 255,
            z <= 255,
    ;
    assert(theme::premultiply(r, g, b, a) == word(a as int, x as int, y as int, z as int));
}

/// Four bytes as one number, the first the highest.
pub open spec fn word(a: int, r: int, g: int, b: int) -> int {
    ((a * 256 + r) * 256 + g) * 256 + b
}

/// The whole number nearest to a 255th of another.
pub open spec fn nearest(n: int, of: int) -> bool {
    -255 <= 2 * (255 * n - of) <= 255
}

proof fn lemma_scaled(c: u8, a: u8)
    ensures
        nearest(theme::scaled(c, a) as int, c as int * a as int),
        theme::scaled(c, a) <= 255,
{
    assert(0 <= c * a <= 65025) by (nonlinear_arith)
        requires
            c <= 255,
            a <= 255,
    ;
}

/// Without a config the palette is the one these colours spell.
pub proof fn law_the_default_palette()
    ensures
        ({
            let t = theme::default_palette();
            &&& config::color_of("#1f2124f0"@) == Some(t.background)
            &&& config::color_of("#ececec"@) == Some(t.text)
            &&& config::color_of("#888888"@) == Some(t.subtitle)
            &&& config::color_of("#ffffff0d"@) == Some(t.highlight)
            &&& config::color_of("#6fd3ef"@) == Some(t.caret)
            &&& config::color_of("#2f7ba6"@) == Some(t.selection)
        }),
{
    lemma_default_background();
    lemma_default_text();
    lemma_default_subtitle();
    lemma_default_highlight();
    lemma_default_caret();
    lemma_default_selection();
}

proof fn lemma_digits(s: Seq<char>, r: u8, g: u8, b: u8, a: u8)
    requires
        s.len() == 7 || s.len() == 9,
        s[0] == '#',
        config::digit(s[1]) == Some((r / 16) as u8),
        config::digit(s[2]) == Some((r % 16) as u8),
        config::digit(s[3]) == Some((g / 16) as u8),
        config::digit(s[4]) == Some((g % 16) as u8),
        config::digit(s[5]) == Some((b / 16) as u8),
        config::digit(s[6]) == Some((b % 16) as u8),
        s.len() == 7 ==> a == 255,
        s.len() == 9 ==> config::digit(s[7]) == Some((a / 16) as u8),
        s.len() == 9 ==> config::digit(s[8]) == Some((a % 16) as u8),
    ensures
        config::color_of(s) == Some(theme::premultiply(r, g, b, a)),
{
    let t = config::color_digits(s);
    assert(t == s.drop_first());
    assert forall|i: int| 0 <= i < t.len() implies config::digit(#[trigger] t[i]) is Some by {
        assert(t[i] == s[i + 1]);
        assert(i == 0 || i == 1 || i == 2 || i == 3 || i == 4 || i == 5 || i == 6 || i == 7);
    }
    assert(t[0] == s[1] && t[1] == s[2] && t[2] == s[3]);
    assert(t[3] == s[4] && t[4] == s[5] && t[5] == s[6]);
    assert(config::byte(t, 0) == r && config::byte(t, 2) == g && config::byte(t, 4) == b);
    if s.len() == 9 {
        assert(t[6] == s[7] && t[7] == s[8]);
        assert(config::byte(t, 6) == a);
    }
}

proof fn lemma_default_background()
    ensures
        config::color_of("#1f2124f0"@) == Some(theme::default_palette().background),
{
    reveal_strlit("#1f2124f0");
    lemma_digits("#1f2124f0"@, 0x1f, 0x21, 0x24, 0xf0);
}

proof fn lemma_default_text()
    ensures
        config::color_of("#ececec"@) == Some(theme::default_palette().text),
{
    reveal_strlit("#ececec");
    lemma_digits("#ececec"@, 0xec, 0xec, 0xec, 0xff);
}

proof fn lemma_default_subtitle()
    ensures
        config::color_of("#888888"@) == Some(theme::default_palette().subtitle),
{
    reveal_strlit("#888888");
    lemma_digits("#888888"@, 0x88, 0x88, 0x88, 0xff);
}

proof fn lemma_default_highlight()
    ensures
        config::color_of("#ffffff0d"@) == Some(theme::default_palette().highlight),
{
    reveal_strlit("#ffffff0d");
    lemma_digits("#ffffff0d"@, 0xff, 0xff, 0xff, 0x0d);
}

proof fn lemma_default_caret()
    ensures
        config::color_of("#6fd3ef"@) == Some(theme::default_palette().caret),
{
    reveal_strlit("#6fd3ef");
    lemma_digits("#6fd3ef"@, 0x6f, 0xd3, 0xef, 0xff);
}

proof fn lemma_default_selection()
    ensures
        config::color_of("#2f7ba6"@) == Some(theme::default_palette().selection),
{
    reveal_strlit("#2f7ba6");
    lemma_digits("#2f7ba6"@, 0x2f, 0x7b, 0xa6, 0xff);
}

/// The channels of a word are its bytes: the alpha the highest, then red, green
/// and blue.
pub proof fn law_the_channels_of_a_word(a: u8, r: u8, g: u8, b: u8)
    ensures
        ({
            let w = word(a as int, r as int, g as int, b as int) as u32;
            &&& shm::alpha(w) == a
            &&& shm::red(w) == r
            &&& shm::green(w) == g
            &&& shm::blue(w) == b
            &&& shm::pack(a as u32, r as u32, g as u32, b as u32) == w
        }),
{
    let (p, q, s, t) = (a as u32, r as u32, g as u32, b as u32);
    shm::lemma_channels(p, q, s, t);
    assert((p << 24) | (q << 16) | (s << 8) | t == p * 0x1000000 + q * 0x10000 + s * 0x100 + t)
        by (bit_vector)
        requires
            p <= 255,
            q <= 255,
            s <= 255,
            t <= 255,
    ;
}

} // verus!
