//! What is measured of a frame.
use vstd::prelude::*;

use crate::dev::measure;
use crate::dev::measure::{Band, Ink, MeasuredView};
use crate::dev::reference;
use crate::laws::colours;
use crate::laws::strings;
use crate::platform::text;

verus! {

/// Two pixels are unlike when a channel of colour differs by more than is let
/// pass; the alpha does not count.
pub proof fn law_unlike_pixels(
    a: u8,
    r: u8,
    g: u8,
    b: u8,
    other: u8,
    x: u8,
    y: u8,
    z: u8,
)
    ensures
        measure::unlike(
            colours::word(a as int, r as int, g as int, b as int) as u32,
            colours::word(other as int, x as int, y as int, z as int) as u32,
        ) <==> !(-4 <= r - x <= 4 && -4 <= g - y <= 4 && -4 <= b - z <= 4),
{
    colours::law_the_channels_of_a_word(a, r, g, b);
    colours::law_the_channels_of_a_word(other, x, y, z);
}

/// A channel without its premultiply is the one nearest to what the alpha scaled.
pub proof fn law_a_straight_channel_is_the_nearest(c: u32, alpha: u32)
    requires
        c <= 255,
        0 < alpha <= 255,
    ensures
        -(alpha as int) <= 2 * (alpha * measure::straight_channel(c, alpha) - 255 * c) <= alpha,
{
    let v = c * 255 + alpha as int / 2;
    let q = v / alpha as int;
    vstd::arithmetic::div_mod::lemma_fundamental_div_mod(v, alpha as int);
    assert(0 <= v % alpha as int) by {
        vstd::arithmetic::div_mod::lemma_mod_bound(v, alpha as int);
    }
    assert(v % (alpha as int) < alpha) by {
        vstd::arithmetic::div_mod::lemma_mod_bound(v, alpha as int);
    }
    assert(0 <= q <= v) by (nonlinear_arith)
        requires
            v == alpha as int * q + v % (alpha as int),
            0 <= v % (alpha as int) < alpha,
            0 <= v,
            0 < alpha,
    ;
}

/// The ink of a row is how many of its first pixels are unlike the pixel right of
/// the text.
pub proof fn law_ink_is_counted_pixel_by_pixel(px: Seq<u32>, width: int, y: int, n: nat)
    ensures
        measure::row_mass(px, width, y, n) == Seq::new(
            n,
            |x: int| measure::unlike(px[y * width + x], px[y * width + 685]),
        ).filter(|inked: bool| inked).len(),
    decreases n,
{
    reveal(Seq::filter);
    let s = Seq::new(n, |x: int| measure::unlike(px[y * width + x], px[y * width + 685]));
    if n > 0 {
        law_ink_is_counted_pixel_by_pixel(px, width, y, (n - 1) as nat);
        assert(s.drop_last() =~= Seq::new(
            (n - 1) as nat,
            |x: int| measure::unlike(px[y * width + x], px[y * width + 685]),
        ));
    }
}

/// The ink of rows is that of each together.
pub proof fn law_ink_is_counted_row_by_row(px: Seq<u32>, width: int, n: nat)
    ensures
        measure::mass_of(px, width, 0) == 0,
        measure::mass_of(px, width, n + 1) == measure::mass_of(px, width, n) + measure::row_mass(
            px,
            width,
            n as int,
            width as nat,
        ),
{
}

/// Ink has moved when it differs by more than a tenth, and an edge when it is more
/// than two pixels off.
pub proof fn law_what_counts_as_moved(a: int, b: int, p: u32, q: u32)
    requires
        0 <= a,
        0 <= b,
    ensures
        measure::mass_moved(a, b) <==> 10 * (a - b) > b || 10 * (b - a) > b,
        measure::edge_moved(p, q) <==> p - q > 2 || q - p > 2,
{
}

/// A line of a reference says what it is and then its numbers, with a space
/// between: the size its width and height, a band its top, its bottom and its
/// colour in hex, the ink its mass and its left, top, right and bottom edges.
pub proof fn law_the_lines_of_a_reference(m: MeasuredView, band: Band)
    ensures
        ({
            let n = |v: nat| seq![' '] + text::digits(v, 10);
            &&& reference::size_line(m) == "size"@ + n(m.width as nat) + n(m.height as nat)
            &&& reference::band_line(band) == "band"@ + n(band.top as nat) + n(band.bottom as nat)
                + seq![' '] + reference::color_digits(band.color as nat)
            &&& reference::ink_line(m.ink) == "ink"@ + n(m.ink.mass as nat) + n(m.ink.left as nat)
                + n(m.ink.top as nat) + n(m.ink.right as nat) + n(m.ink.bottom as nat)
        }),
{
    reveal_with_fuel(reference::spaced, 6);
    let d = |v: nat| text::digits(v, 10);
    let s = seq![d(m.width as nat), d(m.height as nat)];
    assert(s.drop_last() =~= seq![d(m.width as nat)]);
    assert(s.drop_last().drop_last() =~= Seq::<Seq<char>>::empty());
    let n = |v: nat| seq![' '] + text::digits(v, 10);
    assert(reference::size_line(m) =~= "size"@ + n(m.width as nat) + n(m.height as nat));
    let b = seq![
        d(band.top as nat),
        d(band.bottom as nat),
        reference::color_digits(band.color as nat),
    ];
    assert(b.drop_last() =~= seq![d(band.top as nat), d(band.bottom as nat)]);
    assert(b.drop_last().drop_last() =~= seq![d(band.top as nat)]);
    assert(b.drop_last().drop_last().drop_last() =~= Seq::<Seq<char>>::empty());
    assert(reference::band_line(band) =~= "band"@ + n(band.top as nat) + n(band.bottom as nat)
        + seq![' '] + reference::color_digits(band.color as nat));
    let i = seq![
        d(m.ink.mass as nat),
        d(m.ink.left as nat),
        d(m.ink.top as nat),
        d(m.ink.right as nat),
        d(m.ink.bottom as nat),
    ];
    let i4 = i.drop_last();
    let i3 = i4.drop_last();
    let i2 = i3.drop_last();
    let i1 = i2.drop_last();
    assert(i4.last() == d(m.ink.right as nat));
    assert(i3.last() == d(m.ink.top as nat));
    assert(i2.last() == d(m.ink.left as nat));
    assert(i1.last() == d(m.ink.mass as nat));
    assert(i1.drop_last() =~= Seq::<Seq<char>>::empty());
    assert(reference::ink_line(m.ink) =~= "ink"@ + n(m.ink.mass as nat) + n(m.ink.left as nat) + n(
        m.ink.top as nat,
    ) + n(m.ink.right as nat) + n(m.ink.bottom as nat));
}

/// The words of a line are what stands between its white space.
pub proof fn law_words_stand_between_white_space(a: Seq<char>, w: Seq<char>, b: Seq<char>)
    requires
        strings::all_white(a),
        w.len() > 0,
        forall|i: int| 0 <= i < w.len() ==> !strings::white_space().contains(#[trigger] w[i]),
        b.len() > 0 ==> strings::white_space().contains(b[0]),
    ensures
        reference::words(a + w + b) == seq![w] + reference::words(b),
        reference::words(a) == Seq::<Seq<char>>::empty(),
    decreases a.len(),
{
    let s = a + w + b;
    if a.len() > 0 {
        assert(strings::white_space().contains(a[0]));
        strings::law_white_space_is_unicodes(a[0]);
        let rest = a.skip(1);
        assert forall|i: int| 0 <= i < rest.len() implies strings::white_space().contains(
            #[trigger] rest[i],
        ) by {
            assert(rest[i] == a[i + 1]);
        }
        law_words_stand_between_white_space(rest, w, b);
        assert(s[0] == a[0]);
        assert(s.skip(1) =~= rest + w + b);
    } else {
        assert(s =~= w + b);
        lemma_word(w, b);
        assert(w[0] == s[0]);
        strings::law_white_space_is_unicodes(w[0]);
        assert(s.take(w.len() as int) =~= w);
        assert(s.skip(w.len() as int) =~= b);
    }
}

proof fn lemma_word(w: Seq<char>, b: Seq<char>)
    requires
        forall|i: int| 0 <= i < w.len() ==> !strings::white_space().contains(#[trigger] w[i]),
        b.len() > 0 ==> strings::white_space().contains(b[0]),
    ensures
        reference::word_len(w + b) == w.len(),
    decreases w.len(),
{
    let s = w + b;
    if w.len() == 0 {
        assert(s =~= b);
        if b.len() > 0 {
            strings::law_white_space_is_unicodes(b[0]);
        }
    } else {
        strings::law_white_space_is_unicodes(w[0]);
        let rest = w.skip(1);
        assert forall|i: int| 0 <= i < rest.len() implies !strings::white_space().contains(
            #[trigger] rest[i],
        ) by {
            assert(rest[i] == w[i + 1]);
        }
        lemma_word(rest, b);
        assert(s.skip(1) =~= rest + b);
        assert(s[0] == w[0]);
    }
}

/// A number is read by its digits, the highest first, with a plus sign before it
/// or not; one that is too large, and anything else, is none.
pub proof fn law_a_number_is_read_by_its_digits(s: Seq<char>, d: nat, c: char)
    requires
        s.len() > 0,
        s[0] != '+',
        d < 10,
    ensures
        ({
            let digit = seq!['0', '1', '2', '3', '4', '5', '6', '7', '8', '9'][d as int];
            &&& reference::number(seq![digit], 10) == Some(d as u32)
            &&& (reference::number(s, 10) matches Some(v) ==> reference::number(s.push(digit), 10)
                == if v * 10 + d <= u32::MAX {
                Some((v * 10 + d) as u32)
            } else {
                None
            })
            &&& reference::number(seq!['+'] + s, 10) == reference::number(s, 10)
            &&& !('0' <= c <= '9') ==> reference::number(s.push(c), 10) is None
        }),
        reference::number(Seq::empty(), 10) is None,
{
    let all = seq!['0', '1', '2', '3', '4', '5', '6', '7', '8', '9'];
    let digit = all[d as int];
    assert(digit as int == 0x30 + d);
    reveal_with_fuel(reference::value, 2);
    assert(seq![digit].drop_last() =~= Seq::<char>::empty());
    assert(s.push(digit).drop_last() =~= s);
    assert(s.push(c).drop_last() =~= s);
    assert((seq!['+'] + s).skip(1) =~= s);
    assert(s.push(digit)[0] == s[0]);
    assert(s.push(c)[0] == s[0]);
}

/// A band has the colour that its rows start with past the text, without its
/// alpha, and a frame is even where every row keeps to that colour up to its end.
pub proof fn law_the_colour_of_a_band(px: Seq<u32>, width: u32, n: nat, i: int, y: int)
    requires
        n <= u32::MAX,
        0 <= i < measure::bands_of(px, width as int, n).len(),
        measure::bands_of(px, width as int, n)[i].top <= y,
        y < measure::bands_of(px, width as int, n)[i].bottom,
    ensures
        measure::bands_of(px, width as int, n)[i].color == px[y * width + measure::GUTTER_X]
            & 0x00FF_FFFF,
        measure::all_even(px, width) ==> forall|x: int|
            y < measure::rows(px, width) && measure::GUTTER_X <= x < width ==> !measure::unlike(
                #[trigger] measure::pixel(px, width as int, x, y),
                measure::bands_of(px, width as int, n)[i].color,
            ),
{
    measure::law_bands_tile_the_window(px, width as int, n);
    let b = measure::bands_of(px, width as int, n);
    assert(b[i].top < b[i].bottom);
    assert(measure::row_color(px, width as int, y) == b[i].color);
    if measure::all_even(px, width) && 0 <= y < measure::rows(px, width) {
        assert(measure::even_up_to(px, width as int, y, width as int));
    }
}

/// Ink is boxed by its outermost pixels: no inked pixel that was looked at lies
/// outside the box, and where none is inked the box is turned inside out.
pub proof fn law_ink_lies_in_its_box(px: Seq<u32>, width: int, x: int, y: int, ink: Ink, k: int, row: int)
    requires
        measure::boxes(px, width, x, y, ink),
        0 <= k < width,
        0 <= row,
        row < y || (row == y && k < x),
    ensures
        measure::inked(px, width, k, row) ==> ink.left <= k <= ink.right && ink.top <= row
            <= ink.bottom,
        ink.mass == 0 ==> !measure::inked(px, width, k, row) && ink.left == 0xFFFF_FFFF && ink.top
            == 0xFFFF_FFFF && ink.right == 0 && ink.bottom == 0,
{
}

} // verus!
