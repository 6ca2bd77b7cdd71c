//! What a frame of the launcher measures out to.
//!
//! The measurements avoid pixel comparison, since a rasterizer rounds an edge
//! differently from version to version. Past every text run only the window's
//! own colours reach, so those columns are read off exactly, as the rows where
//! each colour starts and stops. The text is measured by the ink it lays down
//! and the box that ink sits in.
use vstd::prelude::*;

use crate::shm;
use crate::ui::{TEXT_W, TEXT_X};

verus! {

/// Where the columns past every text run start: TEXT_W stops a name or a command
/// line well short of the window edge, and only window colours reach past it.
pub const GUTTER_X: u32 = TEXT_X + TEXT_W;

/// Per-channel difference at which a pixel counts as another colour. Above the
/// faintest edge of a glyph, under the step from the background to the wash.
pub const TOLERANCE: u32 = 4;

/// How far the amount of ink may move: one part in this many. Enough for edge
/// pixels a rasterizer rounds differently, not for another text size.
pub const MASS_PARTS: u128 = 10;

/// How far the box the ink sits in may move, in pixels: a hinted glyph lands
/// either way, text somewhere else does not.
pub const BOUNDS_TOLERANCE: u32 = 2;

/// How far apart two numbers are.
pub open spec fn distance(a: int, b: int) -> int {
    if a < b {
        b - a
    } else {
        a - b
    }
}

fn apart(a: u32, b: u32) -> (r: u32)
    ensures
        r == distance(a as int, b as int),
{
    if a < b {
        b - a
    } else {
        a - b
    }
}

/// A channel of a pixel with the premultiply undone.
pub open spec fn straight_channel(c: u32, alpha: u32) -> u32 {
    ((c * 255 + alpha as int / 2) / alpha as int) as u32
}

/// A pixel with the premultiply undone.
pub open spec fn straight(p: u32) -> u32 {
    let a = p >> 24;
    if a == 0 || a == 255 {
        p
    } else {
        (a << 24) | (straight_channel(shm::red(p), a) << 16) | (straight_channel(shm::green(p), a)
            << 8) | straight_channel(shm::blue(p), a)
    }
}

fn channel_of(c: u32, alpha: u32) -> (r: u32)
    requires
        c <= 255,
        0 < alpha <= 255,
    ensures
        r == straight_channel(c, alpha),
{
    (c * 255 + alpha / 2) / alpha
}

/// Undo the premultiply, since an image file carries straight alpha.
pub fn straight_alpha(pixels: &mut Vec<u32>)
    ensures
        final(pixels)@ == Seq::new(old(pixels)@.len(), |i: int| straight(old(pixels)@[i])),
{
    let n: usize = pixels.len();
    let mut i: usize = 0;
    while i < n
        invariant
            i <= n == pixels@.len() == old(pixels)@.len(),
            forall|k: int| 0 <= k < i ==> pixels@[k] == straight(old(pixels)@[k]),
            forall|k: int| i <= k < n ==> pixels@[k] == old(pixels)@[k],
        decreases n - i,
    {
        let p: u32 = pixels[i];
        let a: u32 = p >> 24;
        if a != 0 && a != 255 {
            assert(p >> 24 <= 255 && p >> 16 & 0xFF <= 255 && p >> 8 & 0xFF <= 255 && p & 0xFF
                <= 255) by (bit_vector);
            let r: u32 = channel_of(p >> 16 & 0xFF, a);
            let g: u32 = channel_of(p >> 8 & 0xFF, a);
            let b: u32 = channel_of(p & 0xFF, a);
            pixels.set(i, (a << 24) | (r << 16) | (g << 8) | b);
        }
        i += 1;
    }
    assert(pixels@ =~= Seq::new(old(pixels)@.len(), |i: int| straight(old(pixels)@[i])));
}

/// Whether two pixels disagree in colour. Alpha is left out: it follows the
/// window's transparency, not what was drawn on it.
pub open spec fn unlike(a: u32, b: u32) -> bool {
    ||| distance(shm::red(a) as int, shm::red(b) as int) > TOLERANCE
    ||| distance(shm::green(a) as int, shm::green(b) as int) > TOLERANCE
    ||| distance(shm::blue(a) as int, shm::blue(b) as int) > TOLERANCE
}

/// Whether two pixels disagree in colour.
pub fn differs(a: u32, b: u32) -> (r: bool)
    ensures
        r == unlike(a, b),
{
    apart(a >> 16 & 0xFF, b >> 16 & 0xFF) > TOLERANCE || apart(a >> 8 & 0xFF, b >> 8 & 0xFF)
        > TOLERANCE || apart(a & 0xFF, b & 0xFF) > TOLERANCE
}

/// Rows top..bottom that are one colour past the text.
#[derive(Debug, Clone, Copy, PartialEq, Eq, Structural)]
pub struct Band {
    pub top: u32,
    pub bottom: u32,
    pub color: u32,
}

/// A row that is not one colour past the text: something drew past TEXT_W.
#[derive(Debug, Clone, Copy, PartialEq, Eq, Structural)]
pub struct Uneven {
    pub row: u32,
    /// Where the row is another colour, and which.
    pub x: u32,
    pub found: u32,
    /// The colour it starts with.
    pub color: u32,
}

/// A pixel of a frame.
pub open spec fn pixel(px: Seq<u32>, width: int, x: int, y: int) -> u32 {
    px[y * width + x]
}

/// The colour a row has past the text.
pub open spec fn row_color(px: Seq<u32>, width: int, y: int) -> u32 {
    pixel(px, width, GUTTER_X as int, y) & 0x00FF_FFFF
}

/// Whether a row is one colour past the text, up to a column.
pub open spec fn even_up_to(px: Seq<u32>, width: int, y: int, end: int) -> bool {
    forall|x: int|
        GUTTER_X <= x < end ==> !unlike(#[trigger] pixel(px, width, x, y), row_color(px, width, y))
}

/// The bands of the first n rows: a row of the colour above it belongs to the
/// band above it.
pub open spec fn bands_of(px: Seq<u32>, width: int, n: nat) -> Seq<Band>
    decreases n,
{
    if n == 0 {
        Seq::empty()
    } else {
        let above = bands_of(px, width, (n - 1) as nat);
        let color = row_color(px, width, n - 1);
        if above.len() > 0 && above.last().color == color {
            above.update(above.len() - 1, Band { bottom: n as u32, ..above.last() })
        } else {
            above.push(Band { top: (n - 1) as u32, bottom: n as u32, color })
        }
    }
}

/// How many whole rows a frame has.
pub open spec fn rows(px: Seq<u32>, width: u32) -> int {
    px.len() as int / width as int
}

/// How many pixels are left over after the whole rows.
pub open spec fn left_over(px: Seq<u32>, width: u32) -> int {
    px.len() as int % width as int
}

/// Whether the whole rows of a frame, if it has any, reach past the text.
pub open spec fn bandable(px: Seq<u32>, width: u32) -> bool {
    &&& 0 < width
    &&& px.len() <= u32::MAX
    &&& rows(px, width) > 0 ==> GUTTER_X < width
}

/// Whether every row of a frame reaches past the text, what is left over after
/// the whole ones too.
pub open spec fn inkable(px: Seq<u32>, width: u32) -> bool {
    &&& bandable(px, width)
    &&& left_over(px, width) > 0 ==> GUTTER_X < left_over(px, width)
}

/// Whether every whole row of a frame is one colour past the text.
pub open spec fn all_even(px: Seq<u32>, width: u32) -> bool {
    forall|y: int|
        0 <= y < rows(px, width) ==> #[trigger] even_up_to(px, width as int, y, width as int)
}

proof fn lemma_rows_in_frame(px: Seq<u32>, width: u32, y: int)
    requires
        0 < width,
        0 <= y <= rows(px, width),
    ensures
        0 <= y * width,
        0 <= left_over(px, width) < width,
        y < rows(px, width) ==> y * width + width <= px.len(),
        y == rows(px, width) ==> y * width + left_over(px, width) == px.len(),
{
    vstd::arithmetic::div_mod::lemma_fundamental_div_mod(px.len() as int, width as int);
    assert(width * rows(px, width) == rows(px, width) * width) by (nonlinear_arith);
    assert(0 <= y * width) by (nonlinear_arith)
        requires
            0 <= y,
            0 < width,
    ;
    if y < rows(px, width) {
        assert(y * width + width <= rows(px, width) * width) by (nonlinear_arith)
            requires
                0 <= y < rows(px, width),
                0 < width,
        ;
    }
}

/// The first column past the text where a row is another colour than it starts
/// with.
fn first_uneven(pixels: &[u32], width: u32, y: u32) -> (r: Option<u32>)
    requires
        bandable(pixels@, width),
        y < rows(pixels@, width),
    ensures
        match r {
            Some(x) => {
                &&& GUTTER_X <= x < width
                &&& unlike(
                    pixel(pixels@, width as int, x as int, y as int),
                    row_color(pixels@, width as int, y as int),
                )
                &&& even_up_to(pixels@, width as int, y as int, x as int)
            },
            None => even_up_to(pixels@, width as int, y as int, width as int),
        },
{
    proof {
        lemma_rows_in_frame(pixels@, width, y as int);
    }
    let from: usize = y as usize * width as usize;
    let color: u32 = pixels[from + GUTTER_X as usize] & 0x00FF_FFFF;
    let mut x: u32 = GUTTER_X;
    while x < width
        invariant
            GUTTER_X <= x <= width,
            bandable(pixels@, width),
            y < rows(pixels@, width),
            from == y * width,
            color == row_color(pixels@, width as int, y as int),
            even_up_to(pixels@, width as int, y as int, x as int),
        decreases width - x,
    {
        proof {
            lemma_rows_in_frame(pixels@, width, y as int);
        }
        let p: u32 = pixels[from + x as usize];
        assert(p == pixel(pixels@, width as int, x as int, y as int));
        if differs(p, color) {
            return Some(x);
        }
        x += 1;
    }
    None
}

/// Whether a place is the first, from the top and then from the left, where a
/// row is another colour past the text than it starts with.
pub open spec fn is_first_uneven(px: Seq<u32>, width: u32, u: Uneven) -> bool {
    &&& u.row < rows(px, width)
    &&& GUTTER_X <= u.x < width
    &&& u.color == row_color(px, width as int, u.row as int)
    &&& u.found == pixel(px, width as int, u.x as int, u.row as int) & 0x00FF_FFFF
    &&& unlike(pixel(px, width as int, u.x as int, u.row as int), u.color)
    &&& even_up_to(px, width as int, u.row as int, u.x as int)
    &&& forall|y: int|
        0 <= y < u.row ==> #[trigger] even_up_to(px, width as int, y, width as int)
}

/// Read the bands off a frame's whole rows. A row that is not one colour past the
/// text is an error: something drew past TEXT_W.
pub fn bands(pixels: &[u32], width: u32) -> (r: Result<Vec<Band>, Uneven>)
    requires
        bandable(pixels@, width),
    ensures
        match r {
            Ok(v) => {
                &&& all_even(pixels@, width)
                &&& v@ == bands_of(pixels@, width as int, rows(pixels@, width) as nat)
            },
            Err(u) => is_first_uneven(pixels@, width, u),
        },
{
    let size: usize = pixels.len();
    let height: u32 = size as u32 / width;
    let mut out: Vec<Band> = Vec::new();
    let mut y: u32 = 0;
    while y < height
        invariant
            y <= height,
            height == rows(pixels@, width),
            bandable(pixels@, width),
            forall|k: int|
                0 <= k < y ==> #[trigger] even_up_to(pixels@, width as int, k, width as int),
            out@ == bands_of(pixels@, width as int, y as nat),
        decreases height - y,
    {
        proof {
            lemma_rows_in_frame(pixels@, width, y as int);
        }
        let from: usize = y as usize * width as usize;
        let color: u32 = pixels[from + GUTTER_X as usize] & 0x00FF_FFFF;
        if let Some(x) = first_uneven(pixels, width, y) {
            proof {
                lemma_rows_in_frame(pixels@, width, y as int);
            }
            let found: u32 = pixels[from + x as usize] & 0x00FF_FFFF;
            return Err(Uneven { row: y, x, found, color });
        }
        let n: usize = out.len();
        if n > 0 && out[n - 1].color == color {
            let above: Band = out[n - 1];
            out.set(n - 1, Band { top: above.top, bottom: y + 1, color: above.color });
        } else {
            out.push(Band { top: y, bottom: y + 1, color });
        }
        y += 1;
    }
    Ok(out)
}

/// How many pixels carry ink, and the box they sit in.
#[derive(Debug, Clone, Copy, PartialEq, Eq, Structural)]
pub struct Ink {
    pub mass: usize,
    pub left: u32,
    pub top: u32,
    pub right: u32,
    pub bottom: u32,
}

/// Whether a pixel carries ink. Each row is held against its own colour past the
/// text, so a washed row counts the same as a plain one.
pub open spec fn inked(px: Seq<u32>, width: int, x: int, y: int) -> bool {
    unlike(pixel(px, width, x, y), pixel(px, width, GUTTER_X as int, y))
}

/// How many of a row's first n pixels carry ink.
pub open spec fn row_mass(px: Seq<u32>, width: int, y: int, n: nat) -> nat
    decreases n,
{
    if n == 0 {
        0
    } else {
        row_mass(px, width, y, (n - 1) as nat) + if inked(px, width, n - 1, y) {
            1nat
        } else {
            0nat
        }
    }
}

/// How many pixels of the first n rows carry ink.
pub open spec fn mass_of(px: Seq<u32>, width: int, n: nat) -> nat
    decreases n,
{
    if n == 0 {
        0
    } else {
        mass_of(px, width, (n - 1) as nat) + row_mass(px, width, n - 1, width as nat)
    }
}

/// Whether some pixels have been seen: those of the rows above y, and those of
/// row y left of x.
pub open spec fn seen(x: int, y: int, k: int, row: int) -> bool {
    row < y || (row == y && k < x)
}

/// Whether a box is the one the ink among the pixels seen sits in: no ink is
/// outside it, and there is ink on each of its edges. Without ink it is inside
/// out.
pub open spec fn boxes(px: Seq<u32>, width: int, x: int, y: int, ink: Ink) -> bool {
    &&& ink.mass == 0 ==> ink.left == u32::MAX && ink.top == u32::MAX && ink.right == 0
        && ink.bottom == 0
    &&& forall|k: int, row: int|
        0 <= k < width && 0 <= row && seen(x, y, k, row) && #[trigger] inked(px, width, k, row)
            ==> ink.left <= k <= ink.right && ink.top <= row <= ink.bottom
    &&& ink.mass > 0 ==> {
        &&& exists|row: int| #[trigger] edge(px, width, x, y, ink.left as int, row)
        &&& exists|row: int| #[trigger] edge(px, width, x, y, ink.right as int, row)
        &&& exists|k: int| #[trigger] edge(px, width, x, y, k, ink.top as int)
        &&& exists|k: int| #[trigger] edge(px, width, x, y, k, ink.bottom as int)
    }
}

/// Whether a pixel seen carries ink.
pub open spec fn edge(px: Seq<u32>, width: int, x: int, y: int, k: int, row: int) -> bool {
    0 <= k < width && 0 <= row && seen(x, y, k, row) && inked(px, width, k, row)
}

fn lower(a: u32, b: u32) -> (r: u32)
    ensures
        r == if a < b {
            a
        } else {
            b
        },
{
    if a < b {
        a
    } else {
        b
    }
}

fn higher(a: u32, b: u32) -> (r: u32)
    ensures
        r == if a < b {
            b
        } else {
            a
        },
{
    if a < b {
        b
    } else {
        a
    }
}

/// What one more pixel does to the box.
proof fn lemma_box_step(px: Seq<u32>, width: int, x: int, y: int, before: Ink, after: Ink)
    requires
        0 <= x < width,
        0 <= y,
        boxes(px, width, x, y, before),
        before.mass < usize::MAX,
        !inked(px, width, x, y) ==> after == before,
        inked(px, width, x, y) ==> {
            &&& after.mass == before.mass + 1
            &&& after.left == if x < before.left { x } else { before.left as int }
            &&& after.top == if y < before.top { y } else { before.top as int }
            &&& after.right == if before.right < x { x } else { before.right as int }
            &&& after.bottom == if before.bottom < y { y } else { before.bottom as int }
        },
    ensures
        boxes(px, width, x + 1, y, after),
{
    assert forall|k: int, row: int|
        0 <= k < width && 0 <= row && seen(x + 1, y, k, row) && #[trigger] inked(
            px,
            width,
            k,
            row,
        ) implies after.left <= k <= after.right && after.top <= row <= after.bottom by {
        if k == x && row == y {
        } else {
            assert(seen(x, y, k, row));
        }
    }
    assert forall|k: int, row: int| #[trigger] edge(px, width, x, y, k, row) implies edge(
        px,
        width,
        x + 1,
        y,
        k,
        row,
    ) by {}
    if after.mass > 0 {
        if inked(px, width, x, y) {
            assert(edge(px, width, x + 1, y, x, y));
        }
        if before.mass > 0 {
            let a = choose|row: int| #[trigger] edge(px, width, x, y, before.left as int, row);
            let b = choose|row: int| #[trigger] edge(px, width, x, y, before.right as int, row);
            let c = choose|k: int| #[trigger] edge(px, width, x, y, k, before.top as int);
            let d = choose|k: int| #[trigger] edge(px, width, x, y, k, before.bottom as int);
            assert(edge(px, width, x + 1, y, before.left as int, a));
            assert(edge(px, width, x + 1, y, before.right as int, b));
            assert(edge(px, width, x + 1, y, c, before.top as int));
            assert(edge(px, width, x + 1, y, d, before.bottom as int));
        }
    }
}

/// The end of one row is the start of the next.
proof fn lemma_box_row(px: Seq<u32>, width: int, y: int, ink: Ink)
    requires
        boxes(px, width, width, y, ink),
    ensures
        boxes(px, width, 0, y + 1, ink),
{
    assert forall|k: int, row: int| 0 <= k < width implies #[trigger] seen(0, y + 1, k, row)
        == seen(width, y, k, row) by {}
    assert forall|k: int, row: int|
        0 <= k < width && 0 <= row && seen(0, y + 1, k, row) && #[trigger] inked(px, width, k, row)
        implies ink.left <= k <= ink.right && ink.top <= row <= ink.bottom by {
        assert(seen(width, y, k, row));
    }
    if ink.mass > 0 {
        let a = choose|row: int| #[trigger] edge(px, width, width, y, ink.left as int, row);
        let b = choose|row: int| #[trigger] edge(px, width, width, y, ink.right as int, row);
        let c = choose|k: int| #[trigger] edge(px, width, width, y, k, ink.top as int);
        let d = choose|k: int| #[trigger] edge(px, width, width, y, k, ink.bottom as int);
        assert(edge(px, width, 0, y + 1, ink.left as int, a));
        assert(edge(px, width, 0, y + 1, ink.right as int, b));
        assert(edge(px, width, 0, y + 1, c, ink.top as int));
        assert(edge(px, width, 0, y + 1, d, ink.bottom as int));
    }
}

/// How many pixels of a frame carry ink, those left over after the whole rows
/// among them.
pub open spec fn ink_mass(px: Seq<u32>, width: u32) -> nat {
    let n = rows(px, width);
    mass_of(px, width as int, n as nat) + row_mass(
        px,
        width as int,
        n,
        left_over(px, width) as nat,
    )
}

/// Whether a box is the one a frame's ink sits in.
pub open spec fn boxes_all(px: Seq<u32>, width: u32, ink: Ink) -> bool {
    boxes(px, width as int, left_over(px, width), rows(px, width), ink)
}

/// Measure the ink of a row's first `len` pixels, on top of the rows above it.
fn ink_row(pixels: &[u32], width: u32, y: u32, len: u32, above: Ink) -> (r: Ink)
    requires
        GUTTER_X < len <= width,
        y * width + len <= pixels@.len() <= u32::MAX,
        above.mass <= y * width,
        boxes(pixels@, width as int, 0, y as int, above),
    ensures
        r.mass == above.mass + row_mass(pixels@, width as int, y as int, len as nat),
        r.mass <= above.mass + len,
        boxes(pixels@, width as int, len as int, y as int, r),
{
    let ghost px = pixels@;
    proof {
        assert(0 <= y * width) by (nonlinear_arith);
    }
    let from: usize = y as usize * width as usize;
    let window: u32 = pixels[from + GUTTER_X as usize];
    let mut r = above;
    let mut x: u32 = 0;
    while x < len
        invariant
            x <= len <= width,
            px == pixels@,
            from == y * width,
            from + len <= px.len() <= u32::MAX,
            above.mass <= from,
            window == pixel(px, width as int, GUTTER_X as int, y as int),
            r.mass == above.mass + row_mass(px, width as int, y as int, x as nat),
            r.mass <= above.mass + x,
            boxes(px, width as int, x as int, y as int, r),
        decreases len - x,
    {
        let p: u32 = pixels[from + x as usize];
        assert(p == pixel(px, width as int, x as int, y as int));
        let ghost before = r;
        if differs(p, window) {
            r = Ink {
                mass: r.mass + 1,
                left: lower(x, r.left),
                top: lower(y, r.top),
                right: higher(r.right, x),
                bottom: higher(r.bottom, y),
            };
        }
        proof {
            lemma_box_step(px, width as int, x as int, y as int, before, r);
        }
        x += 1;
    }
    r
}

/// Measure the ink of a frame.
pub fn ink(pixels: &[u32], width: u32) -> (r: Ink)
    requires
        inkable(pixels@, width),
    ensures
        r.mass == ink_mass(pixels@, width),
        boxes_all(pixels@, width, r),
{
    let size: usize = pixels.len();
    let height: u32 = size as u32 / width;
    let rest: u32 = size as u32 % width;
    let ghost px = pixels@;
    let mut r = Ink { mass: 0, left: u32::MAX, top: u32::MAX, right: 0, bottom: 0 };
    let mut y: u32 = 0;
    while y < height
        invariant
            y <= height,
            px == pixels@,
            height == rows(px, width),
            inkable(px, width),
            r.mass == mass_of(px, width as int, y as nat),
            r.mass <= y * width,
            boxes(px, width as int, 0, y as int, r),
        decreases height - y,
    {
        proof {
            lemma_rows_in_frame(px, width, y as int);
            assert((y + 1) * width == y * width + width) by (nonlinear_arith);
        }
        r = ink_row(pixels, width, y, width, r);
        proof {
            lemma_box_row(px, width as int, y as int, r);
        }
        y += 1;
    }
    if rest > 0 {
        proof {
            lemma_rows_in_frame(px, width, y as int);
        }
        r = ink_row(pixels, width, y, rest, r);
    }
    r
}

/// How bands disagree with the ones recorded.
#[derive(Debug, Clone, Copy, PartialEq, Eq, Structural)]
pub enum BandChange {
    /// The first band that is not the one recorded.
    Band(usize),
    /// The bands agree as far as they go, but there are more or fewer of them.
    Count,
}

/// How the bands in a frame disagree with the ones recorded, if they do.
pub fn band_mismatch(actual: &[Band], reference: &[Band]) -> (r: Option<BandChange>)
    ensures
        match r {
            None => actual@ == reference@,
            Some(BandChange::Band(i)) => i < actual@.len() && i < reference@.len()
                && actual@[i as int] != reference@[i as int] && actual@.take(i as int)
                == reference@.take(i as int),
            Some(BandChange::Count) => actual@.len() != reference@.len() && (actual@.is_prefix_of(
                reference@,
            ) || reference@.is_prefix_of(actual@)),
        },
{
    let mut i: usize = 0;
    while i < actual.len() && i < reference.len()
        invariant
            i <= actual@.len(),
            i <= reference@.len(),
            forall|k: int| 0 <= k < i ==> actual@[k] == reference@[k],
        decreases actual.len() - i,
    {
        if actual[i] != reference[i] {
            assert(actual@.take(i as int) =~= reference@.take(i as int));
            return Some(BandChange::Band(i));
        }
        i += 1;
    }
    if actual.len() != reference.len() {
        proof {
            if actual@.len() < reference@.len() {
                assert(actual@ =~= reference@.subrange(0, actual@.len() as int));
            } else {
                assert(reference@ =~= actual@.subrange(0, reference@.len() as int));
            }
        }
        return Some(BandChange::Count);
    }
    assert(actual@ =~= reference@);
    None
}

/// How ink disagrees with what was recorded.
#[derive(Debug, Clone, Copy, PartialEq, Eq, Structural)]
pub enum InkChange {
    /// The text covers more or fewer pixels.
    Mass,
    Left,
    Top,
    Right,
    Bottom,
}

/// Whether the amount of ink moved by more than it may.
pub open spec fn mass_moved(a: int, b: int) -> bool {
    distance(a, b) * MASS_PARTS > b
}

/// Whether an edge moved by more than it may.
pub open spec fn edge_moved(a: u32, b: u32) -> bool {
    distance(a as int, b as int) > BOUNDS_TOLERANCE
}

/// How the ink disagrees with what was recorded. Mass first: a frame that lost
/// its text has no box worth comparing.
pub fn ink_mismatch(a: &Ink, b: &Ink) -> (r: Option<InkChange>)
    ensures
        r == if mass_moved(a.mass as int, b.mass as int) {
            Some(InkChange::Mass)
        } else if edge_moved(a.left, b.left) {
            Some(InkChange::Left)
        } else if edge_moved(a.top, b.top) {
            Some(InkChange::Top)
        } else if edge_moved(a.right, b.right) {
            Some(InkChange::Right)
        } else if edge_moved(a.bottom, b.bottom) {
            Some(InkChange::Bottom)
        } else {
            None
        },
{
    let moved: usize = if a.mass < b.mass {
        b.mass - a.mass
    } else {
        a.mass - b.mass
    };
    if moved as u128 * MASS_PARTS > b.mass as u128 {
        Some(InkChange::Mass)
    } else if apart(a.left, b.left) > BOUNDS_TOLERANCE {
        Some(InkChange::Left)
    } else if apart(a.top, b.top) > BOUNDS_TOLERANCE {
        Some(InkChange::Top)
    } else if apart(a.right, b.right) > BOUNDS_TOLERANCE {
        Some(InkChange::Right)
    } else if apart(a.bottom, b.bottom) > BOUNDS_TOLERANCE {
        Some(InkChange::Bottom)
    } else {
        None
    }
}

/// Everything a frame is held against.
pub struct Measured {
    pub width: u32,
    pub height: u32,
    pub bands: Vec<Band>,
    pub ink: Ink,
}

/// What a frame measures out to.
#[verifier::ext_equal]
pub struct MeasuredView {
    pub width: u32,
    pub height: u32,
    pub bands: Seq<Band>,
    pub ink: Ink,
}

impl View for Measured {
    type V = MeasuredView;

    open spec fn view(&self) -> MeasuredView {
        MeasuredView {
            width: self.width,
            height: self.height,
            bands: self.bands@,
            ink: self.ink,
        }
    }
}

impl Measured {
    /// Measure a frame.
    pub fn of(pixels: &[u32], width: u32, height: u32) -> (r: Result<Self, Uneven>)
        requires
            bandable(pixels@, width),
            all_even(pixels@, width) ==> inkable(pixels@, width),
        ensures
            r is Ok <==> all_even(pixels@, width),
            r matches Ok(m) ==> {
                &&& m.width == width
                &&& m.height == height
                &&& m.bands@ == bands_of(pixels@, width as int, rows(pixels@, width) as nat)
                &&& m.ink.mass == ink_mass(pixels@, width)
                &&& boxes_all(pixels@, width, m.ink)
            },
            r matches Err(u) ==> is_first_uneven(pixels@, width, u),
    {
        match bands(pixels, width) {
            Ok(bands) => Ok(Measured { width, height, bands, ink: ink(pixels, width) }),
            Err(u) => {
                assert(!even_up_to(pixels@, width as int, u.row as int, width as int));
                Err(u)
            },
        }
    }
}

/// The bands cover every row once: the first starts at the top, each starts where
/// the one above it stops and is another colour, and the last stops at the
/// bottom. Every row of a band has the band's colour past the text.
pub proof fn law_bands_tile_the_window(px: Seq<u32>, width: int, n: nat)
    requires
        n <= u32::MAX,
    ensures
        ({
            let b = bands_of(px, width, n);
            &&& n > 0 <==> b.len() > 0
            &&& n > 0 ==> b[0].top == 0 && b.last().bottom == n
            &&& forall|i: int|
                0 <= i < b.len() ==> #[trigger] b[i].top < b[i].bottom && forall|y: int|
                    b[i].top <= y < b[i].bottom ==> #[trigger] row_color(px, width, y)
                        == b[i].color
            &&& forall|i: int, j: int|
                0 <= i && j == i + 1 && j < b.len() ==> (#[trigger] b[i]).bottom == (
                #[trigger] b[j]).top && b[i].color != b[j].color
        }),
    decreases n,
{
    if n > 0 {
        law_bands_tile_the_window(px, width, (n - 1) as nat);
        let above = bands_of(px, width, (n - 1) as nat);
        let b = bands_of(px, width, n);
        let color = row_color(px, width, n - 1);
        assert forall|i: int| 0 <= i < b.len() implies #[trigger] b[i].top < b[i].bottom
            && forall|y: int|
            b[i].top <= y < b[i].bottom ==> #[trigger] row_color(px, width, y) == b[i].color by {
            if i < above.len() {
                assert(above[i].top < above[i].bottom);
            }
            assert forall|y: int| b[i].top <= y < b[i].bottom implies #[trigger] row_color(
                px,
                width,
                y,
            ) == b[i].color by {
                if y < n - 1 && i < above.len() {
                    assert(above[i].top <= y < above[i].bottom);
                }
            }
        }
        assert forall|i: int, j: int| 0 <= i && j == i + 1 && j < b.len() implies (
        #[trigger] b[i]).bottom == (#[trigger] b[j]).top && b[i].color != b[j].color by {
            if j < above.len() {
                assert(above[i].bottom == above[j].top);
            }
        }
    }
}

/// A frame agrees with itself: its own measurements are no change.
pub proof fn law_a_frame_agrees_with_itself(ink: Ink)
    ensures
        !mass_moved(ink.mass as int, ink.mass as int),
        !edge_moved(ink.left, ink.left),
        !edge_moved(ink.top, ink.top),
        !edge_moved(ink.right, ink.right),
        !edge_moved(ink.bottom, ink.bottom),
{
}

} // verus!
