//! Fonts: where to look for one, which to prefer, the cache of rasterized
//! glyphs, and laying out and drawing a line of text.
//!
//! Lengths along the baseline are in 64ths of a pixel, the unit glyphs are
//! measured in.
use vstd::prelude::*;

use crate::desktop;
use crate::launch;
use crate::platform::arena::{ArrayString, ArrayVec};
use crate::platform::freetype::Glyph;
use crate::platform::fs;
use crate::platform::fs::{join, ScanPath};
use crate::platform::syscall::PATH_CAP;
use crate::shm;
use crate::shm::{blend, PixelBuffer};
use crate::platform::text;
use crate::platform::text::{chars_of, is_text};

verus! {

/// Font sizes for UI elements, in pixels.
pub const INPUT_SIZE: u32 = 20;

pub const NAME_SIZE: u32 = 16;

pub const SUBTITLE_SIZE: u32 = 14;

/// Slots in the glyph cache. The launcher's repertoire is the characters of a
/// few dozen application names at three sizes, so a direct-mapped table this
/// size collides rarely and a collision only costs a re-rasterization.
pub const GLYPH_SLOTS: usize = 512;

/// Coverage bytes held for all cached glyphs together. At the sizes drawn here
/// a glyph's ink is a few hundred bytes, so this holds the whole working set
/// several times over. When it does fill, glyphs are still drawn, just not
/// cached.
pub const INK_CAP: usize = 262144;

/// A glyph that has been rasterized once: its metrics, and where its coverage
/// sits in the ink arena.
#[derive(Clone, Copy, Debug, PartialEq, Eq)]
pub struct Cached {
    pub ch: char,
    /// The pixel size it was rasterized at. Part of the key: the same character
    /// at two sizes is two glyphs.
    pub px: u32,
    pub left: i32,
    pub top: i32,
    pub width: usize,
    pub rows: usize,
    pub advance: i32,
    pub ink_at: usize,
    pub ink_len: usize,
}

/// A glyph of a line of text.
pub enum RunGlyph {
    /// One the cache keeps.
    Kept(Cached),
    /// One there was no room to keep, with its own coverage.
    Own(Glyph),
}

impl RunGlyph {
    /// How far the glyph moves the pen.
    pub open spec fn spec_advance(self) -> int {
        match self {
            RunGlyph::Kept(c) => c.advance as int,
            RunGlyph::Own(g) => g.advance as int,
        }
    }

    /// How far the glyph moves the pen, in 64ths of a pixel.
    pub fn advance(&self) -> (r: i32)
        ensures
            r == self.spec_advance(),
    {
        match self {
            RunGlyph::Kept(c) => c.advance,
            RunGlyph::Own(g) => g.advance,
        }
    }
}

/// A glyph as it is drawn.
#[verifier::ext_equal]
pub struct Drawn {
    pub left: int,
    pub top: int,
    pub width: int,
    pub rows: int,
    pub advance: int,
    pub coverage: Seq<u8>,
}

/// Rasterized glyphs, kept for the life of the font.
///
/// Measurement reads the same entries as drawing, which is the point of putting
/// the advance in the cache rather than beside it: if the caret used one advance
/// and the blit another, the caret would drift away from the text it is
/// supposed to sit in.
pub struct GlyphCache {
    pub slots: Vec<Option<Cached>>,
    pub ink: ArrayVec<u8, INK_CAP>,
}

/// Which slot a glyph belongs in. Characters used together (a run of ASCII)
/// have to land in different slots, so the size is folded in with an odd
/// multiplier rather than added.
pub open spec fn slot_of(ch: char, px: u32) -> int {
    ((ch as int * 31) % 0x1_0000_0000 + (px * 2_654_435_761) % 0x1_0000_0000) % 0x1_0000_0000 % (
    GLYPH_SLOTS as int)
}

impl GlyphCache {
    /// A cached glyph is in its own slot, and its ink in the arena.
    pub open spec fn wf(&self) -> bool {
        &&& self.slots@.len() == GLYPH_SLOTS
        &&& self.ink.wf()
        &&& forall|i: int|
            0 <= i < GLYPH_SLOTS ==> (#[trigger] self.slots@[i] matches Some(c) ==> slot_of(
                c.ch,
                c.px,
            ) == i && self.holds(c))
    }

    /// Whether the arena holds a glyph's ink.
    pub open spec fn holds(&self, c: Cached) -> bool {
        c.ink_at + c.ink_len <= self.ink@.len()
    }

    /// The glyph cached for a character at a size.
    pub open spec fn cached(&self, ch: char, px: u32) -> Option<Cached> {
        match self.slots@[slot_of(ch, px)] {
            Some(c) => if c.ch == ch && c.px == px {
                Some(c)
            } else {
                None
            },
            None => None,
        }
    }

    /// A glyph as it is drawn, ink and all.
    pub open spec fn glyph(&self, c: Cached) -> Drawn {
        Drawn {
            left: c.left as int,
            top: c.top as int,
            width: c.width as int,
            rows: c.rows as int,
            advance: c.advance as int,
            coverage: self.ink@.subrange(c.ink_at as int, c.ink_at + c.ink_len),
        }
    }

    /// A glyph of a line as it is drawn: with ink out of the arena, or its own.
    pub open spec fn drawn(&self, g: RunGlyph) -> Drawn {
        match g {
            RunGlyph::Kept(c) => self.glyph(c),
            RunGlyph::Own(g) => drawn_glyph(g),
        }
    }

    /// Whether the ink of a glyph of a line is at hand.
    pub open spec fn has_ink(&self, g: RunGlyph) -> bool {
        g matches RunGlyph::Kept(c) ==> self.holds(c)
    }

    pub fn new() -> (r: Self)
        ensures
            r.wf(),
            r.ink@ == Seq::<u8>::empty(),
            forall|ch: char, px: u32| #[trigger] r.cached(ch, px) is None,
    {
        let mut slots: Vec<Option<Cached>> = Vec::new();
        let mut i: usize = 0;
        while i < GLYPH_SLOTS
            invariant
                i <= GLYPH_SLOTS,
                slots@.len() == i,
                forall|j: int| 0 <= j < i ==> #[trigger] slots@[j] is None,
            decreases GLYPH_SLOTS - i,
        {
            slots.push(None);
            i += 1;
        }
        GlyphCache { slots, ink: ArrayVec::new() }
    }

    fn slot(ch: char, px: u32) -> (r: usize)
        ensures
            r == slot_of(ch, px),
            r < GLYPH_SLOTS,
    {
        let a: u32 = (ch as u32).wrapping_mul(31);
        let b: u32 = px.wrapping_mul(2_654_435_761);
        let key: u32 = a.wrapping_add(b);
        (key % 512) as usize
    }

    /// The cached glyph, when it has been seen before.
    pub fn lookup(&self, ch: char, px: u32) -> (r: Option<Cached>)
        requires
            self.wf(),
        ensures
            r == self.cached(ch, px),
            r matches Some(c) ==> self.holds(c),
    {
        let slot: usize = Self::slot(ch, px);
        if let Some(hit) = self.slots[slot] {
            if hit.ch == ch && hit.px == px {
                return Some(hit);
            }
        }
        None
    }

    /// Take in a glyph just rasterized.
    ///
    /// It takes its slot over: two characters that collide there are rare, and
    /// the loser is simply rasterized again next time it is drawn. When the
    /// arena is full the glyph is still usable, it just cannot be kept, so it is
    /// handed back with its own coverage and drawn from that.
    pub fn insert(&mut self, ch: char, px: u32, glyph: Glyph) -> (r: RunGlyph)
        requires
            old(self).wf(),
            glyph.wf(),
        ensures
            final(self).wf(),
            final(self).has_ink(r),
            final(self).drawn(r) == drawn_glyph(glyph),
            old(self).ink@.len() + glyph.coverage@.len() <= INK_CAP ==> {
                &&& r matches RunGlyph::Kept(c) && c.ch == ch && c.px == px && final(self).cached(
                    ch,
                    px,
                ) == Some(c) && final(self).slots@ == old(self).slots@.update(
                    slot_of(ch, px),
                    Some(c),
                )
                &&& final(self).ink@ == old(self).ink@ + glyph.coverage@
            },
            old(self).ink@.len() + glyph.coverage@.len() > INK_CAP ==> {
                &&& r == RunGlyph::Own(glyph)
                &&& final(self).slots@ == old(self).slots@
                &&& final(self).ink@ == old(self).ink@
            },
            forall|c: Cached|
                #![trigger final(self).holds(c)]
                #![trigger old(self).holds(c)]
                old(self).holds(c) ==> final(self).holds(c) && final(self).glyph(c) == old(
                    self,
                ).glyph(c),
    {
        let slot: usize = Self::slot(ch, px);
        let ink_at: usize = self.ink.len();
        let ink_len: usize = glyph.coverage.len();
        if ink_len > self.ink.remaining() {
            return RunGlyph::Own(glyph);
        }
        let _ = self.ink.extend_from_slice(glyph.coverage.as_slice());
        let kept = Cached {
            ch,
            px,
            left: glyph.left,
            top: glyph.top,
            width: glyph.width,
            rows: glyph.rows,
            advance: glyph.advance,
            ink_at,
            ink_len,
        };
        self.slots[slot] = Some(kept);
        proof {
            assert(self.glyph(kept).coverage =~= glyph.coverage@);
            assert forall|c: Cached|
                #![trigger self.holds(c)]
                #![trigger old(self).holds(c)]
                old(self).holds(c) implies self.holds(c) && self.glyph(c) == old(self).glyph(c) by {
                assert(self.glyph(c).coverage =~= old(self).glyph(c).coverage);
            }
            assert forall|i: int| 0 <= i < GLYPH_SLOTS implies (#[trigger] self.slots@[i] matches Some(
                c,
            ) ==> slot_of(c.ch, c.px) == i && self.holds(c)) by {
                if i != slot {
                    assert(self.slots@[i] == old(self).slots@[i]);
                }
            }
        }
        RunGlyph::Kept(kept)
    }

    /// A glyph's ink.
    pub fn coverage(&self, g: &Cached) -> (r: &[u8])
        requires
            self.wf(),
            self.holds(*g),
        ensures
            r@ == self.glyph(*g).coverage,
    {
        vstd::slice::slice_subrange(self.ink.as_slice(), g.ink_at, g.ink_at + g.ink_len)
    }
}

/// A rasterized glyph as it is drawn.
pub open spec fn drawn_glyph(g: Glyph) -> Drawn {
    Drawn {
        left: g.left as int,
        top: g.top as int,
        width: g.width as int,
        rows: g.rows as int,
        advance: g.advance as int,
        coverage: g.coverage@,
    }
}

/// Pixels with a glyph's rows, up to one, blended in: its bitmap's corner at
/// column gx and row gy, and nothing right of the clip.
pub open spec fn blitted_rows(
    px: Seq<u32>,
    width: int,
    clip: int,
    gx: int,
    gy: int,
    g: Drawn,
    color: u32,
    rows: int,
) -> Seq<u32> {
    Seq::new(
        px.len(),
        |i: int|
            {
                let col = shm::col_of(i, width);
                let c = col - gx;
                let r = shm::row_of(i, width) - gy;
                if 0 <= c < g.width && 0 <= r < rows && col < clip {
                    shm::blended(px[i], color, g.coverage[r * g.width + c])
                } else {
                    px[i]
                }
            },
    )
}

/// Pixels with a glyph blended in. A glyph short of its ink is not drawn.
pub open spec fn blitted(
    px: Seq<u32>,
    width: int,
    clip: int,
    gx: int,
    gy: int,
    g: Drawn,
    color: u32,
) -> Seq<u32> {
    if g.coverage.len() < g.width * g.rows {
        px
    } else {
        blitted_rows(px, width, clip, gx, gy, g, color, g.rows)
    }
}

/// Blend a row of coverage into the pixels from `at` on.
fn blit_row(buf: &mut PixelBuffer, at: usize, coverage: &[u8], color: u32)
    requires
        at + coverage@.len() <= old(buf).pixels@.len(),
    ensures
        final(buf).same_shape(old(buf)),
        final(buf).pixels@ == Seq::new(
            old(buf).pixels@.len(),
            |i: int|
                if at <= i < at + coverage@.len() {
                    shm::blended(old(buf).pixels@[i], color, coverage@[i - at])
                } else {
                    old(buf).pixels@[i]
                },
        ),
{
    // Most of a glyph is fully covered; an opaque colour needs no blend there.
    let opaque = color >> 24 == 0xFF;
    let end: usize = buf.pixels.len();
    let mut k: usize = 0;
    while k < coverage.len()
        invariant
            k <= coverage@.len(),
            at + coverage@.len() <= buf.pixels@.len() == old(buf).pixels@.len(),
            end == buf.pixels@.len(),
            buf.same_shape(old(buf)),
            opaque == (color >> 24 == 0xFF),
            forall|i: int|
                0 <= i < buf.pixels@.len() ==> #[trigger] buf.pixels@[i] == (if at <= i < at + k {
                    shm::blended(old(buf).pixels@[i], color, coverage@[i - at])
                } else {
                    old(buf).pixels@[i]
                }),
        decreases coverage@.len() - k,
    {
        let c: u8 = coverage[k];
        proof {
            shm::law_blend_covering_nothing(buf.pixels@[at + k], color, c);
            shm::lemma_word_is_its_channels(color);
            if color >> 24 == 0xFF {
                shm::law_blend_of_an_opaque_source(buf.pixels@[at + k], color);
            }
        }
        if c != 0 {
            let dst: u32 = buf.pixels[at + k];
            buf.pixels[at + k] = if c == 255 && opaque {
                color
            } else {
                blend(dst, color, c)
            };
        }
        k += 1;
    }
}

/// How far along a range of length `len` a clip at `edge` cuts, from `from`.
fn clipped(edge: i64, from: i64, len: usize) -> (r: usize)
    requires
        0 <= edge <= 0x1_0000_0000,
        -0x1000_0000_0000_0000 <= from <= 0x1000_0000_0000_0000,
    ensures
        r <= len,
        r == (if edge <= from {
            0
        } else if edge - from < len {
            edge - from
        } else {
            len as int
        }),
{
    if edge <= from {
        return 0;
    }
    let d: u64 = (edge - from) as u64;
    if d < len as u64 {
        d as usize
    } else {
        len
    }
}

/// Blit a coverage bitmap onto the pixel buffer with alpha blending.
///
/// The clip is worked out once for the whole glyph rather than by testing every
/// pixel against four bounds. What is left is the rectangle of the glyph that
/// lands inside the buffer and inside the text box.
pub fn blit_coverage(
    buf: &mut PixelBuffer,
    clip_x: i64,
    gx: i64,
    gy: i64,
    bitmap: &[u8],
    glyph_width: usize,
    glyph_height: usize,
    color: u32,
)
    requires
        old(buf).wf(),
        0 <= clip_x <= 0x1_0000_0000,
        -0x1000_0000_0000_0000 <= gx <= 0x1000_0000_0000_0000,
        -0x1000_0000_0000_0000 <= gy <= 0x1000_0000_0000_0000,
    ensures
        final(buf).wf(),
        final(buf).same_shape(old(buf)),
        final(buf).pixels@ == blitted(
            old(buf).pixels@,
            old(buf).width as int,
            clip_x as int,
            gx as int,
            gy as int,
            (Drawn {
                left: 0,
                top: 0,
                width: glyph_width as int,
                rows: glyph_height as int,
                advance: 0,
                coverage: bitmap@,
            }),
            color,
        ),
{
    let ghost g = Drawn {
        left: 0,
        top: 0,
        width: glyph_width as int,
        rows: glyph_height as int,
        advance: 0,
        coverage: bitmap@,
    };
    let ghost before = buf.pixels@;
    let ghost w = buf.width as int;
    let width = buf.width;
    let n: usize = bitmap.len();
    match glyph_width.checked_mul(glyph_height) {
        Some(total) => {
            if n < total {
                return;
            }
        },
        None => {
            return;
        },
    }
    let right: i64 = if (width as i64) < clip_x {
        width as i64
    } else {
        clip_x
    };
    let col_start: usize = clipped(0, gx, glyph_width);
    let col_end: usize = clipped(right, gx, glyph_width);
    let row_start: usize = clipped(0, gy, glyph_height);
    let row_end: usize = clipped(buf.height as i64, gy, glyph_height);
    proof {
        shm::lemma_positions(w, buf.height as int);
    }
    if col_start >= col_end || row_start >= row_end {
        assert(buf.pixels@ =~= blitted_rows(
            before,
            w,
            clip_x as int,
            gx as int,
            gy as int,
            g,
            color,
            g.rows,
        ));
        return;
    }
    let mut row: usize = row_start;
    assert(buf.pixels@ =~= blitted_rows(
        before,
        w,
        clip_x as int,
        gx as int,
        gy as int,
        g,
        color,
        row as int,
    ));
    while row < row_end
        invariant
            row_start <= row <= row_end <= glyph_height,
            col_start < col_end <= glyph_width,
            n == bitmap@.len(),
            glyph_width * glyph_height <= n,
            g == (Drawn {
                left: 0,
                top: 0,
                width: glyph_width as int,
                rows: glyph_height as int,
                advance: 0,
                coverage: bitmap@,
            }),
            w == width == buf.width,
            buf.wf(),
            buf.same_shape(old(buf)),
            before.len() == buf.pixels@.len(),
            0 <= clip_x <= 0x1_0000_0000,
            -0x1000_0000_0000_0000 <= gx <= 0x1000_0000_0000_0000,
            -0x1000_0000_0000_0000 <= gy <= 0x1000_0000_0000_0000,
            right == (if width < clip_x {
                width as i64
            } else {
                clip_x
            }),
            gx + col_start >= 0,
            gx + col_end <= right,
            gx < 0 ==> gx + col_start == 0,
            gx >= 0 ==> col_start == 0,
            gx + col_end < right ==> col_end == glyph_width,
            gy + row_start >= 0,
            gy + row_end <= buf.height,
            shm::positions_split(w, buf.height as int),
            buf.pixels@ == blitted_rows(
                before,
                w,
                clip_x as int,
                gx as int,
                gy as int,
                g,
                color,
                row as int,
            ),
        decreases row_end - row,
    {
        let ghost mid = buf.pixels@;
        let ghost line = gy + row;
        proof {
            assert((row + 1) * glyph_width <= glyph_height * glyph_width) by (nonlinear_arith)
                requires
                    row < glyph_height,
            ;
            assert(glyph_height * glyph_width == glyph_width * glyph_height) by (nonlinear_arith);
            assert((row + 1) * glyph_width == row * glyph_width + glyph_width) by (nonlinear_arith);
            assert(0 <= row * glyph_width) by (nonlinear_arith);
            assert(line * w + w <= buf.width * buf.height) by (nonlinear_arith)
                requires
                    line < buf.height,
                    w == buf.width,
                    line >= 0,
            ;
            assert(0 <= line * w) by (nonlinear_arith)
                requires
                    line >= 0,
                    w >= 0,
            ;
            assert(buf.width * buf.height <= buf.width * 4 * buf.height) by (nonlinear_arith);
        }
        let start: usize = row * glyph_width;
        let coverage = vstd::slice::slice_subrange(bitmap, start + col_start, start + col_end);
        let y: usize = (gy + row as i64) as usize;
        let left: usize = (gx + col_start as i64) as usize;
        let at: usize = y * width as usize + left;
        blit_row(buf, at, coverage, color);
        proof {
            let after = blitted_rows(
                before,
                w,
                clip_x as int,
                gx as int,
                gy as int,
                g,
                color,
                row + 1,
            );
            assert forall|i: int| 0 <= i < mid.len() implies #[trigger] buf.pixels@[i] == after[i] by {
                let r = shm::row_of(i, w);
                let c = shm::col_of(i, w);
                if r < line {
                    assert(r * w + w <= line * w) by (nonlinear_arith)
                        requires
                            r < line,
                            w >= 0,
                    ;
                } else if r > line {
                    assert(line * w + w <= r * w) by (nonlinear_arith)
                        requires
                            line < r,
                            w >= 0,
                    ;
                } else {
                    assert(i - at == c - left);
                    if at <= i < at + coverage@.len() {
                        assert(coverage@[i - at] == bitmap@[start + col_start + (i - at)]);
                        assert((r - gy) * g.width == row * glyph_width) by (nonlinear_arith)
                            requires
                                r - gy == row,
                                g.width == glyph_width,
                        ;
                    }
                }
            }
            assert(buf.pixels@ =~= after);
        }
        row += 1;
    }
    assert(buf.pixels@ =~= blitted_rows(
        before,
        w,
        clip_x as int,
        gx as int,
        gy as int,
        g,
        color,
        g.rows,
    ));
}

/// Whole pixels in a length of 64ths, dropping the fraction.
pub open spec fn whole(v: int) -> int {
    if v >= 0 {
        v / 64
    } else {
        -((-v) / 64)
    }
}

fn whole_pixels(v: i64) -> (r: i64)
    requires
        v > i64::MIN,
    ensures
        r == whole(v as int),
{
    if v >= 0 {
        v / 64
    } else {
        -((-v) / 64)
    }
}

/// What is left of a line of text once it is drawn: the pixels, and where the
/// pen ends up. A glyph that cannot be produced is passed over, and the line
/// stops at the first whose advance would leave the box, which ends at column
/// `end`. Its ink is clipped to the box too.
pub open spec fn rendered(
    px: Seq<u32>,
    width: int,
    end: int,
    baseline: int,
    pen: int,
    run: Seq<Option<Drawn>>,
    color: u32,
) -> (Seq<u32>, int)
    decreases run.len(),
{
    if run.len() == 0 {
        (px, pen)
    } else {
        match run[0] {
            None => rendered(px, width, end, baseline, pen, run.drop_first(), color),
            Some(g) => if pen + g.advance > 64 * end {
                (px, pen)
            } else {
                rendered(
                    blitted(px, width, end, whole(pen) + g.left, baseline - g.top, g, color),
                    width,
                    end,
                    baseline,
                    pen + g.advance,
                    run.drop_first(),
                    color,
                )
            },
        }
    }
}

impl GlyphCache {
    /// The glyphs of a line of text.
    pub open spec fn glyphs(&self, run: Seq<Option<RunGlyph>>) -> Seq<Option<Drawn>> {
        Seq::new(
            run.len(),
            |i: int|
                match run[i] {
                    Some(g) => Some(self.drawn(g)),
                    None => None,
                },
        )
    }

    /// The ink of a line of text is at hand.
    pub open spec fn holds_all(&self, run: Seq<Option<RunGlyph>>) -> bool {
        forall|i: int| 0 <= i < run.len() ==> (#[trigger] run[i] matches Some(g) ==> self.has_ink(g))
    }

    /// Blend a glyph in where the pen is, from the arena's ink or its own.
    fn blit(
        &self,
        buf: &mut PixelBuffer,
        end: i64,
        pen: i64,
        baseline: i64,
        g: &RunGlyph,
        color: u32,
    )
        requires
            self.wf(),
            self.has_ink(*g),
            old(buf).wf(),
            0 <= end <= 0x1_0000_0000,
            -0x800_0000_0000_0000 <= pen <= 0x800_0000_0000_0000,
            -0x800_0000_0000_0000 <= baseline <= 0x800_0000_0000_0000,
        ensures
            final(buf).wf(),
            final(buf).same_shape(old(buf)),
            final(buf).pixels@ == blitted(
                old(buf).pixels@,
                old(buf).width as int,
                end as int,
                pen + self.drawn(*g).left,
                baseline - self.drawn(*g).top,
                self.drawn(*g),
                color,
            ),
    {
        match g {
            RunGlyph::Kept(c) => {
                let gx: i64 = pen + c.left as i64;
                let gy: i64 = baseline - c.top as i64;
                blit_coverage(buf, end, gx, gy, self.coverage(c), c.width, c.rows, color);
            },
            RunGlyph::Own(o) => {
                let gx: i64 = pen + o.left as i64;
                let gy: i64 = baseline - o.top as i64;
                blit_coverage(buf, end, gx, gy, o.coverage.as_slice(), o.width, o.rows, color);
            },
        }
    }

    /// Render a line of text onto a pixel buffer with alpha blending.
    /// y is the top of the text line and ascent its baseline's distance below
    /// that. Returns the rendered width in pixels.
    pub fn render_text(
        &self,
        buf: &mut PixelBuffer,
        x: u32,
        y: u32,
        ascent: i32,
        run: &[Option<RunGlyph>],
        color: u32,
        max_width: u32,
    ) -> (r: u32)
        requires
            self.wf(),
            self.holds_all(run@),
            old(buf).wf(),
            x + max_width <= u32::MAX,
            run@.len() <= i32::MAX,
        ensures
            final(buf).wf(),
            final(buf).same_shape(old(buf)),
            ({
                let (px, pen) = rendered(
                    old(buf).pixels@,
                    old(buf).width as int,
                    x + max_width,
                    whole(64 * y + ascent),
                    64 * x,
                    self.glyphs(run@),
                    color,
                );
                &&& final(buf).pixels@ == px
                &&& r == if pen > 64 * x {
                    whole(pen - 64 * x)
                } else {
                    0
                }
            }),
    {
        let ghost all = self.glyphs(run@);
        let baseline: i64 = whole_pixels(64 * y as i64 + ascent as i64);
        let end: i64 = (x + max_width) as i64;
        let first: i64 = 64 * x as i64;
        let mut pen: i64 = first;
        let mut i: usize = 0;
        let ghost before = buf.pixels@;
        let ghost w = buf.width as int;
        assert(all.skip(0) == all);
        while i < run.len()
            invariant
                i <= run@.len() <= i32::MAX,
                self.wf(),
                self.holds_all(run@),
                buf.wf(),
                buf.same_shape(old(buf)),
                w == buf.width,
                before == old(buf).pixels@,
                all == self.glyphs(run@),
                x + max_width <= u32::MAX,
                end == x + max_width,
                first == 64 * x,
                baseline == whole(64 * y + ascent),
                first - i * 0x8000_0000 <= pen <= 64 * end,
                rendered(before, w, end as int, baseline as int, first as int, all, color)
                    == rendered(
                    buf.pixels@,
                    w,
                    end as int,
                    baseline as int,
                    pen as int,
                    all.skip(i as int),
                    color,
                ),
            decreases run@.len() - i,
        {
            proof {
                assert(all.skip(i as int).drop_first() == all.skip(i + 1));
                assert(all.skip(i as int)[0] == all[i as int]);
            }
            if let Some(g) = &run[i] {
                assert(self.has_ink(*g));
                let advance: i64 = g.advance() as i64;
                if pen + advance > 64 * end {
                    let width: i64 = if pen > first {
                        whole_pixels(pen - first)
                    } else {
                        0
                    };
                    return width as u32;
                }
                self.blit(buf, end, whole_pixels(pen), baseline, g, color);
                pen += advance;
            }
            i += 1;
        }
        let width: i64 = if pen > first {
            whole_pixels(pen - first)
        } else {
            0
        };
        width as u32
    }
}

/// How far a character moves the pen; one with no glyph leaves it.
pub open spec fn advance_of(g: Option<RunGlyph>) -> int {
    match g {
        Some(g) => g.spec_advance(),
        None => 0,
    }
}

/// How far the characters of a line move the pen.
pub open spec fn advances(run: Seq<Option<RunGlyph>>) -> Seq<int> {
    Seq::new(run.len(), |i: int| advance_of(run[i]))
}

/// The pen after some advances.
pub open spec fn caret_x(advances: Seq<int>) -> int
    decreases advances.len(),
{
    if advances.len() == 0 {
        0
    } else {
        caret_x(advances.drop_last()) + advances.last()
    }
}

/// Visual text height (ascent to descent), in 64ths of a pixel. Descent is
/// negative.
pub fn text_height(ascent: i32, descent: i32) -> (r: i64)
    ensures
        r == ascent - descent,
{
    ascent as i64 - descent as i64
}

fn pen_advance(g: &Option<RunGlyph>) -> (r: i32)
    ensures
        r == advance_of(*g),
{
    match g {
        Some(g) => g.advance(),
        None => 0,
    }
}

/// Position of the caret at a given char offset, in 64ths of a pixel.
pub fn x_at_char_offset(run: &[Option<RunGlyph>], char_offset: usize) -> (r: i64)
    requires
        run@.len() <= i32::MAX,
    ensures
        r == caret_x(
            advances(run@).take(
                if char_offset < run@.len() {
                    char_offset as int
                } else {
                    run@.len() as int
                },
            ),
        ),
{
    let n: usize = if char_offset < run.len() {
        char_offset
    } else {
        run.len()
    };
    let ghost all = advances(run@);
    let mut acc: i64 = 0;
    let mut i: usize = 0;
    assert(all.take(0).len() == 0);
    while i < n
        invariant
            i <= n <= run@.len() <= i32::MAX,
            all == advances(run@),
            acc == caret_x(all.take(i as int)),
            -i * 0x8000_0000 <= acc <= i * 0x8000_0000,
        decreases n - i,
    {
        assert(all.take(i + 1).drop_last() == all.take(i as int));
        acc += pen_advance(&run[i]) as i64;
        i += 1;
    }
    acc
}

/// The offset a position falls at: the first character whose middle is right of
/// it, or the end of the line. The position is in 256ths of a pixel, the unit
/// pointer positions come in, and counts from `pen`.
pub open spec fn offset_at(advances: Seq<int>, pen: int, x: int) -> int
    decreases advances.len(),
{
    if advances.len() == 0 || x < 4 * pen + 2 * advances[0] {
        0
    } else {
        1 + offset_at(advances.drop_first(), pen + advances[0], x)
    }
}

/// Find the char offset closest to a position (for mouse hit-testing). The
/// position is from the start of the text, in 256ths of a pixel.
pub fn char_offset_at_x(run: &[Option<RunGlyph>], x: i64) -> (r: usize)
    requires
        run@.len() <= i16::MAX,
    ensures
        r == offset_at(advances(run@), 0, x as int),
        r <= run@.len(),
{
    let ghost all = advances(run@);
    let mut acc: i64 = 0;
    let mut i: usize = 0;
    assert(all.skip(0) == all);
    while i < run.len()
        invariant
            i <= run@.len() <= i16::MAX,
            all == advances(run@),
            offset_at(all, 0, x as int) == i + offset_at(all.skip(i as int), acc as int, x as int),
            -i * 0x8000_0000 <= acc <= i * 0x8000_0000,
        decreases run@.len() - i,
    {
        let advance: i64 = pen_advance(&run[i]) as i64;
        assert(all.skip(i as int)[0] == advance);
        assert(all.skip(i as int).drop_first() == all.skip(i + 1));
        if x < 4 * acc + 2 * advance {
            return i;
        }
        acc += advance;
        i += 1;
    }
    i
}

/// The caret moves right with every character that has an advance, so it never
/// goes back on itself.
pub proof fn law_the_caret_moves_right(advances: Seq<int>, a: int, b: int)
    requires
        0 <= a < b <= advances.len(),
        forall|i: int| 0 <= i < advances.len() ==> #[trigger] advances[i] > 0,
    ensures
        caret_x(advances.take(a)) < caret_x(advances.take(b)),
    decreases b - a,
{
    assert(advances.take(b).drop_last() == advances.take(b - 1));
    if a + 1 < b {
        law_the_caret_moves_right(advances, a, b - 1);
    }
}

proof fn lemma_offset_at_caret(advances: Seq<int>, pen: int, k: int)
    requires
        0 <= k <= advances.len(),
        forall|i: int| 0 <= i < advances.len() ==> #[trigger] advances[i] > 0,
    ensures
        offset_at(advances, pen, 4 * (pen + caret_x(advances.take(k)))) == k,
    decreases advances.len(),
{
    if k == 0 {
        assert(advances.take(0).len() == 0);
        if advances.len() > 0 {
            assert(advances[0] > 0);
        }
    } else {
        let rest = advances.drop_first();
        assert forall|i: int| 0 <= i < rest.len() implies #[trigger] rest[i] > 0 by {
            assert(rest[i] == advances[i + 1]);
        }
        lemma_caret_x_first(advances.take(k));
        assert(advances.take(k).drop_first() == rest.take(k - 1));
        lemma_offset_at_caret(rest, pen + advances[0], k - 1);
        lemma_caret_x_nonneg(rest.take(k - 1));
        assert(advances[0] > 0);
    }
}

proof fn lemma_caret_x_first(advances: Seq<int>)
    requires
        advances.len() > 0,
    ensures
        caret_x(advances) == advances[0] + caret_x(advances.drop_first()),
    decreases advances.len(),
{
    reveal_with_fuel(caret_x, 2);
    if advances.len() > 1 {
        lemma_caret_x_first(advances.drop_last());
        assert(advances.drop_last().drop_first() == advances.drop_first().drop_last());
    }
}

proof fn lemma_caret_x_nonneg(advances: Seq<int>)
    requires
        forall|i: int| 0 <= i < advances.len() ==> #[trigger] advances[i] > 0,
    ensures
        caret_x(advances) >= 0,
    decreases advances.len(),
{
    if advances.len() > 0 {
        assert(advances.last() == advances[advances.len() - 1]);
        lemma_caret_x_nonneg(advances.drop_last());
    }
}

/// Hit-testing undoes measuring: a click where the caret is drawn for an offset
/// lands on that offset, both ends of the line included, and anything left of
/// the line lands on its start.
pub proof fn law_a_click_on_the_caret_lands_on_it(advances: Seq<int>, k: int, x: int)
    requires
        0 <= k <= advances.len(),
        forall|i: int| 0 <= i < advances.len() ==> #[trigger] advances[i] > 0,
        x < 0,
    ensures
        offset_at(advances, 0, 4 * caret_x(advances.take(k))) == k,
        offset_at(advances, 0, x) == 0,
{
    lemma_offset_at_caret(advances, 0, k);
    if advances.len() > 0 {
        assert(advances[0] > 0);
    }
}

/// Preferred font filenames, most wanted first. A file's position here is its
/// rank, and the best-ranked one found anywhere is the one loaded.
pub open spec fn preferred_fonts() -> Seq<Seq<char>> {
    seq![
        "DejaVuSans.ttf"@,
        "NotoSans-Regular.ttf"@,
        "LiberationSans-Regular.ttf"@,
        "Inter-Regular.ttf"@,
        "Inter-Regular.otf"@,
        "Cantarell-Regular.otf"@,
        "Cantarell-VF.otf"@,
        "Ubuntu-R.ttf"@,
        "Roboto-Regular.ttf"@,
        "SourceSans3-Regular.otf"@,
        "SourceSansPro-Regular.otf"@,
        "SourceSansPro-Regular.ttf"@,
    ]
}

/// How many preferred names there are.
pub const PREFERRED_COUNT: usize = 12;

/// The two system directories, plus either the user's own tree or the host's
/// two. The cases never both apply.
pub const MAX_FONT_ROOTS: usize = 4;

/// Paths kept per preferred name. The same name turns up under more than one
/// root, and distributions ship one font under two paths, so a name keeps a few
/// candidates: whether a file actually loads is not known until it is tried,
/// and the ones behind it have to still be there when it does not.
pub const PATHS_PER_NAME: usize = 3;

/// The trees to walk.
pub open spec fn roots_of(in_flatpak: bool, home: Option<Seq<char>>) -> Seq<Seq<char>> {
    let system = seq!["/usr/share/fonts"@, "/usr/local/share/fonts"@];
    if in_flatpak {
        seq!["/run/host/fonts"@, "/run/host/user-fonts"@] + system
    } else if home is Some && text::byte_len(fs::joined(home->0, ".local/share/fonts"@))
        <= PATH_CAP {
        system.push(fs::joined(home->0, ".local/share/fonts"@))
    } else {
        system
    }
}

fn push_root(roots: &mut ArrayVec<ScanPath, MAX_FONT_ROOTS>, dir: &str)
    requires
        old(roots).wf(),
        desktop::all_wf(old(roots)@),
        old(roots)@.len() < MAX_FONT_ROOTS,
        text::byte_len(dir@) <= PATH_CAP,
    ensures
        final(roots).wf(),
        desktop::all_wf(final(roots)@),
        desktop::strings(final(roots)@) == desktop::strings(old(roots)@).push(dir@),
        final(roots)@.len() == old(roots)@.len() + 1,
{
    let mut path: ScanPath = ArrayString::new();
    proof {
        text::lemma_byte_len_bounds(Seq::<char>::empty());
        assert(Seq::<char>::empty() + dir@ == dir@);
    }
    if path.push_str(dir).is_ok() {
        let _ = roots.push(path);
    }
    proof {
        assert(desktop::strings(roots@) =~= desktop::strings(old(roots)@).push(dir@));
    }
}

/// The trees to walk, highest priority first. Inside a Flatpak sandbox
/// /usr/share/fonts holds the runtime's own few fonts, so the host's go first
/// and the launcher renders in the session's face. The host's second tree is
/// the user's own, so HOME is not walked beside it.
pub fn font_roots(in_flatpak: bool, home: Option<&str>) -> (r: ArrayVec<ScanPath, MAX_FONT_ROOTS>)
    ensures
        r.wf(),
        desktop::all_wf(r@),
        desktop::strings(r@) == roots_of(in_flatpak, desktop::text_opt(home)),
{
    let mut roots: ArrayVec<ScanPath, MAX_FONT_ROOTS> = ArrayVec::new();
    proof {
        reveal_strlit("/run/host/fonts");
        reveal_strlit("/run/host/user-fonts");
        reveal_strlit("/usr/share/fonts");
        reveal_strlit("/usr/local/share/fonts");
        text::lemma_byte_len_bounds("/run/host/fonts"@);
        text::lemma_byte_len_bounds("/run/host/user-fonts"@);
        text::lemma_byte_len_bounds("/usr/share/fonts"@);
        text::lemma_byte_len_bounds("/usr/local/share/fonts"@);
        assert(desktop::strings(roots@) =~= Seq::<Seq<char>>::empty());
    }
    if in_flatpak {
        push_root(&mut roots, "/run/host/fonts");
        push_root(&mut roots, "/run/host/user-fonts");
    }
    push_root(&mut roots, "/usr/share/fonts");
    push_root(&mut roots, "/usr/local/share/fonts");
    // Inside a sandbox the user's tree is /run/host/user-fonts, walked above.
    if !in_flatpak {
        if let Some(h) = home {
            if let Some(user_fonts) = join(h, ".local/share/fonts") {
                let ghost before = roots@;
                let _ = roots.push(user_fonts);
                assert(desktop::strings(roots@) =~= desktop::strings(before).push(user_fonts@));
            }
        }
    }
    proof {
        assert(desktop::strings(roots@) =~= roots_of(in_flatpak, desktop::text_opt(home)));
    }
    roots
}

/// The rank of a filename, when it is a preferred one.
pub fn font_rank(name: &str) -> (r: Option<usize>)
    ensures
        r is Some <==> preferred_fonts().contains(name@),
        r matches Some(i) ==> i < PREFERRED_COUNT && preferred_fonts()[i as int] == name@ && forall|
            j: int,
        |
            0 <= j < i ==> preferred_fonts()[j] != name@,
{
    let n = chars_of(name);
    let n = n.as_slice();
    let ghost all = preferred_fonts();
    let mut i: usize = 0;
    while i < PREFERRED_COUNT
        invariant
            i <= PREFERRED_COUNT,
            n@ == name@,
            all == preferred_fonts(),
            forall|j: int| 0 <= j < i ==> #[trigger] all[j] != name@,
        decreases PREFERRED_COUNT - i,
    {
        if is_text(n, preferred_font(i)) {
            assert(all[i as int] == name@);
            return Some(i);
        }
        i += 1;
    }
    None
}

/// The preferred filename of a rank.
pub fn preferred_font(rank: usize) -> (r: &'static str)
    requires
        rank < PREFERRED_COUNT,
    ensures
        r@ == preferred_fonts()[rank as int],
{
    match rank {
        0 => "DejaVuSans.ttf",
        1 => "NotoSans-Regular.ttf",
        2 => "LiberationSans-Regular.ttf",
        3 => "Inter-Regular.ttf",
        4 => "Inter-Regular.otf",
        5 => "Cantarell-Regular.otf",
        6 => "Cantarell-VF.otf",
        7 => "Ubuntu-R.ttf",
        8 => "Roboto-Regular.ttf",
        9 => "SourceSans3-Regular.otf",
        10 => "SourceSansPro-Regular.otf",
        _ => "SourceSansPro-Regular.ttf",
    }
}

/// The paths found for each preferred name, by that name's rank. A name has its
/// own slots, so no amount of one font crowds out another, and within a slot the
/// paths sit in the order the directories were walked.
pub struct FontHits {
    pub slots: Vec<ArrayVec<ScanPath, PATHS_PER_NAME>>,
}

/// The paths of each slot.
pub open spec fn slot_paths(slots: Seq<ArrayVec<ScanPath, PATHS_PER_NAME>>) -> Seq<Seq<Seq<char>>> {
    Seq::new(slots.len(), |i: int| desktop::strings(slots[i]@))
}

/// The slots once a file is met: a preferred name goes at the end of its slot,
/// while there is room.
pub open spec fn with_file(slots: Seq<Seq<Seq<char>>>, name: Seq<char>, path: Seq<char>) -> Seq<
    Seq<Seq<char>>,
> {
    Seq::new(
        slots.len(),
        |i: int|
            if preferred_fonts()[i] == name && slots[i].len() < PATHS_PER_NAME {
                slots[i].push(path)
            } else {
                slots[i]
            },
    )
}

/// The paths of the slots end to end.
pub open spec fn in_order(slots: Seq<Seq<Seq<char>>>) -> Seq<Seq<char>>
    decreases slots.len(),
{
    if slots.len() == 0 {
        Seq::empty()
    } else {
        in_order(slots.drop_last()) + slots.last()
    }
}

impl FontHits {
    /// There is a slot for every preferred name.
    pub open spec fn wf(&self) -> bool {
        &&& self.slots@.len() == PREFERRED_COUNT
        &&& forall|i: int|
            0 <= i < self.slots@.len() ==> (#[trigger] self.slots@[i]).wf() && desktop::all_wf(
                self.slots@[i]@,
            )
    }

    /// The paths of each slot.
    pub open spec fn paths(&self) -> Seq<Seq<Seq<char>>> {
        slot_paths(self.slots@)
    }

    pub fn new() -> (r: Self)
        ensures
            r.wf(),
            r.paths() == Seq::new(PREFERRED_COUNT as nat, |i: int| Seq::<Seq<char>>::empty()),
    {
        let mut slots: Vec<ArrayVec<ScanPath, PATHS_PER_NAME>> = Vec::new();
        let mut i: usize = 0;
        while i < PREFERRED_COUNT
            invariant
                i <= PREFERRED_COUNT,
                slots@.len() == i,
                forall|j: int|
                    0 <= j < i ==> (#[trigger] slots@[j]).wf() && slots@[j]@ == Seq::<
                        ScanPath,
                    >::empty(),
            decreases PREFERRED_COUNT - i,
        {
            slots.push(ArrayVec::new());
            i += 1;
        }
        let r = FontHits { slots };
        proof {
            assert forall|j: int| 0 <= j < PREFERRED_COUNT implies #[trigger] r.paths()[j] == Seq::<
                Seq<char>,
            >::empty() by {
                assert(desktop::strings(r.slots@[j]@) =~= Seq::<Seq<char>>::empty());
            }
        }
        r
    }

    /// Take in a name met on the walk of a font tree. A directory is to be
    /// walked in turn, and its path is handed back; a preferred file is recorded
    /// against its rank. A name whose slots are already full keeps the paths it
    /// has, which are the ones found earliest and so in the highest-priority
    /// root. A path too long to hold is passed over.
    pub fn visit(&mut self, dir: &str, name: &str, is_directory: bool) -> (r: Option<ScanPath>)
        requires
            old(self).wf(),
        ensures
            final(self).wf(),
            r is Some <==> is_directory && text::byte_len(fs::joined(dir@, name@)) <= PATH_CAP,
            r matches Some(p) ==> p.wf() && p@ == fs::joined(dir@, name@),
            final(self).paths() == if !is_directory && text::byte_len(fs::joined(dir@, name@))
                <= PATH_CAP {
                with_file(old(self).paths(), name@, fs::joined(dir@, name@))
            } else {
                old(self).paths()
            },
    {
        let path = match join(dir, name) {
            Some(path) => path,
            None => {
                return None;
            },
        };
        if is_directory {
            return Some(path);
        }
        let ghost want = with_file(self.paths(), name@, fs::joined(dir@, name@));
        let ghost before = self.slots@;
        match font_rank(name) {
            Some(rank) => {
                proof {
                    lemma_preferred_distinct();
                }
                assert(self.slots@[rank as int].wf());
                if self.slots[rank].len() < PATHS_PER_NAME {
                    let mut slot: ArrayVec<ScanPath, PATHS_PER_NAME> = ArrayVec::new();
                    let ghost old_slot = self.slots@[rank as int];
                    std::mem::swap(&mut slot, &mut self.slots[rank]);
                    let _ = slot.push(path);
                    std::mem::swap(&mut slot, &mut self.slots[rank]);
                    assert(desktop::strings(self.slots@[rank as int]@) =~= desktop::strings(
                        old_slot@,
                    ).push(path@));
                }
                proof {
                    assert forall|i: int| 0 <= i < PREFERRED_COUNT implies #[trigger] self.paths()[i]
                        == want[i] by {
                        if i != rank {
                            assert(self.slots@[i] == before[i]);
                        }
                        assert(slot_paths(before)[i] == desktop::strings(before[i]@));
                    }
                    assert(self.paths() =~= want);
                }
            },
            None => {
                proof {
                    assert forall|i: int| 0 <= i < PREFERRED_COUNT implies #[trigger] self.paths()[i]
                        == want[i] by {
                        assert(preferred_fonts()[i] != name@);
                    }
                    assert(self.paths() =~= want);
                }
            },
        }
        None
    }

    /// The paths to try loading, in the order to try them: by preference, and
    /// within a name in the order the roots were walked. A file that does not
    /// load falls through to the next, so one broken font cannot leave the
    /// launcher with none.
    pub fn candidates(&self) -> (r: Vec<&str>)
        requires
            self.wf(),
        ensures
            launch::str_texts(r@) == in_order(self.paths()),
    {
        let mut out: Vec<&str> = Vec::new();
        let ghost all = self.paths();
        let mut i: usize = 0;
        assert(all.take(0).len() == 0);
        assert(launch::str_texts(out@) =~= Seq::<Seq<char>>::empty());
        while i < self.slots.len()
            invariant
                i <= self.slots@.len(),
                self.wf(),
                all == self.paths(),
                launch::str_texts(out@) == in_order(all.take(i as int)),
            decreases self.slots@.len() - i,
        {
            let slot = &self.slots[i];
            let ghost start = launch::str_texts(out@);
            let ghost here = desktop::strings(slot@);
            let mut j: usize = 0;
            assert(start + here.take(0) =~= start);
            while j < slot.len()
                invariant
                    j <= slot@.len(),
                    slot.wf(),
                    desktop::all_wf(slot@),
                    here == desktop::strings(slot@),
                    launch::str_texts(out@) == start + here.take(j as int),
                decreases slot@.len() - j,
            {
                let ghost before = out@;
                out.push(slot.as_slice()[j].as_str());
                assert(here[j as int] == slot@[j as int]@);
                assert(launch::str_texts(out@) =~= launch::str_texts(before).push(here[j as int]));
                assert(here.take(j + 1) =~= here.take(j as int).push(here[j as int]));
                assert(launch::str_texts(out@) =~= start + here.take(j + 1));
                j += 1;
            }
            assert(here.take(here.len() as int) =~= here);
            assert(all.take(i + 1).drop_last() =~= all.take(i as int));
            assert(all[i as int] == here);
            i += 1;
        }
        assert(all.take(all.len() as int) =~= all);
        out
    }
}

proof fn lemma_preferred_distinct()
    ensures
        forall|i: int, j: int|
            0 <= i < j < PREFERRED_COUNT ==> #[trigger] preferred_fonts()[i]
                != #[trigger] preferred_fonts()[j],
{
    reveal_strlit("DejaVuSans.ttf");
    reveal_strlit("NotoSans-Regular.ttf");
    reveal_strlit("LiberationSans-Regular.ttf");
    reveal_strlit("Inter-Regular.ttf");
    reveal_strlit("Inter-Regular.otf");
    reveal_strlit("Cantarell-Regular.otf");
    reveal_strlit("Cantarell-VF.otf");
    reveal_strlit("Ubuntu-R.ttf");
    reveal_strlit("Roboto-Regular.ttf");
    reveal_strlit("SourceSans3-Regular.otf");
    reveal_strlit("SourceSansPro-Regular.otf");
    reveal_strlit("SourceSansPro-Regular.ttf");
    let f = preferred_fonts();
    assert(f[3][14] == 't' && f[4][14] == 'o');
    assert(f[10][22] == 'o' && f[11][22] == 't');
    assert(f[0].len() == 14 && f[1].len() == 20 && f[2].len() == 26 && f[3].len() == 17 && f[4].len()
        == 17 && f[5].len() == 21 && f[6].len() == 16 && f[7].len() == 12 && f[8].len() == 18
        && f[9].len() == 23 && f[10].len() == 25 && f[11].len() == 25);
}

} // verus!
