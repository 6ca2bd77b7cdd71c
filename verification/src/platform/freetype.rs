//! What a rasterizer hands back for a glyph.
//!
//! Lengths along the baseline are in 64ths of a pixel, the unit the rasterizer
//! reports them in.
use vstd::prelude::*;

use crate::platform::arena::ArrayVec;

verus! {

/// Largest coverage bitmap kept for one glyph, in bytes.
pub const GLYPH_MAX: usize = 16384;

/// A rasterized glyph: where its bitmap sits relative to the pen, the bitmap,
/// and how far it moves the pen.
pub struct Glyph {
    /// Pixels from the pen to the bitmap's left edge.
    pub left: i32,
    /// Pixels from the baseline up to the bitmap's top edge.
    pub top: i32,
    /// Bitmap width in pixels.
    pub width: usize,
    /// Bitmap height in pixels.
    pub rows: usize,
    /// Horizontal pen advance, in 64ths of a pixel.
    pub advance: i32,
    /// One coverage byte per pixel, row by row from the top.
    pub coverage: ArrayVec<u8, GLYPH_MAX>,
}

/// A coverage bitmap as a rasterizer keeps it: rows of `width` bytes, row y
/// starting at `start + y * pitch`, for a pitch of either sign.
pub struct Bitmap<'a> {
    pub buffer: &'a [u8],
    pub start: usize,
    pub rows: usize,
    pub width: usize,
    pub pitch: isize,
}

impl<'a> Bitmap<'a> {
    /// Where a pixel is in the buffer.
    pub open spec fn offset(&self, row: int, col: int) -> int {
        self.start + row * self.pitch + col
    }

    /// Every row lies within the buffer.
    pub open spec fn wf(&self) -> bool {
        &&& self.rows * self.width <= usize::MAX
        &&& forall|row: int|
            0 <= row < self.rows ==> 0 <= #[trigger] self.offset(row, 0) && self.offset(
                row,
                self.width as int,
            ) <= self.buffer@.len()
    }
}

/// The rows of a bitmap packed one after the other, up to row n.
pub open spec fn packed(b: Bitmap<'_>, n: nat) -> Seq<u8>
    decreases n,
{
    if n == 0 {
        Seq::empty()
    } else {
        packed(b, (n - 1) as nat) + b.buffer@.subrange(b.offset(n - 1, 0), b.offset(n - 1, b.width as int))
    }
}

/// What is kept of a bitmap: its rows packed, or nothing when there are too many
/// pixels.
pub open spec fn coverage_of(b: Bitmap<'_>) -> Seq<u8> {
    if b.rows * b.width > GLYPH_MAX {
        Seq::empty()
    } else {
        packed(b, b.rows as nat)
    }
}

/// Copy a bitmap into a tightly packed top-down coverage buffer of width * rows
/// bytes, dropping any inter-row padding. Row y starts at start + y*pitch for
/// either pitch sign, so an upward row flow comes out top-down too.
pub fn copy_coverage(bitmap: &Bitmap<'_>) -> (r: ArrayVec<u8, GLYPH_MAX>)
    requires
        bitmap.wf(),
    ensures
        r.wf(),
        r@ == coverage_of(*bitmap),
        r@.len() == (if bitmap.rows * bitmap.width > GLYPH_MAX {
            0
        } else {
            bitmap.rows * bitmap.width
        }),
{
    let mut out: ArrayVec<u8, GLYPH_MAX> = ArrayVec::new();
    let width: usize = bitmap.width;
    let rows: usize = bitmap.rows;
    let total: usize = rows * width;
    if total > GLYPH_MAX {
        return out;
    }
    if width == 0 || rows == 0 {
        proof {
            assert(rows * width == 0) by (nonlinear_arith)
                requires
                    width == 0 || rows == 0,
            ;
            lemma_packed_len(*bitmap, rows as nat);
            assert(packed(*bitmap, rows as nat) =~= Seq::<u8>::empty());
        }
        return out;
    }
    let mut y: usize = 0;
    let mut at: i128 = bitmap.start as i128;
    assert(0 * width == 0) by (nonlinear_arith);
    assert(bitmap.offset(0, 0) == bitmap.start);
    while y < rows
        invariant
            y <= rows == bitmap.rows,
            width == bitmap.width,
            width > 0,
            bitmap.wf(),
            out.wf(),
            rows * width <= GLYPH_MAX,
            out@.len() == y * width,
            out@ == packed(*bitmap, y as nat),
            y < rows ==> at == bitmap.offset(y as int, 0),
        decreases rows - y,
    {
        let n: usize = bitmap.buffer.len();
        proof {
            assert(bitmap.offset(y as int, width as int) == bitmap.offset(y as int, 0) + width);
            assert((y + 1) * width <= rows * width) by (nonlinear_arith)
                requires
                    y < rows,
            ;
            assert((y + 1) * width == y * width + width) by (nonlinear_arith);
        }
        let from: usize = at as usize;
        let row = vstd::slice::slice_subrange(bitmap.buffer, from, from + width);
        let _ = out.extend_from_slice(row);
        proof {
            if y + 1 < rows {
                assert((y + 1) * bitmap.pitch == y * bitmap.pitch + bitmap.pitch)
                    by (nonlinear_arith);
                assert(0 <= bitmap.offset(y + 1, 0));
                assert(bitmap.offset(y + 1, width as int) <= n);
            }
        }
        y += 1;
        if y < rows {
            at += bitmap.pitch as i128;
        }
    }
    out
}

proof fn lemma_packed_len(b: Bitmap<'_>, n: nat)
    requires
        b.wf(),
        n <= b.rows,
    ensures
        packed(b, n).len() == n * b.width,
    decreases n,
{
    if n == 0 {
        assert(0 * b.width == 0) by (nonlinear_arith);
    } else {
        lemma_packed_len(b, (n - 1) as nat);
        assert(0 <= b.offset(n - 1, 0));
        assert((n - 1) * b.width + b.width == n * b.width) by (nonlinear_arith);
    }
}

/// The pixel mode of a bitmap with one coverage byte per pixel.
pub const FT_PIXEL_MODE_GRAY: u8 = 2;

/// What a rasterizer holds for the character it rendered last.
pub struct Slot<'a> {
    pub left: i32,
    pub top: i32,
    pub advance: i32,
    pub pixel_mode: u8,
    pub bitmap: Bitmap<'a>,
}

impl Glyph {
    /// The coverage is within its capacity.
    pub open spec fn wf(&self) -> bool {
        self.coverage.wf()
    }

    /// A glyph with no ink that moves the pen by `advance`.
    pub open spec fn is_blank(&self, advance: i32) -> bool {
        &&& self.left == 0
        &&& self.top == 0
        &&& self.width == 0
        &&& self.rows == 0
        &&& self.advance == advance
        &&& self.coverage@ == Seq::<u8>::empty()
    }

    /// A glyph with no ink.
    pub fn blank(advance: i32) -> (r: Self)
        ensures
            r.wf(),
            r.is_blank(advance),
    {
        Glyph { left: 0, top: 0, width: 0, rows: 0, advance, coverage: ArrayVec::new() }
    }

    /// The glyph for what a rasterizer rendered. Nothing rendered yields an
    /// empty glyph, and a bitmap that is not gray keeps its advance but none of
    /// its ink, so the glyph shows blank without disturbing layout.
    pub fn rasterize(slot: Option<&Slot<'_>>) -> (r: Self)
        requires
            slot matches Some(s) ==> (s.pixel_mode == FT_PIXEL_MODE_GRAY ==> s.bitmap.wf()),
        ensures
            r.wf(),
            match slot {
                None => r.is_blank(0),
                Some(s) => if s.pixel_mode != FT_PIXEL_MODE_GRAY {
                    r.is_blank(s.advance)
                } else {
                    &&& r.left == s.left
                    &&& r.top == s.top
                    &&& r.width == s.bitmap.width
                    &&& r.rows == s.bitmap.rows
                    &&& r.advance == s.advance
                    &&& r.coverage@ == coverage_of(s.bitmap)
                },
            },
    {
        match slot {
            None => Glyph::blank(0),
            Some(s) => {
                if s.pixel_mode != FT_PIXEL_MODE_GRAY {
                    Glyph::blank(s.advance)
                } else {
                    Glyph {
                        left: s.left,
                        top: s.top,
                        width: s.bitmap.width,
                        rows: s.bitmap.rows,
                        advance: s.advance,
                        coverage: copy_coverage(&s.bitmap),
                    }
                }
            },
        }
    }
}

} // verus!
