//! The pixel buffer a frame is drawn into, and the compositing of premultiplied
//! colours onto it.
use vstd::prelude::*;

use crate::platform::error::{Error, Result};
use crate::platform::syscall::RawFd;

verus! {

/// Four channels packed into a word: alpha, red, green, blue.
pub open spec fn pack(a: u32, r: u32, g: u32, b: u32) -> u32 {
    (a << 24) | (r << 16) | (g << 8) | b
}

pub open spec fn alpha(c: u32) -> u32 {
    c >> 24 & 0xFF
}

pub open spec fn red(c: u32) -> u32 {
    c >> 16 & 0xFF
}

pub open spec fn green(c: u32) -> u32 {
    c >> 8 & 0xFF
}

pub open spec fn blue(c: u32) -> u32 {
    c & 0xFF
}

/// Channels come out of a word as they went in, and every word is its channels.
pub proof fn lemma_channels(a: u32, r: u32, g: u32, b: u32)
    requires
        a <= 255,
        r <= 255,
        g <= 255,
        b <= 255,
    ensures
        alpha(pack(a, r, g, b)) == a,
        red(pack(a, r, g, b)) == r,
        green(pack(a, r, g, b)) == g,
        blue(pack(a, r, g, b)) == b,
{
    assert(a <= 255 && r <= 255 && g <= 255 && b <= 255 ==> {
        let w = (a << 24) | (r << 16) | (g << 8) | b;
        w >> 24 & 0xFF == a && w >> 16 & 0xFF == r && w >> 8 & 0xFF == g && w & 0xFF == b
    }) by (bit_vector);
}

pub proof fn lemma_word_is_its_channels(c: u32)
    ensures
        pack(alpha(c), red(c), green(c), blue(c)) == c,
        alpha(c) <= 255,
        red(c) <= 255,
        green(c) <= 255,
        blue(c) <= 255,
        c >> 24 == alpha(c),
{
    assert(((c >> 24 & 0xFF) << 24) | ((c >> 16 & 0xFF) << 16) | ((c >> 8 & 0xFF) << 8) | (c & 0xFF)
        == c && c >> 24 & 0xFF <= 255 && c >> 16 & 0xFF <= 255 && c >> 8 & 0xFF <= 255 && c & 0xFF
        <= 255 && c >> 24 == c >> 24 & 0xFF) by (bit_vector);
}

/// One channel of a composite: the source's scaled by the coverage, plus what
/// the source's alpha leaves of the destination's.
pub open spec fn mixed(dst: u32, src: u32, cov: u32, src_alpha: u32) -> u32 {
    ((src * cov + dst * (255 - src_alpha * cov / 255)) / 255) as u32
}

/// Source over destination, both premultiplied, with the source scaled by the
/// coverage first.
pub open spec fn blended(dst: u32, src: u32, coverage: u8) -> u32 {
    let cov = coverage as u32;
    let sa = alpha(src);
    pack(
        mixed(alpha(dst), sa, cov, sa),
        mixed(red(dst), red(src), cov, sa),
        mixed(green(dst), green(src), cov, sa),
        mixed(blue(dst), blue(src), cov, sa),
    )
}

proof fn lemma_scaled(x: u32, y: u32)
    requires
        x <= 255,
        y <= 255,
    ensures
        0 <= x * y <= 65025,
        0 <= x * y / 255 <= 255,
{
    assert(0 <= x * y <= 65025) by (nonlinear_arith)
        requires
            x <= 255,
            y <= 255,
    ;
}

fn mix(dst: u32, src: u32, cov: u32, src_alpha: u32) -> (r: u32)
    requires
        dst <= 255,
        src <= 255,
        cov <= 255,
        src_alpha <= 255,
    ensures
        r == mixed(dst, src, cov, src_alpha),
{
    proof {
        lemma_scaled(src_alpha, cov);
        lemma_scaled(src, cov);
    }
    let inv: u32 = 255 - src_alpha * cov / 255;
    proof {
        lemma_scaled(dst, inv);
    }
    (src * cov + dst * inv) / 255
}

/// Composite src over dst, both premultiplied ARGB8888, with src scaled by
/// coverage first: 255 for a solid fill, a glyph's coverage byte for text.
pub fn blend(dst: u32, src: u32, coverage: u8) -> (r: u32)
    ensures
        r == blended(dst, src, coverage),
{
    proof {
        lemma_word_is_its_channels(dst);
        lemma_word_is_its_channels(src);
    }
    let cov: u32 = coverage as u32;
    let sa: u32 = src >> 24 & 0xFF;
    let a: u32 = mix(dst >> 24 & 0xFF, sa, cov, sa);
    let r: u32 = mix(dst >> 16 & 0xFF, src >> 16 & 0xFF, cov, sa);
    let g: u32 = mix(dst >> 8 & 0xFF, src >> 8 & 0xFF, cov, sa);
    let b: u32 = mix(dst & 0xFF, src & 0xFF, cov, sa);
    (a << 24) | (r << 16) | (g << 8) | b
}

/// No channel is brighter than the alpha.
pub open spec fn premultiplied(c: u32) -> bool {
    red(c) <= alpha(c) && green(c) <= alpha(c) && blue(c) <= alpha(c)
}

/// A channel stays at or below the alpha it is composited with, and the alpha
/// within a byte.
proof fn lemma_mixed_below(dc: u32, da: u32, sc: u32, sa: u32, cov: u32)
    requires
        dc <= da <= 255,
        sc <= sa <= 255,
        cov <= 255,
    ensures
        mixed(dc, sc, cov, sa) <= mixed(da, sa, cov, sa) <= 255,
{
    lemma_scaled(sa, cov);
    let inv = 255 - sa * cov / 255;
    assert(sc * cov <= sa * cov) by (nonlinear_arith)
        requires
            sc <= sa,
    ;
    assert(0 <= sc * cov) by (nonlinear_arith);
    assert(dc * inv <= da * inv) by (nonlinear_arith)
        requires
            dc <= da,
            inv >= 0,
    ;
    assert(0 <= dc * inv) by (nonlinear_arith)
        requires
            inv >= 0,
    ;
    assert(da * inv <= 255 * inv) by (nonlinear_arith)
        requires
            da <= 255,
            inv >= 0,
    ;
}

/// Premultiplied is an invariant: compositing premultiplied colours never leaves
/// a channel above the alpha.
pub proof fn law_blend_stays_premultiplied(dst: u32, src: u32, coverage: u8)
    requires
        premultiplied(dst),
        premultiplied(src),
    ensures
        premultiplied(blended(dst, src, coverage)),
        alpha(blended(dst, src, coverage)) == mixed(
            alpha(dst),
            alpha(src),
            coverage as u32,
            alpha(src),
        ),
{
    lemma_word_is_its_channels(dst);
    lemma_word_is_its_channels(src);
    let cov = coverage as u32;
    lemma_mixed_below(red(dst), alpha(dst), red(src), alpha(src), cov);
    lemma_mixed_below(green(dst), alpha(dst), green(src), alpha(src), cov);
    lemma_mixed_below(blue(dst), alpha(dst), blue(src), alpha(src), cov);
    let sa = alpha(src);
    lemma_channels(
        mixed(alpha(dst), sa, cov, sa),
        mixed(red(dst), red(src), cov, sa),
        mixed(green(dst), green(src), cov, sa),
        mixed(blue(dst), blue(src), cov, sa),
    );
}

/// Compositing never makes a pixel more see-through.
pub proof fn law_blend_never_clears(dst: u32, src: u32, coverage: u8)
    requires
        premultiplied(dst),
        premultiplied(src),
    ensures
        alpha(blended(dst, src, coverage)) >= alpha(dst),
{
    law_blend_stays_premultiplied(dst, src, coverage);
    lemma_word_is_its_channels(dst);
    lemma_word_is_its_channels(src);
    let cov = coverage as u32;
    let sa = alpha(src);
    let da = alpha(dst);
    lemma_scaled(sa, cov);
    let kept: int = sa * cov / 255;
    let inv: int = 255 - kept;
    assert(da * inv == da * 255 - da * kept) by (nonlinear_arith)
        requires
            inv == 255 - kept,
    ;
    assert(da * kept <= 255 * kept) by (nonlinear_arith)
        requires
            da <= 255,
            kept >= 0,
    ;
    lemma_mixed_below(da, da, sa, sa, cov);
}

/// Full coverage of an opaque colour is the colour, whatever is under it.
pub proof fn law_blend_of_an_opaque_source(dst: u32, src: u32)
    requires
        alpha(src) == 255,
    ensures
        blended(dst, src, 255) == src,
{
    lemma_word_is_its_channels(src);
    let inv: int = 255 - (255 * 255) / 255;
    assert(inv == 0);
    assert(alpha(dst) * inv == 0 && red(dst) * inv == 0 && green(dst) * inv == 0 && blue(dst) * inv
        == 0) by (nonlinear_arith)
        requires
            inv == 0,
    ;
}

proof fn lemma_mixed_with_nothing(dst: u32, src: u32, cov: u32, src_alpha: u32)
    requires
        dst <= 255,
        cov == 0 || (src == 0 && src_alpha == 0),
    ensures
        mixed(dst, src, cov, src_alpha) == dst,
{
    assert(src * cov == 0 && src_alpha * cov == 0) by (nonlinear_arith)
        requires
            cov == 0 || (src == 0 && src_alpha == 0),
    ;
    let inv = 255 - src_alpha * cov / 255;
    assert(inv == 255);
    assert(dst * inv == dst * 255) by (nonlinear_arith)
        requires
            inv == 255,
    ;
}

/// Covering nothing changes nothing: no coverage, or no colour to cover with.
pub proof fn law_blend_covering_nothing(dst: u32, src: u32, coverage: u8)
    ensures
        blended(dst, src, 0) == dst,
        blended(dst, 0, coverage) == dst,
{
    lemma_word_is_its_channels(src);
    lemma_word_is_its_channels(dst);
    assert(0u32 >> 24 & 0xFF == 0 && 0u32 >> 16 & 0xFF == 0 && 0u32 >> 8 & 0xFF == 0 && 0u32 & 0xFF
        == 0) by (bit_vector);
    let cov = coverage as u32;
    assert(0 * cov == 0) by (nonlinear_arith);
    lemma_mixed_with_nothing(alpha(dst), alpha(src), 0, alpha(src));
    lemma_mixed_with_nothing(red(dst), red(src), 0, alpha(src));
    lemma_mixed_with_nothing(green(dst), green(src), 0, alpha(src));
    lemma_mixed_with_nothing(blue(dst), blue(src), 0, alpha(src));
    lemma_mixed_with_nothing(alpha(dst), 0, cov, 0);
    lemma_mixed_with_nothing(red(dst), 0, cov, 0);
    lemma_mixed_with_nothing(green(dst), 0, cov, 0);
    lemma_mixed_with_nothing(blue(dst), 0, cov, 0);
}

/// A buffer of pixels, row by row from the top, and the shared memory it is
/// handed to the compositor in.
pub struct PixelBuffer {
    /// The pixels, ARGB8888.
    pub pixels: Vec<u32>,
    /// The shared memory's descriptor; -1 before there is one.
    pub shared: RawFd,
    /// Width in pixels
    pub width: u32,
    /// Height in pixels
    pub height: u32,
    /// Stride (bytes per row)
    pub stride: u32,
}

/// Whether a buffer of these dimensions has a size: a stride that fits a word
/// and a byte count that fits a file offset.
pub open spec fn dimensions_fit(width: u32, height: u32) -> bool {
    &&& width * 4 <= u32::MAX
    &&& width * 4 * height <= i64::MAX
    &&& width * 4 * height <= usize::MAX
}

/// The column of a pixel, in a buffer that is `width` across.
pub open spec fn col_of(i: int, width: int) -> int {
    i % width
}

/// The row of a pixel, in a buffer that is `width` across.
pub open spec fn row_of(i: int, width: int) -> int {
    i / width
}

/// Pixels with a rectangle of a buffer that is `width` across changed by `f`.
pub open spec fn with_rect(
    px: Seq<u32>,
    width: int,
    x: int,
    y: int,
    w: int,
    h: int,
    f: spec_fn(u32) -> u32,
) -> Seq<u32> {
    Seq::new(
        px.len(),
        |i: int|
            if x <= col_of(i, width) < x + w && y <= row_of(i, width) < y + h {
                f(px[i])
            } else {
                px[i]
            },
    )
}

/// A colour drawn over a pixel: an opaque one replaces it, one carrying alpha
/// composites over it, and one with none leaves it.
pub open spec fn drawn(color: u32) -> spec_fn(u32) -> u32 {
    |dst: u32|
        if color >> 24 == 0 {
            dst
        } else if color >> 24 == 0xFF {
            color
        } else {
            blended(dst, color, 255)
        }
}

/// A colour put in place of a pixel.
pub open spec fn stamped(color: u32) -> spec_fn(u32) -> u32 {
    |dst: u32| color
}

/// The size in bytes of a buffer's memory.
pub fn buffer_size(width: u32, height: u32) -> (r: Result<usize>)
    ensures
        dimensions_fit(width, height) ==> r == Ok::<usize, Error>((width * 4 * height) as usize),
        !dimensions_fit(width, height) ==> r == Err::<usize, Error>(
            Error::of_msg("buffer dimensions too large"),
        ),
{
    if width > u32::MAX / 4 {
        return Err(Error::msg("buffer dimensions too large"));
    }
    let stride: u32 = width * 4;
    let size: u64 = match (stride as u64).checked_mul(height as u64) {
        Some(size) => size,
        None => {
            return Err(Error::msg("buffer dimensions too large"));
        },
    };
    if size > i64::MAX as u64 || size > usize::MAX as u64 {
        return Err(Error::msg("buffer dimensions too large"));
    }
    Ok(size as usize)
}

impl PixelBuffer {
    /// There is a pixel for every position.
    pub open spec fn wf(&self) -> bool {
        &&& self.pixels@.len() == self.width * self.height
        &&& self.stride == self.width * 4
        &&& dimensions_fit(self.width, self.height)
    }

    /// The same buffer with other pixels.
    pub open spec fn same_shape(&self, other: &PixelBuffer) -> bool {
        &&& self.width == other.width
        &&& self.height == other.height
        &&& self.stride == other.stride
        &&& self.shared == other.shared
    }

    /// Create a new pixel buffer with the given dimensions.
    /// Uses ARGB8888 format (4 bytes per pixel).
    ///
    /// Dimensions originate from the compositor's configure event, so a size
    /// that does not fit is an error.
    pub fn new(width: u32, height: u32) -> (r: Result<Self>)
        ensures
            !dimensions_fit(width, height) ==> r == Err::<Self, Error>(
                Error::of_msg("buffer dimensions too large"),
            ),
            dimensions_fit(width, height) ==> (r matches Ok(b) && b.wf() && b.width == width
                && b.height == height && b.shared == -1 && forall|i: int|
                0 <= i < b.pixels@.len() ==> b.pixels@[i] == 0),
    {
        proof {
            assert(width * 4 * height == (width * height) * 4 && 0 <= width * height)
                by (nonlinear_arith);
        }
        let size: usize = buffer_size(width, height)?;
        let stride: u32 = width * 4;
        let count: usize = size / 4;
        let mut pixels: Vec<u32> = Vec::new();
        let mut i: usize = 0;
        while i < count
            invariant
                i <= count,
                pixels@.len() == i,
                forall|j: int| 0 <= j < i ==> pixels@[j] == 0,
            decreases count - i,
        {
            pixels.push(0);
            i += 1;
        }
        Ok(PixelBuffer { pixels, shared: -1, width, height, stride })
    }

    /// Name the shared memory that backs the buffer.
    pub fn share(&mut self, fd: RawFd)
        ensures
            *final(self) == (PixelBuffer { shared: fd, ..*old(self) }),
    {
        self.shared = fd;
    }

    /// Get the file descriptor for passing to wl_shm.
    pub fn fd(&self) -> (r: RawFd)
        ensures
            r == self.shared,
    {
        self.shared
    }

    /// Get the buffer size in bytes.
    pub fn size(&self) -> (r: usize)
        requires
            self.wf(),
        ensures
            r == self.stride * self.height,
    {
        proof {
            assert(self.width * 4 * self.height == (self.width * self.height) * 4)
                by (nonlinear_arith);
        }
        self.pixels.len() * 4
    }

    /// Get a mutable slice of the pixel data as u32 (ARGB values).
    pub fn pixels_u32(&mut self) -> (r: &mut [u32])
        ensures
            r@ == old(self).pixels@,
            final(self).pixels@ == final(r)@,
            final(self).same_shape(old(self)),
    {
        self.pixels.as_mut_slice()
    }

    /// Stamp one colour over the whole buffer, replacing the frame it held.
    pub fn fill(&mut self, color: u32)
        ensures
            final(self).pixels@ == Seq::new(old(self).pixels@.len(), |i: int| color),
            final(self).same_shape(old(self)),
    {
        let mut i: usize = 0;
        while i < self.pixels.len()
            invariant
                i <= self.pixels@.len() == old(self).pixels@.len(),
                self.same_shape(old(self)),
                forall|j: int| 0 <= j < i ==> self.pixels@[j] == color,
            decreases self.pixels@.len() - i,
        {
            self.pixels[i] = color;
            i += 1;
        }
    }

    /// Change one row of a rectangle: the pixels from `at` up to `end`.
    fn paint_run(&mut self, at: usize, end: usize, color: u32, replace: bool)
        requires
            at <= end <= old(self).pixels@.len(),
        ensures
            final(self).same_shape(old(self)),
            final(self).pixels@ == Seq::new(
                old(self).pixels@.len(),
                |i: int|
                    if at <= i < end {
                        if replace {
                            stamped(color)(old(self).pixels@[i])
                        } else {
                            drawn(color)(old(self).pixels@[i])
                        }
                    } else {
                        old(self).pixels@[i]
                    },
            ),
    {
        let opaque = replace || color >> 24 == 0xFF;
        let clear = !replace && color >> 24 == 0;
        let mut k: usize = at;
        while k < end
            invariant
                at <= k <= end <= self.pixels@.len() == old(self).pixels@.len(),
                self.same_shape(old(self)),
                opaque == (replace || color >> 24 == 0xFF),
                clear == (!replace && color >> 24 == 0),
                forall|i: int|
                    0 <= i < self.pixels@.len() ==> #[trigger] self.pixels@[i] == (if at <= i < k {
                        if replace {
                            stamped(color)(old(self).pixels@[i])
                        } else {
                            drawn(color)(old(self).pixels@[i])
                        }
                    } else {
                        old(self).pixels@[i]
                    }),
            decreases end - k,
        {
            let dst: u32 = self.pixels[k];
            self.pixels[k] = if opaque {
                color
            } else if clear {
                dst
            } else {
                blend(dst, color, 255)
            };
            k += 1;
        }
    }

    /// Change the pixels of a rectangle, clipped to the buffer.
    fn paint_rect(&mut self, x: u32, y: u32, w: u32, h: u32, color: u32, replace: bool)
        requires
            old(self).wf(),
        ensures
            final(self).wf(),
            final(self).same_shape(old(self)),
            final(self).pixels@ == with_rect(
                old(self).pixels@,
                old(self).width as int,
                x as int,
                y as int,
                w as int,
                h as int,
                if replace {
                    stamped(color)
                } else {
                    drawn(color)
                },
            ),
    {
        let ghost before = self.pixels@;
        let ghost f = if replace {
            stamped(color)
        } else {
            drawn(color)
        };
        let width = self.width;
        // Compared with what is left of the buffer, so no edge is too far out to
        // be worked out.
        let x_end: u32 = if x < width && w < width - x {
            x + w
        } else {
            width
        };
        let y_end: u32 = if y < self.height && h < self.height - y {
            y + h
        } else {
            self.height
        };
        proof {
            lemma_positions(width as int, self.height as int);
        }
        if x >= x_end || y >= y_end {
            proof {
                assert(self.pixels@ =~= with_rect(
                    before,
                    width as int,
                    x as int,
                    y as int,
                    w as int,
                    h as int,
                    f,
                ));
            }
            return;
        }
        let mut row: u32 = y;
        assert(self.pixels@ =~= with_rect(
            before,
            width as int,
            x as int,
            y as int,
            w as int,
            row - y,
            f,
        ));
        while row < y_end
            invariant
                y <= row <= y_end <= self.height,
                x < x_end <= width == self.width,
                x_end == (if x + w < width {
                    (x + w) as u32
                } else {
                    width
                }),
                self.wf(),
                self.same_shape(old(self)),
                before.len() == self.pixels@.len(),
                f == (if replace {
                    stamped(color)
                } else {
                    drawn(color)
                }),
                self.pixels@ == with_rect(
                    before,
                    width as int,
                    x as int,
                    y as int,
                    w as int,
                    row - y,
                    f,
                ),
                positions_split(width as int, self.height as int),
            decreases y_end - row,
        {
            let ghost mid = self.pixels@;
            proof {
                assert(row * width + width <= self.width * self.height) by (nonlinear_arith)
                    requires
                        row < self.height,
                        width == self.width,
                ;
                assert(0 <= row * width) by (nonlinear_arith);
                assert(self.width * self.height <= self.width * 4 * self.height)
                    by (nonlinear_arith);
            }
            let start: usize = row as usize * width as usize;
            self.paint_run(start + x as usize, start + x_end as usize, color, replace);
            proof {
                assert forall|i: int| 0 <= i < mid.len() implies #[trigger] self.pixels@[i]
                    == with_rect(
                    before,
                    width as int,
                    x as int,
                    y as int,
                    w as int,
                    row + 1 - y,
                    f,
                )[i] by {
                    let r = row_of(i, width as int);
                    let c = col_of(i, width as int);
                    if r < row {
                        assert(r * width + width <= row * width) by (nonlinear_arith)
                            requires
                                r < row,
                                width >= 0,
                        ;
                    } else if r > row {
                        assert(row * width + width <= r * width) by (nonlinear_arith)
                            requires
                                row < r,
                                width >= 0,
                        ;
                    }
                }
                assert(self.pixels@ =~= with_rect(
                    before,
                    width as int,
                    x as int,
                    y as int,
                    w as int,
                    row + 1 - y,
                    f,
                ));
            }
            row += 1;
        }
        proof {
            assert(self.pixels@ =~= with_rect(
                before,
                width as int,
                x as int,
                y as int,
                w as int,
                h as int,
                f,
            ));
        }
    }

    /// Draw a filled rectangle. An opaque colour replaces what is there; one
    /// carrying alpha composites over it.
    pub fn fill_rect(&mut self, x: u32, y: u32, w: u32, h: u32, color: u32)
        requires
            old(self).wf(),
        ensures
            final(self).wf(),
            final(self).same_shape(old(self)),
            final(self).pixels@ == with_rect(
                old(self).pixels@,
                old(self).width as int,
                x as int,
                y as int,
                w as int,
                h as int,
                drawn(color),
            ),
    {
        self.paint_rect(x, y, w, h, color, false);
    }

    /// Stamp a colour over a rectangle, replacing what is there whatever alpha
    /// it carries.
    pub fn stamp_rect(&mut self, x: u32, y: u32, w: u32, h: u32, color: u32)
        requires
            old(self).wf(),
        ensures
            final(self).wf(),
            final(self).same_shape(old(self)),
            final(self).pixels@ == with_rect(
                old(self).pixels@,
                old(self).width as int,
                x as int,
                y as int,
                w as int,
                h as int,
                stamped(color),
            ),
    {
        self.paint_rect(x, y, w, h, color, true);
    }
}

/// Every position is its row and its column.
pub open spec fn positions_split(width: int, height: int) -> bool {
    forall|i: int|
        #![trigger col_of(i, width)]
        #![trigger row_of(i, width)]
        0 <= i < width * height ==> 0 <= col_of(i, width) < width && i == row_of(i, width) * width
            + col_of(i, width) && 0 <= row_of(i, width) < height
}

pub proof fn lemma_positions(width: int, height: int)
    requires
        width >= 0,
        height >= 0,
    ensures
        positions_split(width, height),
{
    if width == 0 {
        assert(width * height == 0) by (nonlinear_arith)
            requires
                width == 0,
        ;
    } else {
        assert forall|i: int|
            #![trigger col_of(i, width)]
            #![trigger row_of(i, width)]
            0 <= i < width * height implies 0 <= col_of(i, width) < width && i == row_of(i, width)
            * width + col_of(i, width) && 0 <= row_of(i, width) < height by {
            vstd::arithmetic::div_mod::lemma_fundamental_div_mod(i, width);
            let r = i / width;
            assert(width * r == r * width) by (nonlinear_arith);
            vstd::arithmetic::div_mod::lemma_mod_bound(i, width);
            vstd::arithmetic::div_mod::lemma_div_pos_is_pos(i, width);
            if r >= height {
                assert(r * width >= width * height) by (nonlinear_arith)
                    requires
                        r >= height,
                        width >= 0,
                ;
            }
        }
    }
}

} // verus!
