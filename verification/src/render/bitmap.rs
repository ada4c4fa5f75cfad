//! Pixel buffers and the format conversion between PDFium and Android.
//!
//! PDFium can only write `BGRA`; Android's `ARGB_8888` is RGBA in memory
//! order. Exactly one place fixes that: [`swap_red_blue_in_place`], called
//! after PDFium finishes writing.

use vstd::prelude::*;
use crate::error::{PdfError, Result};
use crate::text::{decimal, push_decimal};

verus! {

/// Byte order of a 4-bytes-per-pixel buffer.
#[derive(Debug, Clone, Copy, PartialEq, Eq, Structural)]
pub enum PixelOrder {
    /// What PDFium writes.
    Bgra,
    /// What Android's ARGB_8888 expects in memory.
    Rgba,
}

pub const BYTES_PER_PIXEL: usize = 4;

/// Guard rail against a document asking for a buffer that would exhaust memory.
pub const MAX_DIMENSION_PX: u32 = 16_384;
pub const MAX_PIXELS: u64 = 67_108_864;

/// Whether a render of this size is allowed at all.
pub open spec fn dimensions_ok(width: u32, height: u32) -> bool {
    width != 0 && height != 0 && width <= MAX_DIMENSION_PX && height <= MAX_DIMENSION_PX
        && width * height <= MAX_PIXELS
}

/// What `validate_dimensions` answers for a size.
pub open spec fn dimensions_verdict(width: u32, height: u32, r: Result<()>) -> bool {
    if width == 0 || height == 0 {
        r matches Err(PdfError::InvalidBitmap(m))
            && m@ == "zero-sized bitmap "@ + decimal(width as nat) + "x"@ + decimal(height as nat)
    } else if !dimensions_ok(width, height) {
        r == Err::<(), PdfError>(PdfError::RenderTooLarge { width, height })
    } else {
        r is Ok
    }
}

pub fn validate_dimensions(width: u32, height: u32) -> (r: Result<()>)
    ensures
        dimensions_verdict(width, height, r),
        r is Ok <==> dimensions_ok(width, height),
{
    if width == 0 || height == 0 {
        let mut m = String::from_str("zero-sized bitmap ");
        push_decimal(&mut m, width as u64);
        m.append("x");
        push_decimal(&mut m, height as u64);
        return Err(PdfError::InvalidBitmap(m));
    }
    if width > MAX_DIMENSION_PX || height > MAX_DIMENSION_PX {
        return Err(PdfError::RenderTooLarge { width, height });
    }
    assert((width as u64) * (height as u64) <= 16384 * 16384) by (nonlinear_arith)
        requires width <= 16384, height <= 16384;
    if (width as u64) * (height as u64) > MAX_PIXELS {
        return Err(PdfError::RenderTooLarge { width, height });
    }
    Ok(())
}

/// One byte of a segment after its red and blue channels are exchanged.
///
/// Only whole pixels are touched: a trailing partial pixel keeps its bytes.
pub open spec fn swapped_byte(s: Seq<u8>, i: int) -> u8 {
    if (i / 4) * 4 + 4 <= s.len() {
        if i % 4 == 0 { s[i + 2] } else if i % 4 == 2 { s[i - 2] } else { s[i] }
    } else {
        s[i]
    }
}

/// A whole buffer with red and blue exchanged in every complete pixel.
pub open spec fn swapped(s: Seq<u8>) -> Seq<u8> {
    Seq::new(s.len(), |i: int| swapped_byte(s, i))
}

/// `s` with the span `start..end` swapped and everything else as it was.
pub open spec fn swap_span(s: Seq<u8>, start: int, end: int) -> Seq<u8> {
    Seq::new(s.len(), |i: int| if start <= i < end { swapped_byte(s.subrange(start, end), i - start) } else { s[i] })
}

/// The first `rows` rows swapped, one after another, each `visible` bytes
/// long and `stride` apart; a row that would run past the buffer is skipped.
pub open spec fn rows_swapped(s: Seq<u8>, visible: int, stride: int, rows: nat) -> Seq<u8>
    decreases rows,
{
    if rows == 0 {
        s
    } else {
        let before = rows_swapped(s, visible, stride, (rows - 1) as nat);
        let start = (rows - 1) * stride;
        if start + visible <= before.len() { swap_span(before, start, start + visible) } else { before }
    }
}

pub proof fn lemma_rows_swapped_len(s: Seq<u8>, visible: int, stride: int, rows: nat)
    requires
        visible >= 0,
        stride >= 0,
    ensures
        rows_swapped(s, visible, stride, rows).len() == s.len(),
    decreases rows,
{
    if rows > 0 {
        lemma_rows_swapped_len(s, visible, stride, (rows - 1) as nat);
    }
}

/// Once a row no longer fits, no later row does either.
proof fn lemma_rows_stop(s: Seq<u8>, visible: int, stride: int, from: nat, rows: nat)
    requires
        visible >= 0,
        stride >= 0,
        from <= rows,
        from * stride + visible > s.len(),
    ensures
        rows_swapped(s, visible, stride, rows) == rows_swapped(s, visible, stride, from),
    decreases rows,
{
    if rows > from {
        lemma_rows_stop(s, visible, stride, from, (rows - 1) as nat);
        lemma_rows_swapped_len(s, visible, stride, (rows - 1) as nat);
        assert((rows - 1) * stride >= from * stride) by (nonlinear_arith)
            requires rows - 1 >= from, stride >= 0;
    }
}

/// Exchange red and blue in every whole pixel of `buffer[start..end]`.
fn swap_segment(buffer: &mut [u8], start: usize, end: usize)
    requires
        start <= end <= old(buffer)@.len(),
    ensures
        final(buffer)@ == swap_span(old(buffer)@, start as int, end as int),
{
    let ghost seg = buffer@.subrange(start as int, end as int);
    let ghost original = buffer@;
    let mut p: usize = 0;
    while end - start - p >= 4
        invariant
            start <= end <= original.len(),
            seg == original.subrange(start as int, end as int),
            buffer@.len() == original.len(),
            p % 4 == 0,
            p <= end - start,
            forall|i: int| 0 <= i < buffer@.len() ==> #[trigger] buffer@[i] == (
                if start <= i < start + p { swapped_byte(seg, i - start) } else { original[i] }),
        decreases end - start - p,
    {
        let a = buffer[start + p];
        let c = buffer[start + p + 2];
        buffer[start + p] = c;
        buffer[start + p + 2] = a;
        proof {
            assert forall|i: int| 0 <= i < buffer@.len() implies #[trigger] buffer@[i] == (
                if start <= i < start + p + 4 { swapped_byte(seg, i - start) } else { original[i] }) by {
                if start + p <= i < start + p + 4 {
                    let k = i - start;
                    assert(k / 4 == p / 4);
                    assert((k / 4) * 4 == p);
                }
            }
        }
        p = p + 4;
    }
    proof {
        assert forall|i: int| 0 <= i < buffer@.len() implies #[trigger] buffer@[i] == swap_span(original, start as int, end as int)[i] by {
            if start + p <= i < end {
                let k = i - start;
                assert((k / 4) * 4 + 4 > seg.len());
            }
        }
        assert(buffer@ =~= swap_span(original, start as int, end as int));
    }
}

/// Swap the R and B channels of a 4bpp buffer in place, leaving alpha untouched.
///
/// A trailing partial pixel (which would mean a malformed stride) is left
/// alone rather than panicking.
pub fn swap_red_blue_in_place(buffer: &mut [u8])
    ensures
        final(buffer)@ == swapped(old(buffer)@),
{
    let n = buffer.len();
    swap_segment(buffer, 0, n);
    proof {
        assert(old(buffer)@.subrange(0, n as int) =~= old(buffer)@);
        assert(final(buffer)@ =~= swapped(old(buffer)@));
    }
}

/// Same conversion, but respecting a stride that is wider than the visible row.
/// Padding bytes are skipped rather than treated as pixels, and a row that
/// would run past the buffer ends the conversion.
pub fn swap_red_blue_rows(buffer: &mut [u8], width_px: u32, height_px: u32, stride: usize)
    ensures
        final(buffer)@ == rows_swapped(old(buffer)@, width_px * 4, stride as int, height_px as nat),
{
    let ghost original = buffer@;
    let n = buffer.len();
    let visible: usize = match (width_px as usize).checked_mul(BYTES_PER_PIXEL) {
        Some(v) => v,
        None => {
            proof { lemma_rows_stop(original, width_px * 4, stride as int, 0, height_px as nat); }
            return;
        },
    };
    let mut row: usize = 0;
    let rows: usize = height_px as usize;
    while row < rows
        invariant
            visible == width_px * 4,
            rows == height_px,
            n == original.len(),
            original == old(buffer)@,
            row <= rows,
            buffer@ == rows_swapped(original, visible as int, stride as int, row as nat),
        decreases rows - row,
    {
        proof { lemma_rows_swapped_len(original, visible as int, stride as int, row as nat); }
        let fits: bool = match row.checked_mul(stride) {
            Some(s) => match s.checked_add(visible) {
                Some(e) => e <= n,
                None => false,
            },
            None => false,
        };
        if !fits {
            proof { lemma_rows_stop(original, visible as int, stride as int, row as nat, rows as nat); }
            return;
        }
        let start = row * stride;
        let end = start + visible;
        swap_segment(buffer, start, end);
        row = row + 1;
    }
}

/// Exchanging red and blue twice gives back the buffer it started from.
pub proof fn law_swap_twice_is_identity(s: Seq<u8>)
    ensures
        swapped(swapped(s)) == s,
{
    assert forall|i: int| 0 <= i < s.len() implies #[trigger] swapped(swapped(s))[i] == s[i] by {
        let t = swapped(s);
        if (i / 4) * 4 + 4 <= s.len() {
            if i % 4 == 0 {
                assert(((i + 2) / 4) * 4 == (i / 4) * 4);
            } else if i % 4 == 2 {
                assert(((i - 2) / 4) * 4 == (i / 4) * 4);
            }
        }
    }
    assert(swapped(swapped(s)) =~= s);
}

/// An owned pixel buffer. Used for cached and off-screen renders.
#[derive(Debug, Clone, PartialEq, Eq)]
pub struct Bitmap {
    pub width: u32,
    pub height: u32,
    pub stride: usize,
    pub order: PixelOrder,
    pub data: Vec<u8>,
}

impl Bitmap {
    pub fn new(width: u32, height: u32, order: PixelOrder) -> (r: Result<Self>)
        ensures
            r is Err <==> !dimensions_ok(width, height),
            r is Err ==> dimensions_verdict(width, height, Err(r->Err_0)),
            r matches Ok(b) ==> b.width == width && b.height == height && b.order == order
                && b.stride == width * 4 && b.data@ == Seq::new((width * 4 * height) as nat, |i: int| 0u8),
    {
        match validate_dimensions(width, height) {
            Err(e) => return Err(e),
            Ok(()) => {},
        }
        let stride: usize = width as usize * BYTES_PER_PIXEL;
        assert(stride * height <= 65536 * 16384) by (nonlinear_arith)
            requires stride == width * 4, width <= 16384, height <= 16384;
        let len: usize = stride * height as usize;
        let data: Vec<u8> = vec![0u8; len];
        proof { assert(data@ =~= Seq::new((width * 4 * height) as nat, |i: int| 0u8)); }
        Ok(Bitmap { width, height, stride, order, data })
    }

    pub fn byte_len(&self) -> (r: usize)
        ensures
            r == self.data@.len(),
    {
        self.data.len()
    }

    /// Convert in place to the requested order. A no-op when already correct.
    pub fn convert_to(&mut self, order: PixelOrder)
        ensures
            final(self).order == order,
            final(self).width == old(self).width,
            final(self).height == old(self).height,
            final(self).stride == old(self).stride,
            final(self).data@ == if old(self).order == order { old(self).data@ } else {
                rows_swapped(old(self).data@, old(self).width * 4, old(self).stride as int, old(self).height as nat)
            },
    {
        if self.order == order {
            return;
        }
        swap_red_blue_rows(self.data.as_mut_slice(), self.width, self.height, self.stride);
        self.order = order;
    }
}

} // verus!
