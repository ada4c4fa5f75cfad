//! Rasterisation: where a page gets drawn to, and how cached rasters get there.

pub mod bitmap;
pub mod cache;
pub mod export;

use vstd::prelude::*;
use crate::error::{PdfError, Result};
use crate::text::{decimal, push_decimal};
use bitmap::{Bitmap, PixelOrder, BYTES_PER_PIXEL, dimensions_ok, dimensions_verdict, rows_swapped};

verus! {

/// Default cache budget: roughly three or four full-screen pages.
pub const DEFAULT_CACHE_BUDGET_BYTES: usize = 50_331_648;

/// A borrowed destination for a render.
///
/// The buffer is borrowed rather than owned so the on-screen path can point
/// straight at an Android bitmap's locked pixels.
pub struct RenderTarget<'a> {
    pub width: u32,
    pub height: u32,
    /// Bytes per row, which may exceed `width * 4` when the destination pads rows.
    pub stride: usize,
    /// The byte order the consumer expects, not what PDFium produces.
    pub order: PixelOrder,
    pub pixels: &'a mut [u8],
}

/// The bytes a render of this shape needs: every row at `stride`, but only
/// the visible part of the last one.
pub open spec fn required_bytes(width: u32, height: u32, stride: usize) -> int {
    stride * (height - 1) + width * 4
}

/// Whether a buffer of `len` bytes can hold a render of this shape.
pub open spec fn target_ok(width: u32, height: u32, stride: usize, len: int) -> bool {
    dimensions_ok(width, height) && stride >= width * 4 && len >= required_bytes(width, height, stride)
}

impl<'a> RenderTarget<'a> {
    pub fn new(
        width: u32,
        height: u32,
        stride: usize,
        order: PixelOrder,
        pixels: &'a mut [u8],
    ) -> (r: Result<Self>)
        ensures
            r is Ok <==> target_ok(width, height, stride, old(pixels)@.len() as int),
            !dimensions_ok(width, height) ==> dimensions_verdict(width, height, Err(r->Err_0)),
            dimensions_ok(width, height) && !target_ok(width, height, stride, old(pixels)@.len() as int)
                ==> r matches Err(PdfError::InvalidBitmap(_)),
            r matches Ok(t) ==> t.width == width && t.height == height && t.stride == stride
                && t.order == order && t.pixels@ == old(pixels)@,
            r matches Ok(t) ==> final(t.pixels)@ == final(pixels)@,
            r is Err ==> final(pixels)@ == old(pixels)@,
    {
        match bitmap::validate_dimensions(width, height) {
            Err(e) => return Err(e),
            Ok(()) => {},
        }
        let minimum_stride: usize = width as usize * BYTES_PER_PIXEL;
        if stride < minimum_stride {
            let mut m = String::from_str("stride ");
            push_decimal(&mut m, stride as u64);
            m.append(" is too small for a ");
            push_decimal(&mut m, width as u64);
            m.append("px-wide row (needs ");
            push_decimal(&mut m, minimum_stride as u64);
            m.append(")");
            return Err(PdfError::InvalidBitmap(m));
        }
        let len = pixels.len();
        let rows_before: usize = height as usize - 1;
        if rows_before > 0 && stride > (len / rows_before) {
            proof {
                assert(stride * rows_before > len) by (nonlinear_arith)
                    requires stride > len / rows_before, rows_before > 0;
            }
            return Err(PdfError::InvalidBitmap(Self::too_small(len, width, height, stride, None)));
        }
        proof {
            assert(stride * rows_before <= len) by (nonlinear_arith)
                requires rows_before == 0 || stride <= len / rows_before;
        }
        let before: usize = stride * rows_before;
        if len - before < minimum_stride {
            return Err(PdfError::InvalidBitmap(Self::too_small(len, width, height, stride, before.checked_add(minimum_stride))));
        }
        Ok(RenderTarget { width, height, stride, order, pixels })
    }

    fn too_small(len: usize, width: u32, height: u32, stride: usize, required: Option<usize>) -> (m: String)
        ensures
            m@ == "buffer holds "@ + decimal(len as nat) + " bytes but a "@ + decimal(width as nat) + "x"@
                + decimal(height as nat) + " render at stride "@ + decimal(stride as nat) + " needs "@
                + match required {
                    Some(n) => decimal(n as nat),
                    None => "more than that"@,
                },
    {
        let mut m = String::from_str("buffer holds ");
        push_decimal(&mut m, len as u64);
        m.append(" bytes but a ");
        push_decimal(&mut m, width as u64);
        m.append("x");
        push_decimal(&mut m, height as u64);
        m.append(" render at stride ");
        push_decimal(&mut m, stride as u64);
        m.append(" needs ");
        match required {
            Some(n) => push_decimal(&mut m, n as u64),
            None => m.append("more than that"),
        }
        m
    }

    /// Borrow the whole of an owned [`Bitmap`] as a render destination.
    pub fn from_bitmap(bmp: &'a mut Bitmap) -> (r: Result<Self>)
        ensures
            r is Ok <==> target_ok(old(bmp).width, old(bmp).height, old(bmp).stride, old(bmp).data@.len() as int),
            r matches Ok(t) ==> t.width == old(bmp).width && t.height == old(bmp).height
                && t.stride == old(bmp).stride && t.order == old(bmp).order && t.pixels@ == old(bmp).data@,
            final(bmp).width == old(bmp).width,
            final(bmp).height == old(bmp).height,
            final(bmp).stride == old(bmp).stride,
            final(bmp).order == old(bmp).order,
            r matches Ok(t) ==> final(t.pixels)@ == final(bmp).data@,
            r is Err ==> final(bmp).data@ == old(bmp).data@,
    {
        let (width, height, stride, order) = (bmp.width, bmp.height, bmp.stride, bmp.order);
        RenderTarget::new(width, height, stride, order, bmp.data.as_mut_slice())
    }

    pub fn is_tightly_packed(&self) -> (r: bool)
        ensures
            r == (self.stride == self.width * 4),
    {
        self.stride as u64 == self.width as u64 * 4
    }

    /// Reinterpret whatever PDFium just wrote (always BGRA) as the order this
    /// target's consumer expects. Safe to call unconditionally.
    pub fn normalise_from_pdfium(&mut self)
        ensures
            final(self).width == old(self).width,
            final(self).height == old(self).height,
            final(self).stride == old(self).stride,
            final(self).order == old(self).order,
            final(self).pixels@ == if old(self).order == PixelOrder::Bgra { old(self).pixels@ } else {
                rows_swapped(old(self).pixels@, old(self).width * 4, old(self).stride as int, old(self).height as nat)
            },
    {
        if self.order == PixelOrder::Bgra {
            return;
        }
        bitmap::swap_red_blue_rows(self.pixels, self.width, self.height, self.stride);
    }
}

/// A blit in progress: rows before `row` copied in full, and the first `k`
/// visible bytes of row `row`; every other byte still as the target had it.
pub open spec fn blit_progress(dst: Seq<u8>, src: Seq<u8>, visible: int, dstride: int, sstride: int, row: int, k: int) -> Seq<u8> {
    Seq::new(dst.len(), |i: int| {
        let r = i / dstride;
        let c = i % dstride;
        if c < visible && (r < row || (r == row && c < k)) { src[r * sstride + c] } else { dst[i] }
    })
}

/// Every visible byte of the first `rows` rows taken from `src`, row by row at
/// each buffer's own stride; padding and everything past the last row untouched.
pub open spec fn blitted(dst: Seq<u8>, src: Seq<u8>, visible: int, dstride: int, sstride: int, rows: int) -> Seq<u8> {
    blit_progress(dst, src, visible, dstride, sstride, rows, 0)
}

/// Whether a bitmap's buffer holds every row its stride and height describe.
pub open spec fn bitmap_holds_rows(b: Bitmap) -> bool {
    b.stride >= b.width * 4 && b.height >= 1 && b.stride * (b.height - 1) + b.width * 4 <= b.data@.len()
}

impl<'a> RenderTarget<'a> {
    /// Blit a cached raster into this target: a copy instead of a re-render.
    pub fn copy_from(&mut self, source: &Bitmap) -> (r: Result<()>)
        requires
            target_ok(old(self).width, old(self).height, old(self).stride, old(self).pixels@.len() as int),
            (source.width == old(self).width && source.height == old(self).height) ==> bitmap_holds_rows(*source),
        ensures
            final(self).width == old(self).width,
            final(self).height == old(self).height,
            final(self).stride == old(self).stride,
            final(self).order == old(self).order,
            r is Err <==> (source.width != old(self).width || source.height != old(self).height),
            r is Err ==> (r matches Err(PdfError::InvalidBitmap(_)) && final(self).pixels@ == old(self).pixels@),
            r is Ok ==> {
                let copied = blitted(old(self).pixels@, source.data@, old(self).width * 4,
                    old(self).stride as int, source.stride as int, old(self).height as int);
                final(self).pixels@ == if source.order == old(self).order { copied } else {
                    rows_swapped(copied, old(self).width * 4, old(self).stride as int, old(self).height as nat)
                }
            },
    {
        if source.width != self.width || source.height != self.height {
            let mut m = String::from_str("cached page is ");
            push_decimal(&mut m, source.width as u64);
            m.append("x");
            push_decimal(&mut m, source.height as u64);
            m.append(" but the target is ");
            push_decimal(&mut m, self.width as u64);
            m.append("x");
            push_decimal(&mut m, self.height as u64);
            return Err(PdfError::InvalidBitmap(m));
        }
        let ghost original = self.pixels@;
        let plen = self.pixels.len();
        let slen = source.data.len();
        let visible: usize = self.width as usize * BYTES_PER_PIXEL;
        let rows: usize = self.height as usize;
        let dstride = self.stride;
        let sstride = source.stride;
        let mut row: usize = 0;
        while row < rows
            invariant
                visible == self.width * 4,
                rows == self.height,
                dstride == self.stride,
                sstride == source.stride,
                visible > 0,
                dstride >= visible,
                sstride >= visible,
                rows >= 1,
                dstride * (rows - 1) + visible <= original.len(),
                sstride * (rows - 1) + visible <= source.data@.len(),
                row <= rows,
                original == old(self).pixels@,
                plen == original.len(),
                slen == source.data@.len(),
                self.width == old(self).width,
                self.height == old(self).height,
                self.stride == old(self).stride,
                self.order == old(self).order,
                self.pixels@ == blit_progress(original, source.data@, visible as int, dstride as int, sstride as int, row as int, 0),
            decreases rows - row,
        {
            proof {
                assert(dstride * row <= dstride * (rows - 1)) by (nonlinear_arith)
                    requires row <= rows - 1;
                assert(sstride * row <= sstride * (rows - 1)) by (nonlinear_arith)
                    requires row <= rows - 1;
            }
            let dst: usize = row * dstride;
            let src: usize = row * sstride;
            let mut k: usize = 0;
            while k < visible
                invariant
                    visible > 0,
                    dstride >= visible,
                    dst == row * dstride,
                    src == row * sstride,
                    dst + visible <= original.len(),
                    src + visible <= source.data@.len(),
                    k <= visible,
                    plen == original.len(),
                    slen == source.data@.len(),
                    self.width == old(self).width,
                    self.height == old(self).height,
                    self.stride == old(self).stride,
                    self.order == old(self).order,
                    self.pixels@.len() == original.len(),
                    self.pixels@ == blit_progress(original, source.data@, visible as int, dstride as int, sstride as int, row as int, k as int),
                decreases visible - k,
            {
                let byte = source.data[src + k];
                let ghost before = self.pixels@;
                self.pixels[dst + k] = byte;
                proof {
                    let idx = (dst + k) as int;
                    vstd::arithmetic::div_mod::lemma_fundamental_div_mod_converse(idx, dstride as int, row as int, k as int);
                    assert forall|i: int| 0 <= i < original.len() implies
                        #[trigger] self.pixels@[i] == blit_progress(original, source.data@, visible as int, dstride as int, sstride as int, row as int, (k + 1) as int)[i] by {
                        vstd::arithmetic::div_mod::lemma_fundamental_div_mod(i, dstride as int);
                        if i != idx {
                            if i / (dstride as int) == row as int && i % (dstride as int) == k as int {
                                assert(i == dstride * (i / (dstride as int)) + i % (dstride as int));
                                assert(i == idx) by (nonlinear_arith)
                                    requires i == dstride * (i / (dstride as int)) + i % (dstride as int),
                                        i / (dstride as int) == row as int, i % (dstride as int) == k as int,
                                        idx == row * dstride + k;
                            }
                        }
                    }
                    assert(self.pixels@ =~= blit_progress(original, source.data@, visible as int, dstride as int, sstride as int, row as int, (k + 1) as int));
                }
                k = k + 1;
            }
            proof {
                assert(self.pixels@ =~= blit_progress(original, source.data@, visible as int, dstride as int, sstride as int, (row + 1) as int, 0));
            }
            row = row + 1;
        }
        if source.order != self.order {
            bitmap::swap_red_blue_rows(self.pixels, self.width, self.height, self.stride);
        }
        Ok(())
    }
}

} // verus!
