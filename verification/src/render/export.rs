//! What a capture is encoded as, and the names the app sends for it.

use image::ImageEncoder;
use vstd::prelude::*;
use crate::error::{PdfError, Result};
use crate::render::bitmap::{Bitmap, PixelOrder};
use crate::render::bitmap_holds_rows;
use crate::text::lower;

verus! {

/// What to encode a capture as.
///
/// PNG is the default because a page is line art and type, where PNG is both
/// lossless and small. JPEG exists for the other case: a scanned page is a
/// photograph, and a lossless encode of a photograph is enormous.
#[derive(Debug, Clone, Copy, PartialEq, Eq, Structural)]
pub enum ImageFormat {
    Png,
    /// Quality is clamped to 1..=100 when encoding.
    Jpeg {
        quality: u8,
    },
}

/// A name in ASCII lower case, as `str::to_ascii_lowercase` gives it.
#[verifier::external_body]
fn ascii_lowercase(name: &str) -> (r: String)
    ensures
        r@ == lower(name@),
{
    name.to_ascii_lowercase()
}

/// The format a lower-cased name stands for.
pub open spec fn format_named(name: Seq<char>, quality: u8) -> Option<ImageFormat> {
    if name == "png"@ {
        Some(ImageFormat::Png)
    } else if name == "jpeg"@ || name == "jpg"@ {
        Some(ImageFormat::Jpeg { quality })
    } else {
        None
    }
}

impl ImageFormat {
    /// The extension to save under, so callers do not each invent one.
    pub fn extension(self) -> (r: &'static str)
        ensures
            r@ == (if self is Png { "png"@ } else { "jpg"@ }),
    {
        match self {
            ImageFormat::Png => "png",
            ImageFormat::Jpeg { .. } => "jpg",
        }
    }

    pub fn mime_type(self) -> (r: &'static str)
        ensures
            r@ == (if self is Png { "image/png"@ } else { "image/jpeg"@ }),
    {
        match self {
            ImageFormat::Png => "image/png",
            ImageFormat::Jpeg { .. } => "image/jpeg",
        }
    }

    /// Parse the name the app sends across the wire, in any case.
    pub fn parse(name: &str, quality: u8) -> (r: Result<ImageFormat>)
        ensures
            match format_named(lower(name@), quality) {
                Some(f) => r == Ok::<ImageFormat, PdfError>(f),
                None => r matches Err(PdfError::InvalidArgument(_)),
            },
    {
        let lowered = ascii_lowercase(name);
        let png = String::from_str("png");
        let jpeg = String::from_str("jpeg");
        let jpg = String::from_str("jpg");
        if lowered == png {
            Ok(ImageFormat::Png)
        } else if lowered == jpeg || lowered == jpg {
            Ok(ImageFormat::Jpeg { quality })
        } else {
            let mut m = String::from_str("unknown export format \"");
            m.append(lowered.as_str());
            m.append("\"; expected png or jpeg");
            Err(PdfError::InvalidArgument(m))
        }
    }
}


// ---------------------------------------------------------------------------
// Encoding.

/// The PNG the `image` crate writes of some pixels at best compression and
/// adaptive filtering, RGBA when `alpha` and RGB otherwise; `None` where the
/// encoder refuses them.
pub uninterp spec fn png_encoding(pixels: Seq<u8>, width: u32, height: u32, alpha: bool) -> Option<Seq<u8>>;

/// The JPEG the `image` crate writes of some RGB pixels at a quality; `None`
/// where the encoder refuses them.
pub uninterp spec fn jpeg_encoding(pixels: Seq<u8>, width: u32, height: u32, quality: u8) -> Option<Seq<u8>>;

/// `image::codecs::png::PngEncoder::new_with_quality` (best compression,
/// adaptive filter), then `write_image`: the PNG of the pixels, named as a
/// function of them, the size and whether there is alpha, and whether it
/// succeeds named likewise. The encoder asserts that the buffer holds
/// exactly the pixels the size calls for, which the `requires` says.
#[verifier::external_body]
fn png_of(pixels: &[u8], width: u32, height: u32, alpha: bool) -> (r: core::result::Result<Vec<u8>, String>)
    requires
        pixels@.len() == width * height * (if alpha { 4int } else { 3int }),
    ensures
        match png_encoding(pixels@, width, height, alpha) {
            Some(bytes) => r matches Ok(v) && v@ == bytes,
            None => r is Err,
        },
{
    let mut out = Vec::new();
    let colour = if alpha { image::ExtendedColorType::Rgba8 } else { image::ExtendedColorType::Rgb8 };
    let encoder = image::codecs::png::PngEncoder::new_with_quality(&mut out,
        image::codecs::png::CompressionType::Best, image::codecs::png::FilterType::Adaptive);
    match encoder.write_image(pixels, width, height, colour) {
        Ok(()) => Ok(out),
        Err(e) => Err(format!("{e}")),
    }
}

/// `image::codecs::jpeg::JpegEncoder::new_with_quality`, then `write_image`
/// of RGB pixels: the JPEG, named as a function of the pixels, the size and
/// the quality, and whether it succeeds named likewise. The encoder asserts
/// that the buffer holds exactly the RGB pixels the size calls for, which the
/// `requires` says.
#[verifier::external_body]
fn jpeg_of(pixels: &[u8], width: u32, height: u32, quality: u8) -> (r: core::result::Result<Vec<u8>, String>)
    requires
        pixels@.len() == width * height * 3,
    ensures
        match jpeg_encoding(pixels@, width, height, quality) {
            Some(bytes) => r matches Ok(v) && v@ == bytes,
            None => r is Err,
        },
{
    let mut out = Vec::new();
    let encoder = image::codecs::jpeg::JpegEncoder::new_with_quality(&mut out, quality);
    match encoder.write_image(pixels, width, height, image::ExtendedColorType::Rgb8) {
        Ok(()) => Ok(out),
        Err(e) => Err(format!("{e}")),
    }
}

/// Where byte `k` of pixel `(row, column)` sits.
pub open spec fn at(b: Bitmap, row: int, column: int, k: int) -> int {
    row * b.stride + column * 4 + k
}

/// Whether a bitmap's buffer holds every visible pixel.
pub open spec fn encodable(b: Bitmap) -> bool {
    b.height == 0 || bitmap_holds_rows(b)
}

/// Whether any pixel is less than fully opaque.
pub open spec fn transparent(b: Bitmap) -> bool {
    exists|row: int, column: int| 0 <= row < b.height && 0 <= column < b.width
        && #[trigger] b.data@[at(b, row, column, 3)] != 255
}

/// Channel `k` of a pixel in RGBA order, whatever order the bitmap keeps.
pub open spec fn channel(b: Bitmap, row: int, column: int, k: int) -> u8 {
    match b.order {
        PixelOrder::Rgba => b.data@[at(b, row, column, k)],
        PixelOrder::Bgra => if k < 3 { b.data@[at(b, row, column, 2 - k)] } else { b.data@[at(b, row, column, 3)] },
    }
}

/// One visible row, `n` channels a pixel (3 or 4), in RGB(A) order.
pub open spec fn row_pixels(b: Bitmap, row: int, n: int) -> Seq<u8> {
    Seq::new((b.width * n) as nat, |j: int| channel(b, row, j / n, j % n))
}

/// The first `rows` visible rows, without padding, `n` channels a pixel.
pub open spec fn pixels(b: Bitmap, rows: int, n: int) -> Seq<u8>
    decreases rows,
{
    if rows <= 0 { Seq::empty() } else { pixels(b, rows - 1, n) + row_pixels(b, rows - 1, n) }
}

proof fn lemma_pixels_len(b: Bitmap, rows: int, n: int)
    requires
        rows >= 0,
        n >= 0,
    ensures
        pixels(b, rows, n).len() == rows * (b.width * n),
    decreases rows,
{
    if rows > 0 {
        lemma_pixels_len(b, rows - 1, n);
        assert(b.width * n >= 0) by (nonlinear_arith) requires n >= 0;
        assert(row_pixels(b, rows - 1, n).len() == b.width * n);
        assert(pixels(b, rows, n) == pixels(b, rows - 1, n) + row_pixels(b, rows - 1, n));
        assert((rows - 1) * (b.width * n) + b.width * n == rows * (b.width * n)) by (nonlinear_arith);
        assert(pixels(b, rows, n).len() == (rows - 1) * (b.width * n) + b.width * n);
    } else {
        assert(rows * (b.width * n) == 0) by (nonlinear_arith) requires rows == 0;
    }
}

proof fn lemma_row_inside(b: Bitmap, row: int)
    requires
        bitmap_holds_rows(b),
        0 <= row < b.height,
    ensures
        row * b.stride + b.width * 4 <= b.data@.len(),
        0 <= row * b.stride,
{
    assert(row * b.stride <= b.stride * (b.height - 1)) by (nonlinear_arith)
        requires 0 <= row <= b.height - 1, b.stride >= 0;
    assert(0 <= row * b.stride) by (nonlinear_arith)
        requires 0 <= row, b.stride >= 0;
}

/// Whether any pixel is less than fully opaque.
fn has_transparency(bitmap: &Bitmap) -> (r: bool)
    requires
        encodable(*bitmap),
    ensures
        r == transparent(*bitmap),
{
    let width = bitmap.width as usize;
    let len = bitmap.data.len();
    let mut row: usize = 0;
    while row < bitmap.height as usize
        invariant
            encodable(*bitmap),
            len == bitmap.data@.len(),
            width == bitmap.width,
            row <= bitmap.height,
            forall|r: int, c: int| 0 <= r < row && 0 <= c < bitmap.width ==> #[trigger] bitmap.data@[at(*bitmap, r, c, 3)] == 255,
        decreases bitmap.height - row,
    {
        proof {
            lemma_row_inside(*bitmap, row as int);
        }
        let start = row * bitmap.stride;
        let mut column: usize = 0;
        while column < width
            invariant
                encodable(*bitmap),
                bitmap_holds_rows(*bitmap),
                width == bitmap.width,
                row < bitmap.height,
                start == row * bitmap.stride,
                len == bitmap.data@.len(),
                start + width * 4 <= bitmap.data@.len(),
                column <= width,
                forall|r: int, c: int| 0 <= r < row && 0 <= c < bitmap.width ==> #[trigger] bitmap.data@[at(*bitmap, r, c, 3)] == 255,
                forall|c: int| 0 <= c < column ==> #[trigger] bitmap.data@[at(*bitmap, row as int, c, 3)] == 255,
            decreases width - column,
        {
            if bitmap.data[start + column * 4 + 3] != 255 {
                proof {
                    assert(bitmap.data@[at(*bitmap, row as int, column as int, 3)] != 255);
                }
                return true;
            }
            column = column + 1;
        }
        row = row + 1;
    }
    false
}

/// The visible rows, `channels` (3 or 4) a pixel, in RGB(A) order whatever
/// order the bitmap keeps; padding and, for three, alpha dropped.
fn visible_pixels(bitmap: &Bitmap, channels: usize) -> (r: Vec<u8>)
    requires
        encodable(*bitmap),
        channels == 3 || channels == 4,
    ensures
        r@ == pixels(*bitmap, bitmap.height as int, channels as int),
{
    let width = bitmap.width as usize;
    let len = bitmap.data.len();
    let mut out: Vec<u8> = Vec::new();
    let mut row: usize = 0;
    while row < bitmap.height as usize
        invariant
            encodable(*bitmap),
            len == bitmap.data@.len(),
            channels == 3 || channels == 4,
            width == bitmap.width,
            row <= bitmap.height,
            out@ == pixels(*bitmap, row as int, channels as int),
        decreases bitmap.height - row,
    {
        proof {
            lemma_row_inside(*bitmap, row as int);
        }
        let start = row * bitmap.stride;
        let ghost before = out@;
        let mut column: usize = 0;
        while column < width
            invariant
                bitmap_holds_rows(*bitmap),
                channels == 3 || channels == 4,
                width == bitmap.width,
                row < bitmap.height,
                start == row * bitmap.stride,
                len == bitmap.data@.len(),
                start + width * 4 <= bitmap.data@.len(),
                column <= width,
                out@ == before + row_pixels(*bitmap, row as int, channels as int).subrange(0, (column * channels) as int),
            decreases width - column,
        {
            let p = start + column * 4;
            let (a, b, c) = match bitmap.order {
                PixelOrder::Rgba => (bitmap.data[p], bitmap.data[p + 1], bitmap.data[p + 2]),
                PixelOrder::Bgra => (bitmap.data[p + 2], bitmap.data[p + 1], bitmap.data[p]),
            };
            out.push(a);
            out.push(b);
            out.push(c);
            if channels == 4 {
                out.push(bitmap.data[p + 3]);
            }
            proof {
                let n = channels as int;
                let all = row_pixels(*bitmap, row as int, n);
                assert((column + 1) * n <= width * n) by (nonlinear_arith)
                    requires column + 1 <= width, n > 0;
                assert((column + 1) * n == column * n + n) by (nonlinear_arith);
                assert forall|j: int| column * n <= j < (column + 1) * n implies #[trigger] all[j]
                    == channel(*bitmap, row as int, column as int, j - column * n) by {
                    vstd::arithmetic::div_mod::lemma_fundamental_div_mod_converse(j, n, column as int, j - column * n);
                }
                assert(out@ =~= before + all.subrange(0, (column + 1) * n));
            }
            column = column + 1;
        }
        proof {
            assert(row_pixels(*bitmap, row as int, channels as int).subrange(0, (width * channels) as int)
                =~= row_pixels(*bitmap, row as int, channels as int));
            assert(pixels(*bitmap, row + 1, channels as int) == pixels(*bitmap, row as int, channels as int)
                + row_pixels(*bitmap, row as int, channels as int));
        }
        row = row + 1;
    }
    out
}

/// The quality a JPEG is written at: clamped to 1..=100.
pub open spec fn clamped_quality(q: u8) -> u8 {
    if q < 1 { 1 } else if q > 100 { 100 } else { q }
}

/// What encoding a bitmap gives: a transparent PNG when any pixel is less
/// than opaque, an opaque one otherwise, and always an opaque JPEG.
pub open spec fn encoding(b: Bitmap, format: ImageFormat) -> Option<Seq<u8>> {
    match format {
        ImageFormat::Png => if transparent(b) {
            png_encoding(pixels(b, b.height as int, 4), b.width, b.height, true)
        } else {
            png_encoding(pixels(b, b.height as int, 3), b.width, b.height, false)
        },
        ImageFormat::Jpeg { quality } => jpeg_encoding(pixels(b, b.height as int, 3), b.width, b.height,
            clamped_quality(quality)),
    }
}

/// Encode a bitmap as an image file.
///
/// JPEG is always **opaque RGB**; the format has no alpha. PNG keeps
/// transparency when the picture actually has any, and drops the channel
/// when it does not.
pub fn encode(bitmap: &Bitmap, format: ImageFormat) -> (r: Result<Vec<u8>>)
    requires
        encodable(*bitmap),
    ensures
        match encoding(*bitmap, format) {
            Some(bytes) => r matches Ok(v) && v@ == bytes,
            None => r matches Err(PdfError::InvalidBitmap(_)),
        },
{
    proof {
        lemma_pixels_len(*bitmap, bitmap.height as int, 3);
        lemma_pixels_len(*bitmap, bitmap.height as int, 4);
        assert(bitmap.height * (bitmap.width * 3) == bitmap.width * bitmap.height * 3) by (nonlinear_arith);
        assert(bitmap.height * (bitmap.width * 4) == bitmap.width * bitmap.height * 4) by (nonlinear_arith);
    }
    let encoded = match format {
        ImageFormat::Png => {
            if has_transparency(bitmap) {
                let rgba = visible_pixels(bitmap, 4);
                match png_of(rgba.as_slice(), bitmap.width, bitmap.height, true) {
                    Ok(v) => Ok(v),
                    Err(e) => Err(String::from_str("png encode failed: ").concat(e.as_str())),
                }
            } else {
                let rgb = visible_pixels(bitmap, 3);
                match png_of(rgb.as_slice(), bitmap.width, bitmap.height, false) {
                    Ok(v) => Ok(v),
                    Err(e) => Err(String::from_str("png encode failed: ").concat(e.as_str())),
                }
            }
        },
        ImageFormat::Jpeg { quality } => {
            let q = if quality < 1 { 1 } else if quality > 100 { 100 } else { quality };
            let rgb = visible_pixels(bitmap, 3);
            match jpeg_of(rgb.as_slice(), bitmap.width, bitmap.height, q) {
                Ok(v) => Ok(v),
                Err(e) => Err(String::from_str("jpeg encode failed: ").concat(e.as_str())),
            }
        },
    };
    match encoded {
        Ok(v) => Ok(v),
        Err(m) => Err(PdfError::InvalidBitmap(m)),
    }
}

} // verus!
