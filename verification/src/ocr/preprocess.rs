//! Getting a rendered page into the shape a recogniser wants: greyscale,
//! then contrast.
//!
//! Both are computed in whole numbers. Luma is rounded to the nearest level,
//! halves up; the contrast stretch truncates, as a cast to a byte does.

use vstd::prelude::*;
use crate::ocr::GreyImage;

verus! {

/// The standard luma weights, rounded to the nearest grey level.
pub open spec fn luma(r: u8, g: u8, b: u8) -> u8 {
    ((299 * r + 587 * g + 114 * b + 500) / 1000) as u8
}

/// The grey level of pixel `i` of an RGBA buffer: white when the buffer is
/// too short to hold the pixel's colour.
pub open spec fn grey_at(pixels: Seq<u8>, i: int) -> u8 {
    if 4 * i + 2 >= pixels.len() { 0xFF } else { luma(pixels[4 * i], pixels[4 * i + 1], pixels[4 * i + 2]) }
}

/// RGBA → greyscale, using the standard luma weights.
///
/// Not a plain average: the eye is far more sensitive to green than to blue.
/// A buffer too short for the image gives white rather than panicking.
///
/// The weighting is done in whole numbers, exactly: where a weighted sum lands
/// within a float's rounding error of a half level, a floating-point
/// computation of the same weights can come out one level different.
pub fn to_grey(pixels: &[u8], width: u32, height: u32) -> (r: GreyImage)
    requires
        width * height <= usize::MAX,
    ensures
        r.width == width,
        r.height == height,
        r.well_formed(),
        forall|i: int| 0 <= i < width * height ==> #[trigger] r.data@[i] == grey_at(pixels@, i),
{
    let count: usize = width as usize * height as usize;
    let len = pixels.len();
    let mut data: Vec<u8> = Vec::new();
    let mut i: usize = 0;
    while i < count
        invariant
            count == width * height,
            len == pixels@.len(),
            i <= count,
            data@.len() == i,
            forall|j: int| 0 <= j < i ==> #[trigger] data@[j] == grey_at(pixels@, j),
        decreases count - i,
    {
        let short = len < 3 || i > (len - 3) / 4;
        proof {
            if len >= 3 {
                assert(short <==> 4 * i + 2 >= len) by (nonlinear_arith)
                    requires len >= 3, short == (i > (len - 3) / 4);
            }
        }
        if short {
            data.push(0xFF);
        } else {
            let at = i * 4;
            let r = pixels[at] as u32;
            let g = pixels[at + 1] as u32;
            let b = pixels[at + 2] as u32;
            let value = (299 * r + 587 * g + 114 * b + 500) / 1000;
            data.push(value as u8);
        }
        i = i + 1;
    }
    GreyImage { width, height, data }
}

/// How many of `data` are at most `v`.
pub open spec fn count_at_most(data: Seq<u8>, v: int) -> nat
    decreases data.len(),
{
    if data.len() == 0 {
        0
    } else {
        count_at_most(data.drop_last(), v) + if data.last() <= v { 1nat } else { 0nat }
    }
}

/// How many of `data` are at least `v`.
pub open spec fn count_at_least(data: Seq<u8>, v: int) -> nat
    decreases data.len(),
{
    if data.len() == 0 {
        0
    } else {
        count_at_least(data.drop_last(), v) + if data.last() >= v { 1nat } else { 0nat }
    }
}

/// The darkest level below which no more than `cut` pixels lie: the smallest
/// level with more than `cut` pixels at or below it.
pub open spec fn dark_percentile(data: Seq<u8>, cut: int, low: int) -> bool {
    0 <= low <= 255 && count_at_most(data, low) > cut
        && forall|v: int| 0 <= v < low ==> count_at_most(data, v) <= cut
}

/// The lightest level with more than `cut` pixels at or above it.
pub open spec fn light_percentile(data: Seq<u8>, cut: int, high: int) -> bool {
    0 <= high <= 255 && count_at_least(data, high) > cut
        && forall|v: int| high < v <= 255 ==> count_at_least(data, v) <= cut
}

/// One level after the stretch from `low..high` to the full range.
pub open spec fn stretched(v: u8, low: int, high: int) -> u8 {
    if v <= low { 0 } else if v >= high { 255 } else { ((v - low) * 255 / (high - low)) as u8 }
}

/// What `normalise_contrast` does to an image's levels.
pub open spec fn contrast_result(data: Seq<u8>, out: Seq<u8>) -> bool {
    let cut = data.len() / 50;
    if data.len() == 0 {
        out == data
    } else {
        exists|low: int, high: int| #[trigger] dark_percentile(data, cut as int, low) && #[trigger] light_percentile(data, cut as int, high) && {
            if high <= low || high - low < 16 {
                out == data
            } else {
                out.len() == data.len() && forall|i: int| 0 <= i < data.len() ==> #[trigger] out[i] == stretched(data[i], low, high)
            }
        }
    }
}

proof fn lemma_count_bounds(data: Seq<u8>, v: int)
    ensures
        count_at_most(data, v) <= data.len(),
        count_at_least(data, v) <= data.len(),
        v >= 255 ==> count_at_most(data, v) == data.len(),
        v <= 0 ==> count_at_least(data, v) == data.len(),
    decreases data.len(),
{
    if data.len() > 0 {
        lemma_count_bounds(data.drop_last(), v);
    }
}

/// How many pixels sit at each level.
fn histogram_of(data: &Vec<u8>) -> (h: Vec<usize>)
    ensures
        h@.len() == 256,
        forall|v: int| 0 <= v < 256 ==> #[trigger] h@[v] == count_exactly(data@, v),
{
    let n = data.len();
    let mut histogram: Vec<usize> = vec![0usize; 256];
    let mut i: usize = 0;
    while i < n
        invariant
            n == data@.len(),
            i <= n,
            histogram@.len() == 256,
            forall|v: int| 0 <= v < 256 ==> #[trigger] histogram@[v] == count_exactly(data@.subrange(0, i as int), v),
            forall|v: int| 0 <= v < 256 ==> #[trigger] histogram@[v] <= i,
        decreases n - i,
    {
        let value = data[i] as usize;
        let ghost before = data@.subrange(0, i as int);
        let ghost after = data@.subrange(0, i + 1);
        proof { assert(after.drop_last() =~= before); }
        let c = histogram[value];
        histogram.set(value, c + 1);
        proof {
            assert forall|v: int| 0 <= v < 256 implies #[trigger] histogram@[v] == count_exactly(after, v) by {
                assert(count_exactly(after, v) == count_exactly(before, v) + if data@[i as int] == v { 1nat } else { 0nat });
            }
        }
        i = i + 1;
    }
    proof { assert(data@.subrange(0, n as int) =~= data@); }
    histogram
}

proof fn lemma_at_most_below(data: Seq<u8>, v: int)
    requires
        v < 0,
    ensures
        count_at_most(data, v) == 0,
    decreases data.len(),
{
    if data.len() > 0 {
        lemma_at_most_below(data.drop_last(), v);
    }
}

/// The darkest level with more than `cut` pixels at or below it.
fn dark_level(histogram: &Vec<usize>, cut: usize, Ghost(data): Ghost<Seq<u8>>) -> (low: usize)
    requires
        histogram@.len() == 256,
        forall|v: int| 0 <= v < 256 ==> #[trigger] histogram@[v] == count_exactly(data, v),
        cut < data.len(),
        data.len() <= usize::MAX,
    ensures
        dark_percentile(data, cut as int, low as int),
{
    proof {
        lemma_count_bounds(data, 255);
        lemma_exactly(data, 0);
        lemma_at_most_below(data, -1);
    }
    let mut low: usize = 0;
    let mut seen: usize = histogram[0];
    while seen <= cut
        invariant
            histogram@.len() == 256,
            forall|v: int| 0 <= v < 256 ==> #[trigger] histogram@[v] == count_exactly(data, v),
            cut < data.len(),
            data.len() <= usize::MAX,
            count_at_most(data, 255) == data.len(),
            low <= 255,
            seen == count_at_most(data, low as int),
            forall|v: int| 0 <= v < low ==> count_at_most(data, v) <= cut,
        decreases 255 - low,
    {
        if low == 255 {
            assert(false);
        }
        low = low + 1;
        proof {
            lemma_exactly(data, low as int);
            lemma_count_bounds(data, low as int);
        }
        seen = seen + histogram[low];
    }
    low
}

/// The lightest level with more than `cut` pixels at or above it.
fn light_level(histogram: &Vec<usize>, cut: usize, Ghost(data): Ghost<Seq<u8>>) -> (high: usize)
    requires
        histogram@.len() == 256,
        forall|v: int| 0 <= v < 256 ==> #[trigger] histogram@[v] == count_exactly(data, v),
        cut < data.len(),
        data.len() <= usize::MAX,
    ensures
        light_percentile(data, cut as int, high as int),
{
    proof {
        lemma_count_bounds(data, 0);
        lemma_exactly(data, 255);
        lemma_at_least_above(data, 255);
    }
    let mut high: usize = 255;
    let mut seen: usize = histogram[255];
    while seen <= cut
        invariant
            histogram@.len() == 256,
            forall|v: int| 0 <= v < 256 ==> #[trigger] histogram@[v] == count_exactly(data, v),
            cut < data.len(),
            data.len() <= usize::MAX,
            count_at_least(data, 0) == data.len(),
            high <= 255,
            seen == count_at_least(data, high as int),
            forall|v: int| high < v <= 255 ==> count_at_least(data, v) <= cut,
        decreases high,
    {
        if high == 0 {
            assert(false);
        }
        high = high - 1;
        proof {
            lemma_exactly(data, high as int);
            lemma_count_bounds(data, high as int);
        }
        seen = seen + histogram[high];
    }
    high
}

/// Stretch a flat scan to the full range, ignoring the outermost two percent
/// at either end so that one speck of dust does not define the range. A page
/// whose range is already narrow is left alone rather than amplified into noise.
///
/// The two percent is `n / 50` pixels in whole numbers, exactly; a
/// single-precision product of the count would drift from it on images past
/// about sixteen million pixels.
pub fn normalise_contrast(image: &mut GreyImage)
    ensures
        final(image).width == old(image).width,
        final(image).height == old(image).height,
        contrast_result(old(image).data@, final(image).data@),
{
    let n = image.data.len();
    if n == 0 {
        return;
    }
    let ghost data = image.data@;
    let histogram = histogram_of(&image.data);
    let cut: usize = n / 50;
    let low = dark_level(&histogram, cut, Ghost(data));
    let high = light_level(&histogram, cut, Ghost(data));
    if high <= low || high - low < 16 {
        return;
    }
    let span: u32 = (high - low) as u32;
    let low8: u32 = low as u32;
    let high8: u32 = high as u32;
    let mut j: usize = 0;
    while j < n
        invariant
            n == data.len(),
            image.data@.len() == n,
            low8 == low,
            high8 == high,
            span == high - low,
            16 <= span,
            low < high <= 255,
            j <= n,
            forall|k: int| 0 <= k < j ==> #[trigger] image.data@[k] == stretched(data[k], low as int, high as int),
            forall|k: int| j <= k < n ==> #[trigger] image.data@[k] == data[k],
            image.width == old(image).width,
            image.height == old(image).height,
        decreases n - j,
    {
        let v = image.data[j] as u32;
        let out: u8 = if v <= low8 {
            0
        } else if v >= high8 {
            255
        } else {
            proof {
                let ghost d: int = (v - low8) as int;
                let ghost sp: int = span as int;
                assert(d * 255 / sp <= 255) by (nonlinear_arith)
                    requires d < sp, sp > 0, d >= 0;
                assert(d * 255 <= 255 * 255) by (nonlinear_arith)
                    requires d < sp, sp <= 255, d >= 0;
            }
            ((v - low8) * 255 / span) as u8
        };
        image.data.set(j, out);
        j = j + 1;
    }
    proof {
        assert(contrast_result(data, image.data@));
    }
}

/// How many of `data` are exactly `v`.
pub open spec fn count_exactly(data: Seq<u8>, v: int) -> nat
    decreases data.len(),
{
    if data.len() == 0 {
        0
    } else {
        count_exactly(data.drop_last(), v) + if data.last() == v { 1nat } else { 0nat }
    }
}

proof fn lemma_exactly(data: Seq<u8>, v: int)
    ensures
        count_at_most(data, v) == count_at_most(data, v - 1) + count_exactly(data, v),
        count_at_least(data, v) == count_at_least(data, v + 1) + count_exactly(data, v),
    decreases data.len(),
{
    if data.len() > 0 {
        lemma_exactly(data.drop_last(), v);
    }
}

proof fn lemma_at_least_above(data: Seq<u8>, v: int)
    ensures
        v >= 255 ==> count_at_least(data, v + 1) == 0,
    decreases data.len(),
{
    if data.len() > 0 {
        lemma_at_least_above(data.drop_last(), v);
    }
}

} // verus!
