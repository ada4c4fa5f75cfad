//! Orchestration between a document, its cache and a render destination.
//!
//! The cache-hit/miss decisions live here, free of any particular renderer,
//! so they can be exercised against a fake document as readily as a real one.

use vstd::prelude::*;
use crate::error::{PdfError, Result};
use crate::registry::DocumentSession;
use crate::render::bitmap::{Bitmap, PixelOrder};
use crate::render::cache::{CacheKey, PageCache, has_key, keys_distinct, evicted, lemma_moved_then_dropped};
use crate::render::{RenderTarget, bitmap_holds_rows, blitted, target_ok};
use crate::render::bitmap::{rows_swapped, dimensions_ok};

verus! {

/// A colour with straight alpha, one byte per channel.
#[derive(Debug, Clone, Copy, PartialEq, Eq, Structural)]
pub struct Color {
    pub r: u8,
    pub g: u8,
    pub b: u8,
    pub a: u8,
}

/// The byte of `colour` that lands at channel `k` of an RGBA pixel.
pub open spec fn channel_of(colour: Color, k: int) -> u8 {
    if k == 0 { colour.r } else if k == 1 { colour.g } else if k == 2 { colour.b } else { colour.a }
}

/// Every whole pixel of `data` painted `colour`; a trailing partial pixel kept.
pub open spec fn filled(data: Seq<u8>, colour: Color) -> Seq<u8> {
    Seq::new(data.len(), |i: int| if i < data.len() - data.len() % 4 { channel_of(colour, i % 4) } else { data[i] })
}

/// Paint every pixel, including alpha.
///
/// The background shows through wherever no page reaches — between two pages,
/// and around a picture dragged past the edge of one.
pub fn fill(bitmap: &mut Bitmap, colour: Color)
    ensures
        final(bitmap).width == old(bitmap).width,
        final(bitmap).height == old(bitmap).height,
        final(bitmap).stride == old(bitmap).stride,
        final(bitmap).order == old(bitmap).order,
        final(bitmap).data@ == filled(old(bitmap).data@, colour),
{
    let ghost original = bitmap.data@;
    let len = bitmap.data.len();
    let whole = len - len % 4;
    let mut i: usize = 0;
    while i < whole
        invariant
            whole == original.len() - original.len() % 4,
            len == original.len(),
            i <= whole,
            bitmap.width == old(bitmap).width,
            bitmap.height == old(bitmap).height,
            bitmap.stride == old(bitmap).stride,
            bitmap.order == old(bitmap).order,
            original == old(bitmap).data@,
            bitmap.data@.len() == len,
            forall|j: int| 0 <= j < i ==> #[trigger] bitmap.data@[j] == channel_of(colour, j % 4),
            forall|j: int| i <= j < len ==> #[trigger] bitmap.data@[j] == original[j],
        decreases whole - i,
    {
        let k = i % 4;
        let byte = if k == 0 { colour.r } else if k == 1 { colour.g } else if k == 2 { colour.b } else { colour.a };
        bitmap.data.set(i, byte);
        i = i + 1;
    }
    assert(bitmap.data@ =~= filled(original, colour));
}

/// A blit in progress: each destination byte that a source byte lands on,
/// for the source rows before `done_rows` and the first `done_k` bytes of
/// row `done_rows`, taken from the source; every other byte as it was.
///
/// Widths, the left offset and the columns are in bytes; rows at each
/// buffer's own stride.
pub open spec fn blit_progress(
    dst: Seq<u8>, dw: int, dh: int, ds: int,
    src: Seq<u8>, sw: int, sh: int, ss: int,
    left: int, top: int, done_rows: int, done_k: int,
) -> Seq<u8> {
    Seq::new(dst.len(), |i: int| {
        let r = i / ds;
        let c = i % ds;
        let sr = r - top;
        let sc = c - left;
        if r < dh && 0 <= c < dw && 0 <= sr < sh && 0 <= sc < sw
            && (sr < done_rows || (sr == done_rows && sc < done_k)) {
            src[sr * ss + sc]
        } else {
            dst[i]
        }
    })
}

/// `destination`'s bytes after `source` is drawn onto it with its top-left
/// pixel at (`left`, `top`), clipped to the destination's edges.
pub open spec fn placed(destination: Bitmap, source: Bitmap, left: int, top: int) -> Seq<u8> {
    blit_progress(destination.data@, destination.width * 4, destination.height as int, destination.stride as int,
        source.data@, source.width * 4, source.height as int, source.stride as int,
        left * 4, top, source.height as int, 0)
}

/// Copy `source` into `destination` at a pixel offset, clipped to the edges.
///
/// Clipping rather than refusing: rounding a tile's edges into whole pixels
/// can put its last row or column a pixel past the picture, and losing that
/// pixel is invisible where refusing to draw the tile at all is not.
pub fn blit(destination: &mut Bitmap, source: &Bitmap, left: i32, top: i32)
    requires
        bitmap_holds_rows(*old(destination)),
        bitmap_holds_rows(*source),
    ensures
        final(destination).width == old(destination).width,
        final(destination).height == old(destination).height,
        final(destination).stride == old(destination).stride,
        final(destination).order == old(destination).order,
        final(destination).data@ == placed(*old(destination), *source, left as int, top as int),
{
    let ghost original = destination.data@;
    let ghost sdata = source.data@;
    let dlen = destination.data.len();
    let slen = source.data.len();
    let dw: i64 = destination.width as i64 * 4;
    let dh: i64 = destination.height as i64;
    let ds: usize = destination.stride;
    let sw: i64 = source.width as i64 * 4;
    let sh: i64 = source.height as i64;
    let ss: usize = source.stride;
    let left4: i64 = left as i64 * 4;
    // The overlap of every row, in source bytes.
    let from: i64 = if left4 < 0 { -left4 } else { 0 };
    let to: i64 = if sw < dw - left4 { sw } else { dw - left4 };
    let mut row: i64 = 0;
    while row < sh
        invariant
            dw == old(destination).width * 4,
            dh == old(destination).height,
            ds == old(destination).stride,
            sw == source.width * 4,
            sh == source.height,
            ss == source.stride,
            left4 == left * 4,
            from == (if left4 < 0 { -left4 } else { 0int }),
            to == (if sw < dw - left4 { sw as int } else { dw - left4 }),
            bitmap_holds_rows(*old(destination)),
            bitmap_holds_rows(*source),
            sdata == source.data@,
            original == old(destination).data@,
            dlen == original.len(),
            slen == sdata.len(),
            0 <= row <= sh,
            destination.width == old(destination).width,
            destination.height == old(destination).height,
            destination.stride == old(destination).stride,
            destination.order == old(destination).order,
            destination.data@ == blit_progress(original, dw as int, dh as int, ds as int, sdata, sw as int, sh as int,
                ss as int, left4 as int, top as int, row as int, 0),
        decreases sh - row,
    {
        let target_row: i64 = top as i64 + row;
        let ghost before = destination.data@;
        if target_row >= 0 && target_row < dh && from < to {
            proof {
                assert(ds * target_row <= ds * (dh - 1)) by (nonlinear_arith)
                    requires 0 <= target_row <= dh - 1, ds >= 0;
                assert(ss * row <= ss * (sh - 1)) by (nonlinear_arith)
                    requires 0 <= row <= sh - 1, ss >= 0;
                assert(target_row * ds <= original.len());
                assert(row * ss + sw <= sdata.len());
                assert(blit_progress(original, dw as int, dh as int, ds as int, sdata, sw as int, sh as int,
                    ss as int, left4 as int, top as int, row as int, 0)
                    =~= blit_progress(original, dw as int, dh as int, ds as int, sdata, sw as int, sh as int,
                    ss as int, left4 as int, top as int, row as int, from as int));
            }
            let tr: usize = target_row as usize;
            let rw: usize = row as usize;
            proof {
                assert(tr * ds <= ds * (dh - 1)) by (nonlinear_arith)
                    requires tr == target_row, 0 <= target_row <= dh - 1, ds >= 0;
                assert(rw * ss <= ss * (sh - 1)) by (nonlinear_arith)
                    requires rw == row, 0 <= row <= sh - 1, ss >= 0;
            }
            let dbase: usize = tr * ds;
            let sbase: usize = rw * ss;
            let mut k: i64 = from;
            while k < to
                invariant
                    dw == old(destination).width * 4,
                    dh == old(destination).height,
                    ds == old(destination).stride,
                    sw == source.width * 4,
                    sh == source.height,
                    ss == source.stride,
                    left4 == left * 4,
                    from == (if left4 < 0 { -left4 } else { 0int }),
                    to == (if sw < dw - left4 { sw as int } else { dw - left4 }),
                    bitmap_holds_rows(*old(destination)),
                    bitmap_holds_rows(*source),
                    sdata == source.data@,
                    original == old(destination).data@,
                    dlen == original.len(),
                    slen == sdata.len(),
                    0 <= row < sh,
                    target_row == top + row,
                    0 <= target_row < dh,
                    dbase == target_row * ds,
                    sbase == row * ss,
                    ds * target_row <= ds * (dh - 1),
                    ss * row <= ss * (sh - 1),
                    from <= k <= to,
                    destination.width == old(destination).width,
                    destination.height == old(destination).height,
                    destination.stride == old(destination).stride,
                    destination.order == old(destination).order,
                    destination.data@ == blit_progress(original, dw as int, dh as int, ds as int, sdata, sw as int,
                        sh as int, ss as int, left4 as int, top as int, row as int, k as int),
                decreases to - k,
            {
                let kk: usize = k as usize;
                let column: usize = (left4 + k) as usize;
                assert(sbase + kk < sdata.len());
                assert(dbase + column < original.len());
                let byte = source.data[sbase + kk];
                let ghost previous = destination.data@;
                destination.data.set(dbase + column, byte);
                proof {
                    let idx = (dbase + column) as int;
                    vstd::arithmetic::div_mod::lemma_fundamental_div_mod_converse(idx, ds as int,
                        target_row as int, column as int);
                    assert forall|i: int| 0 <= i < original.len() implies #[trigger] destination.data@[i]
                        == blit_progress(original, dw as int, dh as int, ds as int, sdata, sw as int, sh as int,
                        ss as int, left4 as int, top as int, row as int, (k + 1) as int)[i] by {
                        vstd::arithmetic::div_mod::lemma_fundamental_div_mod(i, ds as int);
                        if i != idx {
                            if i / (ds as int) == target_row as int && i % (ds as int) == column as int {
                                assert(i == idx) by (nonlinear_arith)
                                    requires i == ds * (i / (ds as int)) + i % (ds as int),
                                        i / (ds as int) == target_row as int, i % (ds as int) == column as int,
                                        idx == target_row * ds + column;
                            }
                        }
                    }
                    assert(destination.data@ =~= blit_progress(original, dw as int, dh as int, ds as int, sdata,
                        sw as int, sh as int, ss as int, left4 as int, top as int, row as int, (k + 1) as int));
                }
                k = k + 1;
            }
            proof {
                assert(destination.data@ =~= blit_progress(original, dw as int, dh as int, ds as int, sdata,
                    sw as int, sh as int, ss as int, left4 as int, top as int, (row + 1) as int, 0));
            }
        } else {
            proof {
                assert forall|i: int| 0 <= i < original.len() implies #[trigger] before[i]
                    == blit_progress(original, dw as int, dh as int, ds as int, sdata, sw as int, sh as int,
                    ss as int, left4 as int, top as int, (row + 1) as int, 0)[i] by {
                    if ds > 0 {
                        vstd::arithmetic::div_mod::lemma_fundamental_div_mod(i, ds as int);
                    }
                }
                assert(destination.data@ =~= blit_progress(original, dw as int, dh as int, ds as int, sdata,
                    sw as int, sh as int, ss as int, left4 as int, top as int, (row + 1) as int, 0));
            }
        }
        row = row + 1;
    }
}

/// What the engine needs of a document to draw its pages.
///
/// How big a page comes out and how a zoom quantises are the document's
/// arithmetic, in whatever units its requests carry; the engine only decides
/// what to do with the answers.
pub trait PageSource {
    /// How a page is to be drawn: zoom, rotation, what else the renderer needs.
    type Request;

    /// How many pages the document has, as its contracts speak of it; the
    /// same number `page_count` answers.
    spec fn pages(&self) -> usize;

    fn page_count(&self) -> (r: usize)
        ensures
            r == self.pages();

    /// The cache step a request's zoom quantises to, and its rotation in
    /// quarter turns, as its contracts speak of it; the same pair that
    /// `cache_step` answers.
    spec fn step_of(&self, request: &Self::Request) -> (u32, u8);

    /// The cache step a request's zoom quantises to, and its rotation in
    /// quarter turns.
    fn cache_step(&self, request: &Self::Request) -> (r: (u32, u8))
        ensures
            r == self.step_of(request);

    /// The same request at the zoom its cache step stands for, as contracts
    /// speak of it; what `at_cached_zoom` answers.
    spec fn cached_request(&self, request: &Self::Request) -> Self::Request;

    /// The same request at the zoom its cache step stands for.
    fn at_cached_zoom(&self, request: &Self::Request) -> (r: Self::Request)
        ensures
            r == self.cached_request(request);

    /// Pixel size of page `index` drawn as `request` asks, or why it cannot
    /// be drawn, as contracts speak of it; what `raster_size` answers.
    spec fn raster_dims(&self, index: usize, request: &Self::Request) -> Result<(u32, u32)>;

    /// Pixel size of page `index` drawn as `request` asks, rotation included.
    fn raster_size(&self, index: usize, request: &Self::Request) -> (r: Result<(u32, u32)>)
        ensures
            r == self.raster_dims(index, request);

    /// The pixels page `index` comes out as, drawn as `request` asks into a
    /// destination of this shape and length; `None` where it cannot be drawn.
    spec fn drawn(&self, index: usize, request: &Self::Request, width: u32, height: u32, stride: usize,
        order: PixelOrder, len: usize) -> Option<Vec<u8>>;

    /// Draw page `index` into the pixels of a destination of this shape:
    /// they become what `drawn` says.
    fn render_into(&self, index: usize, request: &Self::Request, width: u32, height: u32, stride: usize,
        order: PixelOrder, pixels: &mut [u8]) -> (r: Result<()>)
        ensures
            match self.drawn(index, request, width, height, stride, order, old(pixels)@.len() as usize) {
                Some(p) => r is Ok && final(pixels)@ == p@,
                None => r is Err,
            };

    /// How a region of a page is to be drawn for export.
    type Region;

    /// The bitmap a region of page `index` comes out as, or why it cannot be
    /// drawn, as contracts speak of it; what `render_region` answers.
    spec fn region(&self, index: usize, request: &Self::Region) -> Result<Bitmap>;

    /// Draw one region of page `index` into a bitmap of its own.
    fn render_region(&self, index: usize, request: &Self::Region) -> (r: Result<Bitmap>)
        ensures
            r == self.region(index, request);
}

/// Refuse an index past the last page, naming the count.
pub fn validate_page_index<D: PageSource>(document: &D, index: usize) -> (r: Result<()>)
    ensures
        r is Ok <==> index < document.pages(),
        r is Err ==> r == Err::<(), PdfError>(PdfError::PageOutOfRange { index, count: document.pages() }),
{
    let count = document.page_count();
    if index >= count {
        return Err(PdfError::PageOutOfRange { index, count });
    }
    Ok(())
}

/// Pixel dimensions a page occupies for the given request, rotation included.
///
/// An index past the last page is refused before the document is asked;
/// within range the answer is the document's own `raster_size`.
pub fn page_pixel_size<D: PageSource>(session: &DocumentSession<D>, index: usize, request: &D::Request)
    -> (r: Result<(u32, u32)>)
    ensures
        index >= session.document.pages() ==> r == Err::<(u32, u32), PdfError>(
            PdfError::PageOutOfRange { index, count: session.document.pages() }),
        index < session.document.pages() ==> r == session.document.raster_dims(index, request),
{
    validate_page_index(&session.document, index)?;
    session.document.raster_size(index, request)
}

/// Rasterise one region of a page for export.
///
/// Deliberately **not** cached: the page cache is budgeted for what a swipe
/// needs, and a single large export could evict every raster the reader is
/// about to want, to keep something used once.
pub fn render_region<D: PageSource>(document: &D, index: usize, request: &D::Region) -> (r: Result<Bitmap>)
    ensures
        index >= document.pages() ==> r == Err::<Bitmap, PdfError>(
            PdfError::PageOutOfRange { index, count: document.pages() }),
        index < document.pages() ==> r == document.region(index, request),
{
    validate_page_index(document, index)?;
    document.render_region(index, request)
}

/// The key a page's raster is cached under, at a quantised zoom and rotation.
pub open spec fn key_for(index: usize, step: u32, quarter_turns: u8) -> CacheKey {
    CacheKey { page_index: index, zoom_step: step, rotation_quarter_turns: quarter_turns % 4 }
}

/// The cache key for a page at a quantised zoom and rotation.
pub fn cache_key(index: usize, step: u32, quarter_turns: u8) -> (r: CacheKey)
    ensures
        r == key_for(index, step, quarter_turns),
{
    CacheKey::at_step(index, step, quarter_turns)
}

/// Outcome of a render, so callers (and tests) can tell a cache hit from a miss.
#[derive(Debug, Clone, Copy, PartialEq, Eq, Structural)]
pub enum RenderOutcome {
    /// Copied from a previously prefetched raster.
    CacheHit,
    /// Rasterised now, straight into the caller's target.
    Rendered,
}

/// Whether the cache holds a raster under `key` that fits a `width` x `height` target.
pub open spec fn usable(s: Seq<(CacheKey, Bitmap)>, key: CacheKey, width: u32, height: u32) -> bool {
    exists|i: int| 0 <= i < s.len() && s[i].0 == key && s[i].1.width == width && s[i].1.height == height
}

/// What a target holds after a cached raster is copied into it.
pub open spec fn copied_into(pixels: Seq<u8>, width: u32, height: u32, stride: usize, order: PixelOrder, source: Bitmap) -> Seq<u8> {
    let copied = blitted(pixels, source.data@, width * 4, stride as int, source.stride as int, height as int);
    if source.order == order { copied } else { rows_swapped(copied, width * 4, stride as int, height as nat) }
}

/// Draw page `index` under cache key `key` into `target`: from the cache when
/// it holds a raster of the target's size, else from the document.
///
/// A cached entry whose size does not match the target is a miss and is
/// dropped, so a stale raster is never stretched into the wrong-sized bitmap.
pub fn render_cached<D: PageSource>(
    session: &mut DocumentSession<D>,
    index: usize,
    key: CacheKey,
    request: &D::Request,
    target: &mut RenderTarget<'_>,
) -> (r: Result<RenderOutcome>)
    requires
        old(session).cache.wf(),
        target_ok(old(target).width, old(target).height, old(target).stride, old(target).pixels@.len() as int),
        forall|i: int| 0 <= i < old(session).cache.entries().len()
            ==> bitmap_holds_rows(#[trigger] old(session).cache.entries()[i].1),
    ensures
        final(session).document == old(session).document,
        final(session).cache.wf(),
        final(session).cache.budget() == old(session).cache.budget(),
        usable(old(session).cache.entries(), key, old(target).width, old(target).height) ==> {
            &&& r == Ok::<RenderOutcome, PdfError>(RenderOutcome::CacheHit)
            &&& exists|i: int| 0 <= i < old(session).cache.entries().len()
                && old(session).cache.entries()[i].0 == key
                && final(session).cache.entries() == old(session).cache.entries().remove(i).push(old(session).cache.entries()[i])
                && final(target).pixels@ == copied_into(old(target).pixels@, old(target).width, old(target).height,
                    old(target).stride, old(target).order, old(session).cache.entries()[i].1)
            &&& final(target).width == old(target).width
            &&& final(target).height == old(target).height
            &&& final(target).stride == old(target).stride
            &&& final(target).order == old(target).order
            &&& final(session).cache.hit_count() == old(session).cache.hit_count().saturating_add(1).saturating_add(1)
            &&& final(session).cache.miss_count() == old(session).cache.miss_count()
        },
        !usable(old(session).cache.entries(), key, old(target).width, old(target).height) ==> {
            &&& match old(session).document.drawn(index, request, old(target).width, old(target).height,
                old(target).stride, old(target).order, old(target).pixels@.len() as usize) {
                Some(p) => r == Ok::<RenderOutcome, PdfError>(RenderOutcome::Rendered) && final(target).pixels@ == p@,
                None => r is Err,
            }
            &&& final(target).width == old(target).width
            &&& final(target).height == old(target).height
            &&& final(target).stride == old(target).stride
            &&& final(target).order == old(target).order
            &&& final(session).cache.entries() == old(session).cache.entries().filter(|e: (CacheKey, Bitmap)| e.0 != key)
            &&& has_key(old(session).cache.entries(), key) ==>
                final(session).cache.hit_count() == old(session).cache.hit_count().saturating_add(1)
                && final(session).cache.miss_count() == old(session).cache.miss_count()
            &&& !has_key(old(session).cache.entries(), key) ==>
                final(session).cache.hit_count() == old(session).cache.hit_count()
                && final(session).cache.miss_count() == old(session).cache.miss_count().saturating_add(1)
        },
{
    let ghost s = session.cache.entries();
    proof { session.cache.lemma_keys_distinct(); }
    let fits = match session.cache.get(&key) {
        Some(cached) => cached.width == target.width && cached.height == target.height,
        None => false,
    };
    let ghost first = session.cache.entries();
    if fits {
        let ghost i = choose|i: int| 0 <= i < s.len() && s[i].0 == key && first == s.remove(i).push(s[i]);
        proof {
            assert(first[first.len() - 1] == s[i]);
            assert(has_key(first, key));
            session.cache.lemma_keys_distinct();
        }
        // Looked up again rather than held across the check, to keep the borrow short.
        let cached = match session.cache.get(&key) {
            Some(c) => c,
            None => { return Err(PdfError::InvalidBitmap(String::new())); },
        };
        proof {
            assert(first[first.len() - 1].0 == key);
            assert(*cached == s[i].1);
            assert(bitmap_holds_rows(s[i].1));
        }
        let copied = target.copy_from(cached);
        proof {
            let j = choose|j: int| 0 <= j < first.len() && first[j].0 == key
                && session.cache.entries() == first.remove(j).push(first[j]);
            if j != first.len() - 1 {
                assert(first[j].0 == first[first.len() - 1].0);
            }
            assert(first.remove(j).push(first[j]) =~= first);
        }
        match copied {
            Ok(()) => {},
            Err(e) => { return Err(e); },
        }
        return Ok(RenderOutcome::CacheHit);
    }
    proof {
        if usable(s, key, target.width, target.height) {
            let i = choose|i: int| 0 <= i < s.len() && s[i].0 == key && s[i].1.width == target.width
                && s[i].1.height == target.height;
            let j = choose|j: int| 0 <= j < s.len() && s[j].0 == key && first == s.remove(j).push(s[j]);
            if i != j { assert(s[i].0 == s[j].0); }
            assert(false);
        }
    }
    if session.cache.contains(&key) {
        session.cache.remove(&key);
        proof {
            let j = choose|j: int| 0 <= j < s.len() && s[j].0 == key && first == s.remove(j).push(s[j]);
            lemma_moved_then_dropped(s, j, key);
        }
    } else {
        proof {
            if has_key(s, key) {
                let j = choose|j: int| 0 <= j < s.len() && s[j].0 == key && first == s.remove(j).push(s[j]);
                assert(first[first.len() - 1].0 == key);
                assert(has_key(first, key));
            }
            assert(first == s);
            crate::render::cache::lemma_no_key_filter(s, key);
        }
    }
    session.document.render_into(index, request, target.width, target.height, target.stride, target.order,
        target.pixels)?;
    Ok(RenderOutcome::Rendered)
}

/// The key a request for page `index` is cached under.
pub open spec fn request_key<D: PageSource>(document: D, index: usize, request: D::Request) -> CacheKey {
    key_for(index, document.step_of(&request).0, document.step_of(&request).1)
}

/// Draw a page into `target`, using the cache when it holds a usable raster.
pub fn render_page_into<D: PageSource>(
    session: &mut DocumentSession<D>,
    index: usize,
    request: &D::Request,
    target: &mut RenderTarget<'_>,
) -> (r: Result<RenderOutcome>)
    requires
        old(session).cache.wf(),
        target_ok(old(target).width, old(target).height, old(target).stride, old(target).pixels@.len() as int),
        forall|i: int| 0 <= i < old(session).cache.entries().len()
            ==> bitmap_holds_rows(#[trigger] old(session).cache.entries()[i].1),
    ensures
        final(session).document == old(session).document,
        final(session).cache.wf(),
        final(session).cache.budget() == old(session).cache.budget(),
        index >= old(session).document.pages() ==> {
            &&& r == Err::<RenderOutcome, PdfError>(PdfError::PageOutOfRange { index, count: old(session).document.pages() })
            &&& final(session).cache.entries() == old(session).cache.entries()
            &&& final(target).pixels@ == old(target).pixels@
        },
        index < old(session).document.pages() ==> {
            let key = request_key(old(session).document, index, *request);
            &&& (usable(old(session).cache.entries(), key, old(target).width, old(target).height) ==> {
                &&& r == Ok::<RenderOutcome, PdfError>(RenderOutcome::CacheHit)
                &&& exists|i: int| 0 <= i < old(session).cache.entries().len()
                    && old(session).cache.entries()[i].0 == key
                    && final(session).cache.entries() == old(session).cache.entries().remove(i).push(old(session).cache.entries()[i])
                    && final(target).pixels@ == copied_into(old(target).pixels@, old(target).width, old(target).height,
                        old(target).stride, old(target).order, old(session).cache.entries()[i].1)
            })
            &&& (!usable(old(session).cache.entries(), key, old(target).width, old(target).height) ==> {
                &&& match old(session).document.drawn(index, request, old(target).width, old(target).height,
                    old(target).stride, old(target).order, old(target).pixels@.len() as usize) {
                    Some(p) => r == Ok::<RenderOutcome, PdfError>(RenderOutcome::Rendered) && final(target).pixels@ == p@,
                    None => r is Err,
                }
                &&& final(session).cache.entries() == old(session).cache.entries().filter(|e: (CacheKey, Bitmap)| e.0 != key)
            })
        },
{
    match validate_page_index(&session.document, index) {
        Err(e) => { return Err(e); },
        Ok(()) => {},
    }
    let (step, turns) = session.document.cache_step(request);
    let key = cache_key(index, step, turns);
    render_cached(session, index, key, request, target)
}

/// Rasterise page `index` into the cache under `key`, unless a raster is
/// already there. `true` when one was drawn and offered to the cache.
///
/// Drawn at the zoom the key stands for, not the raw requested zoom: a raster
/// drawn at 1.6x under a key that means 1.75x would make every later lookup a
/// size mismatch.
pub fn prefetch_cached<D: PageSource>(
    session: &mut DocumentSession<D>,
    index: usize,
    key: CacheKey,
    request: &D::Request,
) -> (r: Result<bool>)
    requires
        old(session).cache.wf(),
    ensures
        final(session).document == old(session).document,
        final(session).cache.wf(),
        final(session).cache.budget() == old(session).cache.budget(),
        final(session).cache.hit_count() == old(session).cache.hit_count(),
        final(session).cache.miss_count() == old(session).cache.miss_count(),
        has_key(old(session).cache.entries(), key) ==> r == Ok::<bool, PdfError>(false),
        r is Ok ==> r == Ok::<bool, PdfError>(!has_key(old(session).cache.entries(), key)),
        r != Ok::<bool, PdfError>(true) ==> final(session).cache.entries() == old(session).cache.entries(),
        !has_key(old(session).cache.entries(), key) ==> {
            let effective = old(session).document.cached_request(request);
            match old(session).document.raster_dims(index, &effective) {
                Err(e) => r == Err::<bool, PdfError>(e),
                Ok((w, h)) => if !dimensions_ok(w, h) {
                    r is Err
                } else {
                    match old(session).document.drawn(index, &effective, w, h, (w * 4) as usize, PixelOrder::Rgba,
                        (w * 4 * h) as usize) {
                        None => r is Err,
                        Some(p) => r == Ok::<bool, PdfError>(true) && exists|b: Bitmap| {
                            &&& b.width == w && b.height == h && b.stride == w * 4 && b.order == PixelOrder::Rgba
                            &&& b.data@ == p@
                            &&& final(session).cache.entries() == if b.data@.len() > old(session).cache.budget() {
                                old(session).cache.entries()
                            } else {
                                evicted(old(session).cache.entries().filter(|e: (CacheKey, Bitmap)| e.0 != key),
                                    b.data@.len(), old(session).cache.budget()).push((key, b))
                            }
                        },
                    }
                },
            }
        },
{
    let ghost s = session.cache.entries();
    if session.cache.contains(&key) {
        return Ok(false);
    }
    let effective = session.document.at_cached_zoom(request);
    // Size first, without drawing: a raster too large to build is refused
    // before the document does any work.
    let (width, height) = session.document.raster_size(index, &effective)?;
    let mut bitmap = Bitmap::new(width, height, PixelOrder::Rgba)?;
    // The buffer's length is a `usize`, so its size in bytes fits one.
    let _len = bitmap.data.len();
    let stride = bitmap.stride;
    match session.document.render_into(index, &effective, width, height, stride, PixelOrder::Rgba,
        bitmap.data.as_mut_slice()) {
        Ok(()) => {},
        Err(e) => { return Err(e); },
    }
    let ghost b = bitmap;
    assert(session.cache.entries() == s);
    session.cache.put(key, bitmap);
    Ok(true)
}

/// A raster the cache took in is there for the next draw at its size: once
/// `bitmap` is stored under `key` within the budget, a target of the
/// bitmap's size finds it usable.
pub proof fn law_a_stored_raster_is_usable(s: Seq<(CacheKey, Bitmap)>, key: CacheKey, bitmap: Bitmap, budget: nat)
    requires
        bitmap.data@.len() <= budget,
    ensures
        usable(evicted(s.filter(|e: (CacheKey, Bitmap)| e.0 != key), bitmap.data@.len(), budget).push((key, bitmap)),
            key, bitmap.width, bitmap.height),
{
    let t = evicted(s.filter(|e: (CacheKey, Bitmap)| e.0 != key), bitmap.data@.len(), budget).push((key, bitmap));
    assert(t[t.len() - 1] == (key, bitmap));
}

/// Rasterise a page into the cache without any on-screen destination.
///
/// Called for the pages either side of the current one, so a swipe resolves
/// to a copy.
pub fn prefetch_page<D: PageSource>(session: &mut DocumentSession<D>, index: usize, request: &D::Request)
    -> (r: Result<bool>)
    requires
        old(session).cache.wf(),
    ensures
        final(session).document == old(session).document,
        final(session).cache.wf(),
        final(session).cache.budget() == old(session).cache.budget(),
        index >= old(session).document.pages() ==> {
            &&& r == Err::<bool, PdfError>(PdfError::PageOutOfRange { index, count: old(session).document.pages() })
            &&& final(session).cache.entries() == old(session).cache.entries()
        },
        index < old(session).document.pages() ==> {
            let key = request_key(old(session).document, index, *request);
            let effective = old(session).document.cached_request(request);
            &&& has_key(old(session).cache.entries(), key) ==> r == Ok::<bool, PdfError>(false)
            &&& r is Ok ==> r == Ok::<bool, PdfError>(!has_key(old(session).cache.entries(), key))
            &&& r != Ok::<bool, PdfError>(true) ==> final(session).cache.entries() == old(session).cache.entries()
            &&& !has_key(old(session).cache.entries(), key) ==> match old(session).document.raster_dims(index, &effective) {
                Err(e) => r == Err::<bool, PdfError>(e),
                Ok((w, h)) => if !dimensions_ok(w, h) {
                    r is Err
                } else {
                    match old(session).document.drawn(index, &effective, w, h, (w * 4) as usize, PixelOrder::Rgba,
                        (w * 4 * h) as usize) {
                        None => r is Err,
                        Some(p) => r == Ok::<bool, PdfError>(true) && exists|b: Bitmap| {
                            &&& b.width == w && b.height == h && b.stride == w * 4 && b.order == PixelOrder::Rgba
                            &&& b.data@ == p@
                            &&& final(session).cache.entries() == if b.data@.len() > old(session).cache.budget() {
                                old(session).cache.entries()
                            } else {
                                evicted(old(session).cache.entries().filter(|e: (CacheKey, Bitmap)| e.0 != key),
                                    b.data@.len(), old(session).cache.budget()).push((key, b))
                            }
                        },
                    }
                },
            }
        },
{
    match validate_page_index(&session.document, index) {
        Err(e) => { return Err(e); },
        Ok(()) => {},
    }
    let (step, turns) = session.document.cache_step(request);
    let key = cache_key(index, step, turns);
    prefetch_cached(session, index, key, request)
}

/// The entries left once every page in `affected` has been dropped, one
/// page after another.
pub open spec fn without_pages(s: Seq<(CacheKey, Bitmap)>, affected: Seq<usize>) -> Seq<(CacheKey, Bitmap)>
    decreases affected.len(),
{
    if affected.len() == 0 {
        s
    } else {
        without_pages(s, affected.drop_last()).filter(|e: (CacheKey, Bitmap)| e.0.page_index != affected.last())
    }
}

/// Drop the rasters an edit made stale.
///
/// An empty `affected` means everything: any change to the page tree
/// renumbers every page after it, so a cache keyed by index has nothing it
/// can safely keep.
pub fn invalidate<D>(session: &mut DocumentSession<D>, affected: &[usize])
    requires
        old(session).cache.wf(),
    ensures
        final(session).document == old(session).document,
        final(session).cache.wf(),
        final(session).cache.budget() == old(session).cache.budget(),
        final(session).cache.hit_count() == old(session).cache.hit_count(),
        final(session).cache.miss_count() == old(session).cache.miss_count(),
        affected@.len() == 0 ==> final(session).cache.entries() == Seq::<(CacheKey, Bitmap)>::empty(),
        affected@.len() > 0 ==> final(session).cache.entries() == without_pages(old(session).cache.entries(), affected@),
{
    if affected.len() == 0 {
        session.cache.clear();
        return;
    }
    let ghost start = session.cache.entries();
    let mut k: usize = 0;
    while k < affected.len()
        invariant
            k <= affected@.len(),
            session.document == old(session).document,
            session.cache.wf(),
            session.cache.budget() == old(session).cache.budget(),
            session.cache.hit_count() == old(session).cache.hit_count(),
            session.cache.miss_count() == old(session).cache.miss_count(),
            start == old(session).cache.entries(),
            session.cache.entries() == without_pages(start, affected@.subrange(0, k as int)),
        decreases affected@.len() - k,
    {
        session.cache.invalidate_page(affected[k]);
        proof {
            let next = affected@.subrange(0, k + 1);
            assert(next.drop_last() =~= affected@.subrange(0, k as int));
            assert(next.last() == affected@[k as int]);
        }
        k = k + 1;
    }
    assert(affected@.subrange(0, affected@.len() as int) =~= affected@);
}

} // verus!
