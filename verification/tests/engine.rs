use std::cell::Cell;
use std::rc::Rc;

use pdf_core::engine::{
    blit, cache_key, fill, invalidate, page_pixel_size, prefetch_page, render_page_into, render_region, Color,
    PageSource, RenderOutcome,
};
use pdf_core::error::{PdfError, Result};
use pdf_core::registry::DocumentSession;
use pdf_core::render::bitmap::{Bitmap, PixelOrder};
use pdf_core::render::cache::CacheKey;
use pdf_core::render::RenderTarget;

/// How a test asks for a page: a zoom and a rotation in quarter turns.
#[derive(Clone, Copy)]
struct Request {
    scale: f32,
    quarter_turns: u8,
}

fn request(scale: f32) -> Request {
    Request { scale, quarter_turns: 0 }
}

/// Quarter steps, rounded up, never below one step.
fn quantise(zoom: f32) -> u32 {
    let clamped = zoom.max(0.25);
    (clamped / 0.25).ceil().max(1.0) as u32
}

/// Paints every pixel a per-page byte so a copy can be checked by content,
/// and counts renders so cache hits are observable rather than assumed.
struct FakeDocument {
    pages: usize,
    width_pt: f32,
    height_pt: f32,
    renders: Rc<Cell<usize>>,
}

impl PageSource for FakeDocument {
    type Request = Request;

    fn pages(&self) -> usize {
        self.pages
    }

    fn page_count(&self) -> usize {
        self.pages
    }

    fn step_of(&self, request: &Request) -> (u32, u8) {
        self.cache_step(request)
    }

    fn cache_step(&self, request: &Request) -> (u32, u8) {
        (quantise(request.scale), request.quarter_turns)
    }

    fn cached_request(&self, request: &Request) -> Request {
        self.at_cached_zoom(request)
    }

    fn at_cached_zoom(&self, request: &Request) -> Request {
        Request { scale: quantise(request.scale) as f32 * 0.25, ..*request }
    }

    fn raster_dims(&self, index: usize, request: &Request) -> Result<(u32, u32)> {
        self.raster_size(index, request)
    }

    fn raster_size(&self, index: usize, request: &Request) -> Result<(u32, u32)> {
        if index >= self.pages {
            return Err(PdfError::PageOutOfRange { index, count: self.pages });
        }
        let w = (self.width_pt * request.scale).round() as u32;
        let h = (self.height_pt * request.scale).round() as u32;
        if request.quarter_turns % 2 == 1 {
            Ok((h, w))
        } else {
            Ok((w, h))
        }
    }

    type Region = (u32, u32);

    fn region(&self, index: usize, size: &(u32, u32)) -> Result<Bitmap> {
        self.render_region(index, size)
    }

    fn render_region(&self, _index: usize, size: &(u32, u32)) -> Result<Bitmap> {
        Bitmap::new(size.0, size.1, PixelOrder::Rgba)
    }

    fn drawn(
        &self,
        index: usize,
        _request: &Request,
        _width: u32,
        _height: u32,
        _stride: usize,
        _order: PixelOrder,
        len: usize,
    ) -> Option<Vec<u8>> {
        Some(vec![index as u8 + 1; len])
    }

    fn render_into(
        &self,
        index: usize,
        _request: &Request,
        _width: u32,
        _height: u32,
        _stride: usize,
        _order: PixelOrder,
        pixels: &mut [u8],
    ) -> Result<()> {
        self.renders.set(self.renders.get() + 1);
        let marker = index as u8 + 1;
        for b in pixels.iter_mut() {
            *b = marker;
        }
        Ok(())
    }
}

fn session_with(pages: usize) -> (DocumentSession<FakeDocument>, Rc<Cell<usize>>) {
    let renders = Rc::new(Cell::new(0));
    let doc = FakeDocument { pages, width_pt: 100.0, height_pt: 200.0, renders: Rc::clone(&renders) };
    (DocumentSession::new(doc), renders)
}

#[test]
fn page_size_accounts_for_rotation() {
    let (session, _) = session_with(1);
    let upright = page_pixel_size(&session, 0, &request(1.0)).unwrap();
    assert_eq!(upright, (100, 200));

    let turned = page_pixel_size(&session, 0, &Request { scale: 1.0, quarter_turns: 1 }).unwrap();
    assert_eq!(turned, (200, 100), "a quarter turn swaps the axes");
}

#[test]
fn a_cold_render_goes_to_the_document_and_fills_the_target() {
    let (mut session, renders) = session_with(2);
    let mut buf = vec![0u8; 100 * 200 * 4];
    let mut target = RenderTarget::new(100, 200, 400, PixelOrder::Rgba, &mut buf).unwrap();

    let outcome = render_page_into(&mut session, 1, &request(1.0), &mut target).unwrap();

    assert_eq!(outcome, RenderOutcome::Rendered);
    assert_eq!(renders.get(), 1);
    assert!(buf.iter().all(|&b| b == 2), "page 1 paints marker 2");
}

#[test]
fn a_prefetched_page_is_served_from_cache_without_rendering_again() {
    let (mut session, renders) = session_with(2);
    let req = request(1.0);

    assert!(prefetch_page(&mut session, 0, &req).unwrap());
    assert_eq!(renders.get(), 1, "the prefetch itself rendered once");

    let mut buf = vec![0u8; 100 * 200 * 4];
    let mut target = RenderTarget::new(100, 200, 400, PixelOrder::Rgba, &mut buf).unwrap();
    let outcome = render_page_into(&mut session, 0, &req, &mut target).unwrap();

    assert_eq!(outcome, RenderOutcome::CacheHit);
    assert_eq!(renders.get(), 1, "no second rasterisation");
    assert!(buf.iter().all(|&b| b == 1), "the blit must carry the page's actual pixels, not zeros");
}

#[test]
fn prefetching_the_same_page_twice_does_no_extra_work() {
    let (mut session, renders) = session_with(1);
    let req = request(1.0);

    assert!(prefetch_page(&mut session, 0, &req).unwrap());
    assert!(!prefetch_page(&mut session, 0, &req).unwrap());
    assert_eq!(renders.get(), 1);
}

#[test]
fn a_cached_raster_of_the_wrong_size_is_discarded_rather_than_blitted() {
    let (mut session, renders) = session_with(1);

    // Prefetch at 1.0 => a 100x200 raster.
    prefetch_page(&mut session, 0, &request(1.0)).unwrap();
    assert_eq!(renders.get(), 1);

    // The same cache key with a differently-sized target, as a caller's
    // rounding can produce.
    let mut buf = vec![0u8; 101 * 200 * 4];
    let mut target = RenderTarget::new(101, 200, 404, PixelOrder::Rgba, &mut buf).unwrap();
    let outcome = render_page_into(&mut session, 0, &request(1.0), &mut target).unwrap();

    assert_eq!(outcome, RenderOutcome::Rendered, "a size mismatch must fall back to a fresh render");
    assert_eq!(renders.get(), 2);
}

#[test]
fn prefetch_renders_at_the_quantised_zoom_so_later_hits_line_up() {
    let (mut session, _) = session_with(1);

    // 1.6 quantises up to 1.75; the cached raster must be 1.75-sized.
    prefetch_page(&mut session, 0, &request(1.6)).unwrap();

    let (w, h) = (175u32, 350u32); // 100pt x 1.75, 200pt x 1.75
    let mut buf = vec![0u8; (w * h * 4) as usize];
    let mut target = RenderTarget::new(w, h, (w * 4) as usize, PixelOrder::Rgba, &mut buf).unwrap();

    let outcome = render_page_into(&mut session, 0, &request(1.6), &mut target).unwrap();
    assert_eq!(outcome, RenderOutcome::CacheHit, "prefetch and lookup must agree on the raster's size");
}

#[test]
fn out_of_range_pages_are_refused_by_both_entry_points() {
    let (mut session, _) = session_with(2);
    let mut buf = vec![0u8; 100 * 200 * 4];
    let mut target = RenderTarget::new(100, 200, 400, PixelOrder::Rgba, &mut buf).unwrap();

    assert!(matches!(
        render_page_into(&mut session, 5, &request(1.0), &mut target),
        Err(PdfError::PageOutOfRange { index: 5, count: 2 })
    ));
    assert!(matches!(
        prefetch_page(&mut session, 5, &request(1.0)),
        Err(PdfError::PageOutOfRange { index: 5, count: 2 })
    ));
}

#[test]
fn clearing_the_cache_forces_the_next_render_to_rasterise_again() {
    let (mut session, renders) = session_with(1);
    let req = request(1.0);
    prefetch_page(&mut session, 0, &req).unwrap();

    session.cache.clear();

    let mut buf = vec![0u8; 100 * 200 * 4];
    let mut target = RenderTarget::new(100, 200, 400, PixelOrder::Rgba, &mut buf).unwrap();
    let outcome = render_page_into(&mut session, 0, &req, &mut target).unwrap();

    assert_eq!(outcome, RenderOutcome::Rendered);
    assert_eq!(renders.get(), 2);
}

/// One raster per page at two different zooms, so a test can tell
/// "invalidated page 2" apart from "cleared everything".
fn fill_cache(session: &mut DocumentSession<FakeDocument>, pages: usize) {
    for index in 0..pages {
        for step in [4u32, 8] {
            session.cache.put(CacheKey::at_step(index, step, 0), Bitmap::new(4, 4, PixelOrder::Rgba).unwrap());
        }
    }
}

// A rotation of page 1 reports page 1 as the one it changed.
#[test]
fn rotating_a_page_invalidates_that_page_at_every_zoom_and_leaves_the_rest() {
    let (mut session, _) = session_with(3);
    fill_cache(&mut session, 3);
    assert_eq!(session.cache.len(), 6);

    invalidate(&mut session, &[1]);

    // Both of page 1's rasters go; the other two pages keep theirs.
    assert_eq!(session.cache.len(), 4);
    assert!(!session.cache.contains(&CacheKey::at_step(1, 4, 0)));
    assert!(!session.cache.contains(&CacheKey::at_step(1, 8, 0)));
    assert!(session.cache.contains(&CacheKey::at_step(0, 4, 0)));
    assert!(session.cache.contains(&CacheKey::at_step(2, 8, 0)));
}

// Deleting a page changes the page tree, which reports no pages: everything.
#[test]
fn deleting_a_page_clears_the_whole_cache_because_every_later_index_shifts() {
    let (mut session, _) = session_with(3);
    fill_cache(&mut session, 3);

    invalidate(&mut session, &[]);

    assert_eq!(
        session.cache.len(),
        0,
        "page 1's raster is now index 0's; keeping any of them draws the wrong page"
    );
}

#[test]
fn invalidating_several_pages_drops_each_of_them() {
    let (mut session, _) = session_with(3);
    fill_cache(&mut session, 3);
    invalidate(&mut session, &[0, 2]);
    assert_eq!(session.cache.len(), 2);
    assert!(session.cache.contains(&CacheKey::at_step(1, 4, 0)));
    assert!(session.cache.contains(&CacheKey::at_step(1, 8, 0)));
}

#[test]
fn the_cache_key_wraps_rotation_into_quarter_turns() {
    let key = cache_key(3, 7, 5);
    assert_eq!(key, CacheKey { page_index: 3, zoom_step: 7, rotation_quarter_turns: 1 });
}

#[test]
fn a_cache_hit_counts_as_hits_and_a_cold_render_as_a_miss() {
    let (mut session, _) = session_with(1);
    let mut buf = vec![0u8; 100 * 200 * 4];
    let mut target = RenderTarget::new(100, 200, 400, PixelOrder::Rgba, &mut buf).unwrap();
    render_page_into(&mut session, 0, &request(1.0), &mut target).unwrap();
    assert_eq!(session.cache.stats().misses, 1);
    prefetch_page(&mut session, 0, &request(1.0)).unwrap();
    render_page_into(&mut session, 0, &request(1.0), &mut target).unwrap();
    assert_eq!(session.cache.stats().hits, 2);
}

#[test]
fn fill_paints_every_whole_pixel() {
    let mut bitmap = Bitmap::new(2, 1, PixelOrder::Rgba).unwrap();
    fill(&mut bitmap, Color { r: 1, g: 2, b: 3, a: 4 });
    assert_eq!(bitmap.data, vec![1, 2, 3, 4, 1, 2, 3, 4]);
}

fn numbered(width: u32, height: u32) -> Bitmap {
    let mut bitmap = Bitmap::new(width, height, PixelOrder::Rgba).unwrap();
    for (i, b) in bitmap.data.iter_mut().enumerate() {
        *b = i as u8 + 1;
    }
    bitmap
}

#[test]
fn blit_places_the_source_at_its_offset() {
    let mut destination = Bitmap::new(3, 3, PixelOrder::Rgba).unwrap();
    let source = numbered(1, 1);
    blit(&mut destination, &source, 1, 2);
    let mut expected = vec![0u8; 36];
    expected[2 * 12 + 4..2 * 12 + 8].copy_from_slice(&[1, 2, 3, 4]);
    assert_eq!(destination.data, expected);
}

#[test]
fn blit_clips_what_falls_outside_the_destination() {
    let mut destination = Bitmap::new(2, 2, PixelOrder::Rgba).unwrap();
    let source = numbered(2, 2);
    blit(&mut destination, &source, -1, 1);
    // Only the source's top-right pixel lands, at the destination's bottom-left.
    let mut expected = vec![0u8; 16];
    expected[8..12].copy_from_slice(&[5, 6, 7, 8]);
    assert_eq!(destination.data, expected);
}

#[test]
fn blit_entirely_off_the_picture_changes_nothing() {
    let mut destination = Bitmap::new(2, 2, PixelOrder::Rgba).unwrap();
    let source = numbered(2, 2);
    blit(&mut destination, &source, 5, -7);
    assert_eq!(destination.data, vec![0u8; 16]);
}

#[test]
fn a_region_of_a_page_past_the_end_is_refused() {
    let (session, _) = session_with(2);
    assert!(matches!(
        render_region(&session.document, 2, &(4, 4)),
        Err(PdfError::PageOutOfRange { index: 2, count: 2 })
    ));
    let region = render_region(&session.document, 1, &(4, 4)).expect("region");
    assert_eq!((region.width, region.height), (4, 4));
}
