use pdf_core::engine::{validate_page_index, PageSource};
use pdf_core::error::PdfError;
use pdf_core::registry::{clear_all, insert, open_count, remove, trim_caches, with_session, Registry};
use pdf_core::render::bitmap::{Bitmap, PixelOrder};
use pdf_core::render::cache::CacheKey;

struct FakeDocument {
    pages: usize,
}

impl PageSource for FakeDocument {
    type Request = ();

    fn pages(&self) -> usize {
        self.pages
    }

    fn page_count(&self) -> usize {
        self.pages
    }

    fn step_of(&self, _request: &()) -> (u32, u8) {
        (4, 0)
    }

    fn cache_step(&self, _request: &()) -> (u32, u8) {
        (4, 0)
    }

    fn cached_request(&self, _request: &()) {}

    fn at_cached_zoom(&self, _request: &()) {}

    fn raster_dims(&self, _index: usize, _request: &()) -> pdf_core::error::Result<(u32, u32)> {
        Ok((1, 1))
    }

    fn raster_size(&self, _index: usize, _request: &()) -> pdf_core::error::Result<(u32, u32)> {
        Ok((1, 1))
    }

    fn drawn(
        &self,
        _index: usize,
        _request: &(),
        _width: u32,
        _height: u32,
        _stride: usize,
        _order: PixelOrder,
        len: usize,
    ) -> Option<Vec<u8>> {
        Some(vec![0; len])
    }

    fn render_into(
        &self,
        _index: usize,
        _request: &(),
        _width: u32,
        _height: u32,
        _stride: usize,
        _order: PixelOrder,
        _pixels: &mut [u8],
    ) -> pdf_core::error::Result<()> {
        Ok(())
    }

    type Region = ();

    fn region(&self, _index: usize, _request: &()) -> pdf_core::error::Result<Bitmap> {
        Bitmap::new(1, 1, PixelOrder::Rgba)
    }

    fn render_region(&self, _index: usize, _request: &()) -> pdf_core::error::Result<Bitmap> {
        Bitmap::new(1, 1, PixelOrder::Rgba)
    }
}

fn insert_fake(registry: &mut Registry<FakeDocument>, pages: usize) -> i64 {
    insert(registry, FakeDocument { pages })
}

#[test]
fn a_handle_resolves_to_its_own_document() {
    let mut registry = Registry::new();
    let a = insert_fake(&mut registry, 3);
    let b = insert_fake(&mut registry, 7);

    let a_pages = with_session(&mut registry, a, |s| Ok(s.document.pages)).unwrap();
    let b_pages = with_session(&mut registry, b, |s| Ok(s.document.pages)).unwrap();

    assert_eq!(a_pages, 3);
    assert_eq!(b_pages, 7);

    remove(&mut registry, a);
    remove(&mut registry, b);
}

#[test]
fn using_a_closed_handle_is_an_error_not_a_wrong_document() {
    let mut registry = Registry::new();
    let handle = insert_fake(&mut registry, 1);
    assert!(remove(&mut registry, handle));

    let result = with_session(&mut registry, handle, |_| Ok(()));
    assert!(matches!(result, Err(PdfError::InvalidHandle(h)) if h == handle));
}

#[test]
fn closing_twice_reports_that_nothing_was_closed() {
    let mut registry = Registry::new();
    let handle = insert_fake(&mut registry, 1);
    assert!(remove(&mut registry, handle));
    assert!(!remove(&mut registry, handle), "the second close must be detectable");
}

#[test]
fn handles_are_never_recycled() {
    let mut registry = Registry::new();
    let first = insert_fake(&mut registry, 1);
    remove(&mut registry, first);
    let second = insert_fake(&mut registry, 1);

    assert_ne!(first, second);
    assert!(with_session(&mut registry, first, |_| Ok(())).is_err());
    remove(&mut registry, second);
}

#[test]
fn trimming_caches_frees_memory_without_closing_documents() {
    let mut registry = Registry::new();
    let handle = insert_fake(&mut registry, 2);
    with_session(&mut registry, handle, |s| {
        s.cache.put(CacheKey::at_step(0, 4, 0), Bitmap::new(16, 16, PixelOrder::Rgba).unwrap());
        Ok(())
    })
    .unwrap();
    assert_eq!(with_session(&mut registry, handle, |s| Ok(s.cache.len())).unwrap(), 1);

    trim_caches(&mut registry);

    let (entries, still_open) =
        with_session(&mut registry, handle, |s| Ok((s.cache.len(), s.document.pages))).unwrap();
    assert_eq!(entries, 0, "cached rasters were released");
    assert_eq!(still_open, 2, "the document itself stayed open");

    remove(&mut registry, handle);
}

#[test]
fn clearing_everything_closes_everything_and_keeps_counting() {
    let mut registry = Registry::new();
    let a = insert_fake(&mut registry, 1);
    let b = insert_fake(&mut registry, 1);
    assert_eq!(open_count(&registry), 2);
    clear_all(&mut registry);
    assert_eq!(open_count(&registry), 0);
    assert!(with_session(&mut registry, a, |_| Ok(())).is_err());
    let c = insert_fake(&mut registry, 1);
    assert!(c > b, "a handle was given out again after clearing");
}

#[test]
fn an_error_from_the_session_comes_back_unchanged() {
    let mut registry = Registry::new();
    let handle = insert_fake(&mut registry, 5);
    let result: Result<(), PdfError> =
        with_session(&mut registry, handle, |s| Err(PdfError::PageOutOfRange { index: 9, count: s.document.pages }));
    assert!(matches!(result, Err(PdfError::PageOutOfRange { index: 9, count: 5 })));
    assert_eq!(open_count(&registry), 1, "a failed call closed the document");
}

#[test]
fn out_of_range_pages_are_rejected_with_the_real_page_count() {
    let mut registry = Registry::new();
    let handle = insert_fake(&mut registry, 5);
    let result = with_session(&mut registry, handle, |s| validate_page_index(&s.document, 9));
    assert!(matches!(result, Err(PdfError::PageOutOfRange { index: 9, count: 5 })));
    remove(&mut registry, handle);
}
