use pdf_core::error::PdfError;
use pdf_core::render::bitmap::{
    swap_red_blue_in_place, swap_red_blue_rows, validate_dimensions, Bitmap, PixelOrder,
    MAX_DIMENSION_PX,
};
use pdf_core::render::RenderTarget;

#[test]
fn swapping_moves_red_and_blue_but_leaves_green_and_alpha() {
    let mut buf = vec![1, 2, 3, 4, 10, 20, 30, 40];
    swap_red_blue_in_place(&mut buf);
    assert_eq!(buf, vec![3, 2, 1, 4, 30, 20, 10, 40]);
}

#[test]
fn swapping_twice_is_the_identity() {
    let original: Vec<u8> = (0u8..=63).collect();
    let mut buf = original.clone();
    swap_red_blue_in_place(&mut buf);
    assert_ne!(buf, original, "one swap must actually change the buffer");
    swap_red_blue_in_place(&mut buf);
    assert_eq!(buf, original);
}

#[test]
fn a_trailing_partial_pixel_is_left_alone_rather_than_panicking() {
    let mut buf = vec![1, 2, 3, 4, 9, 9];
    swap_red_blue_in_place(&mut buf);
    assert_eq!(buf, vec![3, 2, 1, 4, 9, 9]);
}

#[test]
fn stride_padding_is_skipped_not_swapped() {
    let mut buf = vec![
        1, 2, 3, 4, 0xAA, 0xBB, 0xCC, 0xDD, //
        5, 6, 7, 8, 0xAA, 0xBB, 0xCC, 0xDD,
    ];
    swap_red_blue_rows(&mut buf, 1, 2, 8);
    assert_eq!(
        buf,
        vec![
            3, 2, 1, 4, 0xAA, 0xBB, 0xCC, 0xDD, //
            7, 6, 5, 8, 0xAA, 0xBB, 0xCC, 0xDD,
        ],
        "padding bytes must survive untouched"
    );
}

#[test]
fn stride_swap_stops_at_the_buffer_end_instead_of_reading_past_it() {
    let mut buf = vec![1, 2, 3, 4, 5, 6, 7, 8];
    swap_red_blue_rows(&mut buf, 1, 3, 4);
    assert_eq!(buf, vec![3, 2, 1, 4, 7, 6, 5, 8]);
}

#[test]
fn zero_sized_renders_are_rejected() {
    assert!(matches!(validate_dimensions(0, 100), Err(PdfError::InvalidBitmap(_))));
    assert!(matches!(validate_dimensions(100, 0), Err(PdfError::InvalidBitmap(_))));
}

#[test]
fn oversized_renders_are_rejected_by_dimension_and_by_area() {
    assert!(matches!(
        validate_dimensions(MAX_DIMENSION_PX + 1, 10),
        Err(PdfError::RenderTooLarge { .. })
    ));
    assert!(matches!(
        validate_dimensions(16_000, 16_000),
        Err(PdfError::RenderTooLarge { .. })
    ));
    assert!(validate_dimensions(4_000, 4_000).is_ok());
}

#[test]
fn convert_to_is_idempotent_and_flips_the_recorded_order() {
    let mut bmp = Bitmap::new(2, 2, PixelOrder::Bgra).unwrap();
    bmp.data.copy_from_slice(&[1, 2, 3, 4, 5, 6, 7, 8, 9, 10, 11, 12, 13, 14, 15, 16]);

    bmp.convert_to(PixelOrder::Rgba);
    assert_eq!(bmp.order, PixelOrder::Rgba);
    assert_eq!(bmp.data[0], 3);

    let snapshot = bmp.data.clone();
    bmp.convert_to(PixelOrder::Rgba);
    assert_eq!(bmp.data, snapshot);
}

#[test]
fn new_bitmap_is_zeroed_and_correctly_sized() {
    let bmp = Bitmap::new(3, 5, PixelOrder::Rgba).unwrap();
    assert_eq!(bmp.stride, 12);
    assert_eq!(bmp.byte_len(), 60);
    assert!(bmp.data.iter().all(|&b| b == 0));
}

#[test]
fn zero_sized_renders_name_their_size() {
    match validate_dimensions(0, 7) {
        Err(e) => assert_eq!(e.message(), "invalid bitmap: zero-sized bitmap 0x7"),
        Ok(()) => panic!("accepted"),
    }
}

#[test]
fn a_buffer_that_is_too_small_is_rejected() {
    let mut buf = vec![0u8; 4 * 4 * 4 - 1];
    let err = RenderTarget::new(4, 4, 16, PixelOrder::Rgba, &mut buf);
    assert!(matches!(err, Err(PdfError::InvalidBitmap(_))));
}

#[test]
fn a_stride_narrower_than_the_row_is_rejected() {
    let mut buf = vec![0u8; 256];
    let err = RenderTarget::new(4, 4, 8, PixelOrder::Rgba, &mut buf);
    assert!(matches!(err, Err(PdfError::InvalidBitmap(_))));
}

#[test]
fn the_final_rows_trailing_padding_need_not_be_allocated() {
    let mut buf = vec![0u8; 20];
    assert!(RenderTarget::new(2, 2, 12, PixelOrder::Rgba, &mut buf).is_ok());

    let mut short = vec![0u8; 19];
    assert!(RenderTarget::new(2, 2, 12, PixelOrder::Rgba, &mut short).is_err());
}

#[test]
fn tight_packing_is_detected() {
    let mut buf = vec![0u8; 64];
    let tight = RenderTarget::new(4, 4, 16, PixelOrder::Rgba, &mut buf).unwrap();
    assert!(tight.is_tightly_packed());

    let mut padded_buf = vec![0u8; 128];
    let padded = RenderTarget::new(4, 4, 24, PixelOrder::Rgba, &mut padded_buf).unwrap();
    assert!(!padded.is_tightly_packed());
}

#[test]
fn normalising_a_bgra_target_is_a_no_op() {
    let mut buf: Vec<u8> = (0u8..16).collect();
    let original = buf.clone();
    let mut target = RenderTarget::new(2, 2, 8, PixelOrder::Bgra, &mut buf).unwrap();
    target.normalise_from_pdfium();
    assert_eq!(buf, original);
}

#[test]
fn normalising_an_rgba_target_swaps_red_and_blue() {
    let mut buf = vec![1, 2, 3, 4, 5, 6, 7, 8];
    let mut target = RenderTarget::new(2, 1, 8, PixelOrder::Rgba, &mut buf).unwrap();
    target.normalise_from_pdfium();
    assert_eq!(buf, vec![3, 2, 1, 4, 7, 6, 5, 8]);
}

#[test]
fn copying_a_cached_page_converts_order_and_respects_stride() {
    let mut source = Bitmap::new(2, 2, PixelOrder::Bgra).unwrap();
    source.data.copy_from_slice(&[1, 2, 3, 4, 5, 6, 7, 8, 9, 10, 11, 12, 13, 14, 15, 16]);

    let mut buf = vec![0xFFu8; 24];
    let mut target = RenderTarget::new(2, 2, 12, PixelOrder::Rgba, &mut buf).unwrap();
    target.copy_from(&source).unwrap();

    assert_eq!(&buf[0..8], &[3, 2, 1, 4, 7, 6, 5, 8]);
    assert_eq!(&buf[8..12], &[0xFF, 0xFF, 0xFF, 0xFF], "padding untouched");
    assert_eq!(&buf[12..20], &[11, 10, 9, 12, 15, 14, 13, 16]);
}

#[test]
fn copying_a_mismatched_size_is_an_error_not_a_partial_blit() {
    let source = Bitmap::new(3, 3, PixelOrder::Rgba).unwrap();
    let mut buf = vec![0u8; 64];
    let mut target = RenderTarget::new(4, 4, 16, PixelOrder::Rgba, &mut buf).unwrap();
    assert!(matches!(target.copy_from(&source), Err(PdfError::InvalidBitmap(_))));
}

#[test]
fn from_bitmap_borrows_the_whole_buffer() {
    let mut bmp = Bitmap::new(5, 3, PixelOrder::Rgba).unwrap();
    let target = RenderTarget::from_bitmap(&mut bmp).unwrap();
    assert_eq!((target.width, target.height), (5, 3));
    assert!(target.is_tightly_packed());
}
