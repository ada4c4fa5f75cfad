use pdf_core::error::PdfError;
use pdf_core::render::export::ImageFormat;

#[test]
fn format_names_are_parsed_case_insensitively_and_unknown_ones_rejected() {
    assert_eq!(ImageFormat::parse("PNG", 90).unwrap(), ImageFormat::Png);
    assert_eq!(
        ImageFormat::parse("jpg", 80).unwrap(),
        ImageFormat::Jpeg { quality: 80 }
    );
    assert!(matches!(
        ImageFormat::parse("tiff", 90),
        Err(PdfError::InvalidArgument(_))
    ));
}

#[test]
fn each_format_names_its_own_file_kind() {
    assert_eq!(ImageFormat::Png.extension(), "png");
    assert_eq!(ImageFormat::Jpeg { quality: 1 }.extension(), "jpg");
    assert_eq!(ImageFormat::Png.mime_type(), "image/png");
    assert_eq!(ImageFormat::Jpeg { quality: 1 }.mime_type(), "image/jpeg");
    assert_eq!(ImageFormat::parse("JpEg", 7).unwrap(), ImageFormat::Jpeg { quality: 7 });
}

use pdf_core::render::bitmap::{Bitmap, PixelOrder, BYTES_PER_PIXEL};
use pdf_core::render::export::encode;

/// Two pixels wide, two tall: red, green / blue, white.
fn swatch(order: PixelOrder) -> Bitmap {
    let mut bitmap = Bitmap::new(2, 2, order).unwrap();
    let pixels: [[u8; 3]; 4] = [[255, 0, 0], [0, 255, 0], [0, 0, 255], [255, 255, 255]];
    for (i, rgb) in pixels.iter().enumerate() {
        let at = i * BYTES_PER_PIXEL;
        let stored = match order {
            PixelOrder::Rgba => [rgb[0], rgb[1], rgb[2]],
            PixelOrder::Bgra => [rgb[2], rgb[1], rgb[0]],
        };
        bitmap.data[at..at + 3].copy_from_slice(&stored);
        bitmap.data[at + 3] = 255;
    }
    bitmap
}

fn decode(bytes: &[u8]) -> Vec<[u8; 3]> {
    let decoded = image::load_from_memory(bytes).expect("decode").to_rgb8();
    decoded.pixels().map(|p| p.0).collect()
}

/// The swatch with its top-left pixel cut out, as the lasso leaves it.
fn swatch_with_a_hole() -> Bitmap {
    let mut bitmap = swatch(PixelOrder::Rgba);
    bitmap.data[0..4].copy_from_slice(&[0, 0, 0, 0]);
    bitmap
}

#[test]
fn a_png_keeps_transparency_when_the_picture_has_any() {
    let encoded = encode(&swatch_with_a_hole(), ImageFormat::Png).unwrap();
    let decoded = image::load_from_memory(&encoded).expect("decode").to_rgba8();

    assert_eq!(decoded.get_pixel(0, 0).0[3], 0, "the cut-out was filled in");
    assert_eq!(decoded.get_pixel(1, 0).0[3], 255, "the page went see-through");
}

#[test]
fn an_ordinary_png_still_has_no_alpha_channel() {
    let encoded = encode(&swatch(PixelOrder::Rgba), ImageFormat::Png).unwrap();
    let decoded = image::load_from_memory(&encoded).expect("decode");

    assert_eq!(decoded.color(), image::ColorType::Rgb8);
}

#[test]
fn a_jpeg_flattens_a_cut_out_rather_than_failing() {
    let encoded = encode(&swatch_with_a_hole(), ImageFormat::Jpeg { quality: 90 }).unwrap();
    let decoded = image::load_from_memory(&encoded).expect("decode");

    assert_eq!(decoded.color(), image::ColorType::Rgb8);
    assert_eq!(decoded.width(), 2);
}

#[test]
fn a_png_round_trips_every_pixel_exactly() {
    let encoded = encode(&swatch(PixelOrder::Rgba), ImageFormat::Png).unwrap();
    assert_eq!(&encoded[..8], b"\x89PNG\r\n\x1a\n", "not a PNG");
    assert_eq!(decode(&encoded), vec![[255, 0, 0], [0, 255, 0], [0, 0, 255], [255, 255, 255]],);
}

#[test]
fn a_bgra_bitmap_encodes_to_the_same_colours_as_an_rgba_one() {
    let from_rgba = encode(&swatch(PixelOrder::Rgba), ImageFormat::Png).unwrap();
    let from_bgra = encode(&swatch(PixelOrder::Bgra), ImageFormat::Png).unwrap();
    assert_eq!(decode(&from_rgba), decode(&from_bgra));
}

#[test]
fn row_padding_is_skipped_rather_than_encoded_as_pixels() {
    let mut bitmap = Bitmap::new(1, 2, PixelOrder::Rgba).unwrap();
    bitmap.stride = 8;
    bitmap.data = vec![
        255, 0, 0, 255, 9, 9, 9, 9, //
        0, 0, 255, 255, 9, 9, 9, 9,
    ];

    let encoded = encode(&bitmap, ImageFormat::Png).unwrap();
    assert_eq!(decode(&encoded), vec![[255, 0, 0], [0, 0, 255]]);
}

#[test]
fn a_jpeg_is_a_jpeg_and_is_close_enough_to_the_original() {
    let encoded = encode(&swatch(PixelOrder::Rgba), ImageFormat::Jpeg { quality: 90 }).unwrap();
    assert_eq!(&encoded[..2], b"\xff\xd8", "not a JPEG");

    let decoded = decode(&encoded);
    assert_eq!(decoded.len(), 4);
    assert!(decoded[0][0] > 200 && decoded[0][1] < 80, "red became {:?}", decoded[0]);
    assert!(decoded[3].iter().all(|&c| c > 200), "white became {:?}", decoded[3]);
}

#[test]
fn encoding_is_deterministic() {
    let once = encode(&swatch(PixelOrder::Rgba), ImageFormat::Png).unwrap();
    let twice = encode(&swatch(PixelOrder::Rgba), ImageFormat::Png).unwrap();
    assert_eq!(once, twice);
}

#[test]
fn an_absurd_jpeg_quality_is_clamped_rather_than_rejected() {
    for quality in [0, 200] {
        assert!(encode(&swatch(PixelOrder::Rgba), ImageFormat::Jpeg { quality }).is_ok());
    }
}
