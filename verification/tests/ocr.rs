use pdf_core::ocr::preprocess::{normalise_contrast, to_grey};
use pdf_core::ocr::script::{detect, Guess, Script};
use pdf_core::ocr::tiling::{tiles, Tile};
use pdf_core::ocr::GreyImage;

#[test]
fn a_page_in_one_script_is_certain() {
    assert_eq!(detect("Ordinary English prose about luminaires"), Guess::Certain(Script::Latin));
    assert_eq!(detect("مرحبا بكم في الكتالوج"), Guess::Certain(Script::Arabic));
    assert_eq!(detect("Обычный русский текст"), Guess::Certain(Script::Cyrillic));
}

#[test]
fn digits_and_punctuation_do_not_vote() {
    assert_eq!(Script::of('7'), None);
    assert_eq!(Script::of('-'), None);
    assert_eq!(Script::of(' '), None);
    assert_eq!(detect("12345 -- 67.89"), Guess::Unknown);
}

#[test]
fn a_genuinely_mixed_page_refuses_to_pick() {
    let mixed = "specification مواصفات lighting إضاءة catalogue كتالوج";
    match detect(mixed) {
        Guess::Ambiguous(scripts) => {
            assert!(scripts.contains(&Script::Latin));
            assert!(scripts.contains(&Script::Arabic));
        }
        other => panic!("a mixed page was decided rather than questioned: {other:?}"),
    }
    assert_eq!(detect(mixed).settled(), None, "settled() handed back a guess");
}

#[test]
fn a_stray_latin_word_does_not_unsettle_a_page() {
    let arabic = "هذا كتالوج الإضاءة الخاص بشركة HSI ويحتوي على مواصفات كاملة للمنتجات";
    assert_eq!(detect(arabic), Guess::Certain(Script::Arabic));
}

#[test]
fn japanese_mixing_kana_and_han_is_not_ambiguous() {
    let japanese = "東京都の照明カタログです。製品の仕様はこちらをご覧ください。";
    assert!(
        matches!(detect(japanese), Guess::Certain(_)),
        "ordinary Japanese was treated as a mixed-script page"
    );
}

#[test]
fn an_empty_page_is_unknown_not_latin() {
    assert_eq!(detect(""), Guess::Unknown);
    assert_eq!(detect("").settled(), None, "an empty page defaulted to a script");
}

#[test]
fn direction_and_segmentation_come_from_the_script() {
    assert!(Script::Arabic.is_rtl());
    assert!(Script::Hebrew.is_rtl());
    assert!(!Script::Latin.is_rtl());

    assert!(Script::Han.needs_segmentation());
    assert!(Script::Thai.needs_segmentation());
    assert!(!Script::Latin.needs_segmentation());
}

#[test]
fn a_mixed_page_lists_the_leader_first_and_breaks_ties_by_name() {
    // Three Latin letters, three Greek: equal counts, so the name decides.
    assert_eq!(detect("abc αβγ"), Guess::Ambiguous(vec![Script::Greek, Script::Latin]));
    assert_eq!(detect("abcd αβγ"), Guess::Ambiguous(vec![Script::Latin, Script::Greek]));
    assert_eq!(detect("abcdefgh αβ"), Guess::Certain(Script::Latin));
    assert_eq!(detect("abcd").settled(), Some(Script::Latin));
}

#[test]
fn a_page_inside_the_budget_is_one_tile() {
    let cut = tiles(1000, 1000, 2_000_000, 40);
    assert_eq!(cut, vec![Tile { x: 0, y: 0, width: 1000, height: 1000 }]);
}

#[test]
fn a_large_page_is_cut_into_full_width_strips() {
    let cut = tiles(2480, 3508, 1_000_000, 60);
    assert!(cut.len() > 1, "an 8.7 M pixel page was not tiled");
    assert!(cut.iter().all(|t| t.width == 2480 && t.x == 0), "tiles were cut vertically");
    assert!(
        cut.iter().all(|t| t.width as usize * t.height as usize <= 1_000_000),
        "a tile exceeded the budget"
    );
}

#[test]
fn tiles_overlap_so_a_line_on_a_seam_is_seen_whole_by_someone() {
    let overlap = 60;
    let cut = tiles(1000, 5000, 500_000, overlap);
    for pair in cut.windows(2) {
        let (first, second) = (pair[0], pair[1]);
        let shared = (first.y + first.height).saturating_sub(second.y);
        assert!(
            shared >= overlap || second.y + second.height == 5000,
            "tiles at {} and {} share only {shared} rows",
            first.y,
            second.y
        );
    }
}

#[test]
fn every_row_of_the_page_is_covered_by_some_tile() {
    let (width, height) = (1000u32, 4321u32);
    let cut = tiles(width, height, 400_000, 50);
    for row in (0..height).step_by(7) {
        assert!(cut.iter().any(|t| row >= t.y && row < t.y + t.height), "row {row} is in no tile");
    }
}

#[test]
fn strips_step_by_the_rows_less_the_overlap_and_end_at_the_bottom() {
    // 100 rows fit; each strip starts 90 below the last; the last is pulled
    // back to end exactly at row 250.
    let cut = tiles(10, 250, 1000, 10);
    assert_eq!(
        cut,
        vec![
            Tile { x: 0, y: 0, width: 10, height: 100 },
            Tile { x: 0, y: 90, width: 10, height: 100 },
            Tile { x: 0, y: 150, width: 10, height: 100 },
        ]
    );
    assert!(tiles(0, 1000, 1000, 10).is_empty());
    assert!(tiles(1000, 0, 1000, 10).is_empty());
}

#[test]
fn greyscale_uses_luma_weights_not_a_flat_average() {
    let green = to_grey(&[0, 255, 0, 255], 1, 1);
    let blue = to_grey(&[0, 0, 255, 255], 1, 1);
    assert!(green.data[0] > blue.data[0] + 100, "green {} blue {}", green.data[0], blue.data[0]);
    assert_eq!(to_grey(&[255, 255, 255, 255], 1, 1).data[0], 255);
    assert_eq!(to_grey(&[0, 0, 0, 255], 1, 1).data[0], 0);
}

#[test]
fn luma_is_rounded_to_the_nearest_level() {
    assert_eq!(to_grey(&[0, 255, 0, 255], 1, 1).data[0], 150);
    assert_eq!(to_grey(&[0, 0, 255, 255], 1, 1).data[0], 29);
    assert_eq!(to_grey(&[255, 0, 0, 255], 1, 1).data[0], 76);
}

#[test]
fn a_short_buffer_gives_white_rather_than_panicking() {
    let image = to_grey(&[0, 0, 0, 255], 4, 4);
    assert_eq!(image.data.len(), 16);
    assert_eq!(image.data[15], 0xFF);
}

#[test]
fn contrast_stretches_a_flat_scan_to_the_full_range() {
    let mut image = GreyImage::white(100, 100);
    for (i, value) in image.data.iter_mut().enumerate() {
        *value = if i % 3 == 0 { 90 } else { 170 };
    }
    normalise_contrast(&mut image);
    let low = *image.data.iter().min().unwrap();
    let high = *image.data.iter().max().unwrap();
    assert!(low < 40, "the ink is still pale: {low}");
    assert!(high > 215, "the paper is still grey: {high}");
}

#[test]
fn one_speck_of_dust_does_not_define_the_range() {
    let mut image = GreyImage::white(100, 100);
    for (i, value) in image.data.iter_mut().enumerate() {
        *value = if i % 3 == 0 { 120 } else { 200 };
    }
    image.data[0] = 0;
    normalise_contrast(&mut image);
    let ink = image.data[3];
    assert!(ink < 60, "the text was left compressed by one dark pixel: {ink}");
}

#[test]
fn a_blank_page_is_not_amplified_into_noise() {
    let mut blank = GreyImage::white(50, 50);
    let before = blank.clone();
    normalise_contrast(&mut blank);
    assert_eq!(blank, before, "a blank page was contrast-stretched");
}

#[test]
fn a_stretch_maps_the_range_onto_the_full_scale() {
    let mut image = GreyImage::white(10, 10);
    for (i, value) in image.data.iter_mut().enumerate() {
        *value = if i % 2 == 0 { 100 } else { 200 };
    }
    image.data[1] = 150;
    normalise_contrast(&mut image);
    assert_eq!(image.data[0], 0);
    assert_eq!(image.data[3], 255);
    assert_eq!(image.data[1], 127);
}

#[test]
fn a_grey_image_reads_paper_outside_itself() {
    let mut image = GreyImage::white(3, 2);
    image.set(2, 1, 7);
    image.set(5, 5, 9);
    assert_eq!(image.get(2, 1), 7);
    assert_eq!(image.data[5], 7);
    assert_eq!(image.get(3, 0), 0xFF);
    assert!(!image.is_empty());
    assert!(GreyImage::white(0, 4).is_empty());
}

#[test]
fn a_tile_is_copied_out_where_it_says_it_is() {
    let mut image = pdf_core::ocr::GreyImage::white(100, 100);
    image.set(60, 70, 0x10);

    let piece = pdf_core::ocr::pipeline::crop(
        &image,
        &pdf_core::ocr::tiling::Tile { x: 50, y: 50, width: 40, height: 40 },
    );
    assert_eq!(piece.get(10, 20), 0x10);
    assert_eq!(piece.get(0, 0), 0xFF);
}

#[test]
fn a_tile_past_the_edge_reads_as_paper() {
    let mut image = pdf_core::ocr::GreyImage::white(10, 10);
    image.set(9, 9, 0);
    let piece = pdf_core::ocr::pipeline::crop(
        &image,
        &pdf_core::ocr::tiling::Tile { x: 8, y: 8, width: 4, height: 4 },
    );
    assert_eq!(piece.width, 4);
    assert_eq!(piece.data.len(), 16);
    assert_eq!(piece.get(1, 1), 0);
    assert_eq!(piece.get(3, 3), 0xFF);
}

/// The grey value as the floating-point luma formula gives it.
fn float_luma(r: u8, g: u8, b: u8) -> u8 {
    (0.299 * r as f32 + 0.587 * g as f32 + 0.114 * b as f32).round().clamp(0.0, 255.0) as u8
}

// Exact ties (a luma of n + 0.5 in exact arithmetic) are left out: there the
// float sum lands a hair either side of the half and rounds accordingly,
// while the integer formula rounds the exact half up.
#[test]
fn the_integer_luma_agrees_with_the_float_formula_off_exact_ties() {
    for b in 0..=255u8 {
        let mut pixels = Vec::with_capacity(256 * 256 * 4);
        for r in 0..=255u8 {
            for g in 0..=255u8 {
                pixels.extend_from_slice(&[r, g, b, 255]);
            }
        }
        let grey = to_grey(&pixels, 256, 256);
        for r in 0..=255u8 {
            for g in 0..=255u8 {
                let thousandths = 299 * r as u32 + 587 * g as u32 + 114 * b as u32;
                if thousandths % 1000 == 500 {
                    continue;
                }
                let got = grey.data[r as usize * 256 + g as usize];
                assert_eq!(got, float_luma(r, g, b), "r={r} g={g} b={b}");
            }
        }
    }
}

/// The contrast stretch as the floating-point formula gives it.
fn float_stretch(data: &mut [u8]) {
    let mut histogram = [0u32; 256];
    for v in data.iter() {
        histogram[*v as usize] += 1;
    }
    let total = data.len() as u32;
    let cut = (total as f32 * 0.02) as u32;
    let mut seen = 0u32;
    let mut low = 0u8;
    for (value, count) in histogram.iter().enumerate() {
        seen += count;
        if seen > cut {
            low = value as u8;
            break;
        }
    }
    seen = 0;
    let mut high = 255u8;
    for (value, count) in histogram.iter().enumerate().rev() {
        seen += count;
        if seen > cut {
            high = value as u8;
            break;
        }
    }
    if high <= low || (high - low) < 16 {
        return;
    }
    let span = (high - low) as f32;
    for v in data.iter_mut() {
        let stretched = (*v as f32 - low as f32) / span * 255.0;
        *v = stretched.clamp(0.0, 255.0) as u8;
    }
}

#[test]
fn the_integer_stretch_agrees_with_the_float_formula() {
    let mut seed = 12345u32;
    for total in 1..600usize {
        for _ in 0..4 {
            let data: Vec<u8> = (0..total)
                .map(|_| {
                    seed = seed.wrapping_mul(1103515245).wrapping_add(12345);
                    (seed >> 16) as u8
                })
                .collect();
            let mut expected = data.clone();
            float_stretch(&mut expected);
            let mut image = GreyImage { width: total as u32, height: 1, data };
            normalise_contrast(&mut image);
            assert_eq!(image.data, expected, "total {total}");
        }
    }
    // Every low and high a stretch can have, with every value between.
    for low in (0..=255u8).step_by(5) {
        for high in low..=255u8 {
            let mut data: Vec<u8> = (low..=high).collect();
            data.extend(std::iter::repeat(low).take(100));
            data.extend(std::iter::repeat(high).take(100));
            let mut expected = data.clone();
            float_stretch(&mut expected);
            let mut image = GreyImage { width: data.len() as u32, height: 1, data };
            normalise_contrast(&mut image);
            assert_eq!(image.data, expected, "low {low} high {high}");
        }
    }
}
