use pdf_core::pdf::embed::{truetype, win_ansi, win_ansi_char, FaceFacts};

#[test]
fn ascii_is_its_own_encoding() {
    assert_eq!(win_ansi("Hello, world!"), Some(b"Hello, world!".to_vec()));
    assert_eq!(win_ansi_char(b'A'), Some('A'));
}

// The stretch where the encoding is not Latin-1, and the reason the table
// exists at all.
#[test]
fn the_punctuation_windows_moved_is_where_windows_put_it() {
    assert_eq!(win_ansi("\u{2019}"), Some(vec![0x92]), "a right single quote");
    assert_eq!(win_ansi("\u{2014}"), Some(vec![0x97]), "an em dash");
    assert_eq!(win_ansi("\u{20AC}"), Some(vec![0x80]), "a euro sign");
    assert_eq!(win_ansi_char(0x92), Some('\u{2019}'));
    assert_eq!(win_ansi_char(0x97), Some('\u{2014}'));
}

#[test]
fn latin_one_above_the_gap_is_itself() {
    assert_eq!(win_ansi("é"), Some(vec![0xE9]));
    assert_eq!(win_ansi_char(0xE9), Some('é'));
}

// A character with no code refuses rather than substituting. A wrong code
// draws a wrong letter silently.
#[test]
fn a_character_the_encoding_cannot_carry_is_refused() {
    assert_eq!(win_ansi("日本語"), None);
    assert_eq!(win_ansi("Hello 日"), None);
    // The holes inside the moved stretch are holes.
    assert_eq!(win_ansi_char(0x81), None);
    assert_eq!(win_ansi_char(0x8D), None);
}

#[test]
fn every_code_reads_back_to_itself() {
    for code in 0u8..=255 {
        if let Some(c) = win_ansi_char(code) {
            assert_eq!(win_ansi(&c.to_string()), Some(vec![code]), "code {code:#x}");
        }
    }
    // Controls below the space have no character.
    assert_eq!(win_ansi_char(0x0A), None);
    assert_eq!(win_ansi("\u{FFFD}"), None);
}

fn facts(name: Option<&str>, bold: bool) -> FaceFacts {
    FaceFacts {
        name: name.map(|n| n.to_string()),
        ascent: 800,
        descent: -200,
        cap_height: 700,
        italic_angle: "0.0".to_string(),
        x_min: -50,
        y_min: -210,
        x_max: 1000,
        y_max: 900,
        bold,
        widths: vec![250; 224],
    }
}

fn find(haystack: &[u8], needle: &[u8]) -> bool {
    haystack.windows(needle.len()).any(|w| w == needle)
}

#[test]
fn a_font_takes_three_objects_from_the_first_free_number() {
    let embedded = truetype(&facts(Some("Demo Sans Bold"), true), b"not really a font", 7).expect("embed");
    assert_eq!(embedded.font, 7);
    assert_eq!(embedded.name, "Demo Sans Bold");
    let numbers: Vec<u32> = embedded.objects.iter().map(|(n, _)| *n).collect();
    assert_eq!(numbers, vec![7, 8, 9]);
    let font = &embedded.objects[0].1;
    assert!(find(font, b"/BaseFont /DemoSansBold"), "spaces are taken out of the name");
    assert!(find(font, b"/FontDescriptor 8 0 R"));
    assert!(find(font, b"/Subtype /TrueType"));
    let descriptor = &embedded.objects[1].1;
    assert!(find(descriptor, b"/Flags 262176"), "a bold face sets bit 19");
    assert!(find(descriptor, b"/FontFile2 9 0 R"));
    assert!(find(descriptor, b"/Descent -200"));
    assert!(find(&embedded.objects[2].1, b"/Length1 17"));
}

#[test]
fn a_face_with_no_usable_name_gets_one_of_ours() {
    let embedded = truetype(&facts(Some("  ***  "), false), b"x", 1).expect("embed");
    assert!(find(&embedded.objects[0].1, b"/BaseFont /PagifyTyping"));
    assert!(find(&embedded.objects[1].1, b"/Flags 32"));
    let unnamed = truetype(&facts(None, false), b"x", 1).expect("embed");
    assert_eq!(unnamed.name, "PagifyTyping");
}
