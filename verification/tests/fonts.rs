use pdf_core::error::PdfError;
use pdf_core::pdf::embed::{can_spell, face_name, face_units};

fn be16(out: &mut Vec<u8>, v: u16) {
    out.extend_from_slice(&v.to_be_bytes());
}

fn be32(out: &mut Vec<u8>, v: u32) {
    out.extend_from_slice(&v.to_be_bytes());
}

/// A name record: platform, encoding, name id and its text.
type Record<'a> = (u16, u16, u16, &'a str);

/// A small TrueType face written by hand: 1000 units per em, ascender 800,
/// descender -200, a bounding box of (-50, -200, 950, 800), two glyphs whose
/// advances are 500 and 600, `A` mapped to the second, and these names.
fn face(names: &[Record]) -> Vec<u8> {
    // cmap: one Windows Unicode BMP subtable in format 4, 'A' -> glyph 1.
    let mut cmap = Vec::new();
    be16(&mut cmap, 0);
    be16(&mut cmap, 1);
    be16(&mut cmap, 3);
    be16(&mut cmap, 1);
    be32(&mut cmap, 12);
    for v in [4u16, 32, 0, 4, 4, 1, 0, 0x41, 0xFFFF, 0, 0x41, 0xFFFF, 0xFFC0, 1, 0, 0] {
        be16(&mut cmap, v);
    }

    let mut head = Vec::new();
    be32(&mut head, 0x0001_0000);
    be32(&mut head, 0x0001_0000);
    be32(&mut head, 0);
    be32(&mut head, 0x5F0F_3CF5);
    be16(&mut head, 0);
    be16(&mut head, 1000);
    head.extend_from_slice(&[0u8; 16]);
    for v in [-50i16, -200, 950, 800] {
        be16(&mut head, v as u16);
    }
    for v in [0u16, 8, 2, 0, 0] {
        be16(&mut head, v);
    }

    let mut hhea = Vec::new();
    be32(&mut hhea, 0x0001_0000);
    be16(&mut hhea, 800);
    be16(&mut hhea, (-200i16) as u16);
    be16(&mut hhea, 0);
    hhea.extend_from_slice(&[0u8; 24]);
    be16(&mut hhea, 2);

    let mut hmtx = Vec::new();
    for v in [500u16, 0, 600, 0] {
        be16(&mut hmtx, v);
    }

    let mut maxp = Vec::new();
    be32(&mut maxp, 0x0000_5000);
    be16(&mut maxp, 2);

    let mut strings = Vec::new();
    let mut name = Vec::new();
    be16(&mut name, 0);
    be16(&mut name, names.len() as u16);
    be16(&mut name, (6 + 12 * names.len()) as u16);
    for (platform, encoding, id, text) in names {
        let bytes: Vec<u8> = if *platform == 3 {
            text.encode_utf16().flat_map(|u| u.to_be_bytes()).collect()
        } else {
            text.bytes().collect()
        };
        for v in [*platform, *encoding, 0x0409, *id, bytes.len() as u16, strings.len() as u16] {
            be16(&mut name, v);
        }
        strings.extend_from_slice(&bytes);
    }
    name.extend_from_slice(&strings);

    let tables: [(&[u8; 4], Vec<u8>); 6] =
        [(b"cmap", cmap), (b"head", head), (b"hhea", hhea), (b"hmtx", hmtx), (b"maxp", maxp), (b"name", name)];
    let mut out = Vec::new();
    be32(&mut out, 0x0001_0000);
    be16(&mut out, tables.len() as u16);
    be16(&mut out, 0);
    be16(&mut out, 0);
    be16(&mut out, 0);
    let mut offset = 12 + 16 * tables.len();
    for (tag, data) in &tables {
        out.extend_from_slice(*tag);
        be32(&mut out, 0);
        be32(&mut out, offset as u32);
        be32(&mut out, data.len() as u32);
        offset += (data.len() + 3) / 4 * 4;
    }
    for (_, data) in &tables {
        out.extend_from_slice(data);
        while out.len() % 4 != 0 {
            out.push(0);
        }
    }
    out
}

#[test]
fn a_face_reads_in_its_own_units() {
    let units = face_units(&face(&[])).expect("a face");
    assert_eq!(units.units_per_em, 1000);
    assert_eq!((units.ascender, units.descender), (800, -200));
    // No OS/2 table, so no capital height: the ascender stands in.
    assert_eq!(units.cap_height, 800);
    assert_eq!((units.x_min, units.y_min, units.x_max, units.y_max), (-50, -200, 950, 800));
    assert!(!units.bold);
    assert_eq!(units.advances.len(), 224);
    assert_eq!(units.advances[usize::from(b'A' - 32)], 600, "A has the second glyph's advance");
    assert_eq!(units.advances[usize::from(b'B' - 32)], 0, "a code with no glyph has no width");
}

#[test]
fn bytes_that_are_not_a_face_say_so() {
    match face_units(b"not a font") {
        Err(PdfError::InvalidArgument(m)) => assert_eq!(m, "that file is not a font this can read"),
        other => panic!("expected a refusal, got {other:?}"),
    }
    assert_eq!(face_name(b"not a font"), None);
    assert!(!can_spell(b"not a font", ""));
}

#[test]
fn the_postscript_name_comes_first() {
    let bytes = face(&[(3, 1, 4, "Demo Sans Bold"), (3, 1, 6, "DemoSans-Bold")]);
    assert_eq!(face_name(&bytes).as_deref(), Some("DemoSans-Bold"));
}

#[test]
fn the_full_name_stands_in_when_the_postscript_name_does_not_decode() {
    // A Macintosh record is not Unicode, so its text does not decode.
    let bytes = face(&[(1, 0, 6, "MacName"), (3, 1, 4, "Demo Sans Bold")]);
    assert_eq!(face_name(&bytes).as_deref(), Some("Demo Sans Bold"));
    assert_eq!(face_name(&face(&[])), None, "a face with no names says nothing");
}

#[test]
fn a_face_spells_what_it_has_glyphs_for() {
    let bytes = face(&[]);
    assert!(can_spell(&bytes, "A A\tA"), "white space needs no glyph");
    assert!(can_spell(&bytes, ""));
    assert!(!can_spell(&bytes, "AB"), "the face has no B");
    assert!(!can_spell(&bytes, "\u{263A}"), "the encoding has no code for it");
}
