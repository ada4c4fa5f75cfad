//! The one-byte encoding typed text is written in.
//!
//! A simple TrueType font with `/WinAnsiEncoding` takes one byte a character,
//! which is what the rest of the editing path speaks. Everything in the
//! encoding is ASCII below 127 and Latin-1 above 159; only the 32 codes where
//! Latin-1 has controls need a table.

use vstd::prelude::*;
use crate::error::{PdfError, Result};
use crate::pdf::object::{Dict, Object, Value, values_of, lemma_array_value};
use crate::pdf::reader::{bodies, stream_written, write_object, write_stream, written};
use crate::pdf::content::deflated;
use crate::text::{chars_of, decimal_bytes, push_decimal_bytes, push_signed_decimal, signed_decimal};

verus! {

/// A font ready to be written into a document.
#[derive(Debug, Clone)]
pub struct Embedded {
    /// The objects to add, as `(number, bytes)`.
    pub objects: Vec<(u32, Vec<u8>)>,
    /// The object number of the font dictionary, for a resource entry.
    pub font: u32,
    /// What the face calls itself, for telling somebody what they now have.
    pub name: String,
}

/// The character the encoding puts at `0x80 + i`, where Latin-1 has a
/// control; U+FFFD marks the codes the encoding leaves empty.
pub open spec fn high_char(i: int) -> char {
        if i == 0 { '\u{20AC}' }
        else if i == 1 { '\u{FFFD}' }
        else if i == 2 { '\u{201A}' }
        else if i == 3 { '\u{0192}' }
        else if i == 4 { '\u{201E}' }
        else if i == 5 { '\u{2026}' }
        else if i == 6 { '\u{2020}' }
        else if i == 7 { '\u{2021}' }
        else if i == 8 { '\u{02C6}' }
        else if i == 9 { '\u{2030}' }
        else if i == 10 { '\u{0160}' }
        else if i == 11 { '\u{2039}' }
        else if i == 12 { '\u{0152}' }
        else if i == 13 { '\u{FFFD}' }
        else if i == 14 { '\u{017D}' }
        else if i == 15 { '\u{FFFD}' }
        else if i == 16 { '\u{FFFD}' }
        else if i == 17 { '\u{2018}' }
        else if i == 18 { '\u{2019}' }
        else if i == 19 { '\u{201C}' }
        else if i == 20 { '\u{201D}' }
        else if i == 21 { '\u{2022}' }
        else if i == 22 { '\u{2013}' }
        else if i == 23 { '\u{2014}' }
        else if i == 24 { '\u{02DC}' }
        else if i == 25 { '\u{2122}' }
        else if i == 26 { '\u{0161}' }
        else if i == 27 { '\u{203A}' }
        else if i == 28 { '\u{0153}' }
        else if i == 29 { '\u{FFFD}' }
        else if i == 30 { '\u{017E}' }
        else if i == 31 { '\u{0178}' }
        else { '\u{FFFD}' }
}

fn high(i: u8) -> (c: char)
    requires
        i < 32,
    ensures
        c == high_char(i as int),
{
    if i == 0 { '\u{20AC}' }
    else if i == 1 { '\u{FFFD}' }
    else if i == 2 { '\u{201A}' }
    else if i == 3 { '\u{0192}' }
    else if i == 4 { '\u{201E}' }
    else if i == 5 { '\u{2026}' }
    else if i == 6 { '\u{2020}' }
    else if i == 7 { '\u{2021}' }
    else if i == 8 { '\u{02C6}' }
    else if i == 9 { '\u{2030}' }
    else if i == 10 { '\u{0160}' }
    else if i == 11 { '\u{2039}' }
    else if i == 12 { '\u{0152}' }
    else if i == 13 { '\u{FFFD}' }
    else if i == 14 { '\u{017D}' }
    else if i == 15 { '\u{FFFD}' }
    else if i == 16 { '\u{FFFD}' }
    else if i == 17 { '\u{2018}' }
    else if i == 18 { '\u{2019}' }
    else if i == 19 { '\u{201C}' }
    else if i == 20 { '\u{201D}' }
    else if i == 21 { '\u{2022}' }
    else if i == 22 { '\u{2013}' }
    else if i == 23 { '\u{2014}' }
    else if i == 24 { '\u{02DC}' }
    else if i == 25 { '\u{2122}' }
    else if i == 26 { '\u{0161}' }
    else if i == 27 { '\u{203A}' }
    else if i == 28 { '\u{0153}' }
    else if i == 29 { '\u{FFFD}' }
    else if i == 30 { '\u{017E}' }
    else if i == 31 { '\u{0178}' }
    else { '\u{FFFD}' }
}

/// What a code spells, or `None` where the encoding leaves a gap.
pub open spec fn char_of(code: u8) -> Option<char> {
    if 0x20 <= code <= 0x7E {
        Some(code as char)
    } else if 0x80 <= code <= 0x9F {
        if high_char(code - 0x80) != '\u{FFFD}' { Some(high_char(code - 0x80)) } else { None }
    } else if 0xA0 <= code {
        Some(code as char)
    } else {
        None
    }
}

/// The first place at or after `from` in the table that holds `c`.
pub open spec fn high_index(c: char, from: int) -> Option<int>
    decreases 32 - from,
{
    if from < 0 || from >= 32 || c == '\u{FFFD}' {
        None
    } else if high_char(from) == c {
        Some(from)
    } else {
        high_index(c, from + 1)
    }
}

/// The code that spells a character, or `None` where there is not one.
pub open spec fn code_of(c: char) -> Option<u8> {
    if ' ' <= c <= '~' {
        Some(c as u8)
    } else if '\u{A0}' <= c <= '\u{FF}' {
        Some(c as u8)
    } else {
        match high_index(c, 0) {
            Some(i) => Some((0x80 + i) as u8),
            None => None,
        }
    }
}

/// The bytes that spell some text, when every character has a code.
pub open spec fn encoded(text: Seq<char>) -> Option<Seq<u8>> {
    if forall|i: int| 0 <= i < text.len() ==> (#[trigger] code_of(text[i])) is Some {
        Some(Seq::new(text.len(), |i: int| code_of(text[i])->0))
    } else {
        None
    }
}

/// What a code spells, or `None` where the encoding leaves a gap.
pub fn win_ansi_char(code: u8) -> (r: Option<char>)
    ensures
        r == char_of(code),
{
    if 0x20 <= code && code <= 0x7E {
        Some(code as char)
    } else if 0x80 <= code && code <= 0x9F {
        let found = high(code - 0x80);
        if found != '\u{FFFD}' { Some(found) } else { None }
    } else if 0xA0 <= code {
        Some(code as char)
    } else {
        None
    }
}

fn win_ansi_code(character: char) -> (r: Option<u8>)
    ensures
        r == code_of(character),
{
    if ' ' <= character && character <= '~' {
        Some(character as u8)
    } else if '\u{A0}' <= character && character <= '\u{FF}' {
        Some(character as u8)
    } else {
        if character == '\u{FFFD}' {
            return None;
        }
        let mut at: u8 = 0;
        while at < 32
            invariant
                at <= 32,
                character != '\u{FFFD}',
                high_index(character, at as int) == high_index(character, 0),
            decreases 32 - at,
        {
            if high(at) == character {
                return Some(0x80 + at);
            }
            at = at + 1;
        }
        None
    }
}

/// The bytes that spell these words under `/WinAnsiEncoding`.
///
/// `None` for a character the encoding has no code for — most of Unicode. A
/// caller must refuse rather than substitute: a wrong code draws a wrong letter
/// silently, which is worse than not writing it at all.
pub fn win_ansi(text: &str) -> (r: Option<Vec<u8>>)
    ensures
        match encoded(text@) {
            Some(b) => r matches Some(v) && v@ == b,
            None => r is None,
        },
{
    let chars = crate::text::chars_of(text);
    let mut out: Vec<u8> = Vec::new();
    let mut i: usize = 0;
    while i < chars.len()
        invariant
            chars@ == text@,
            i <= chars@.len(),
            out@.len() == i,
            forall|j: int| 0 <= j < i ==> (#[trigger] code_of(text@[j])) is Some && out@[j] == code_of(text@[j])->0,
        decreases chars.len() - i,
    {
        match win_ansi_code(chars[i]) {
            Some(code) => out.push(code),
            None => {
                return None;
            },
        }
        i = i + 1;
    }
    proof {
        assert(out@ =~= Seq::new(text@.len(), |i: int| code_of(text@[i])->0));
    }
    Some(out)
}


/// **`/WinAnsiEncoding` as ISO 32000 Annex D gives it**: printable ASCII
/// and Latin-1 from `0xA0` stand for themselves, the controls below the space
/// and `0x7F` stand for nothing, and the codes from `0x80` to `0x9F` stand
/// for the characters the standard's table lists — `0x93` and `0x94` the
/// opening and closing double quotes, and so on — in both directions.
pub proof fn law_win_ansi_is_annex_d()
    ensures
        forall|code: u8| 0x20 <= code <= 0x7E ==> #[trigger] char_of(code) == Some(code as char),
        forall|code: u8| 0xA0 <= code ==> #[trigger] char_of(code) == Some(code as char),
        forall|code: u8| code < 0x20 || code == 0x7F ==> #[trigger] char_of(code) is None,
        char_of(0x80u8) == Some('\u{20AC}') && code_of('\u{20AC}') == Some(0x80u8),
        char_of(0x81u8) is None,
        char_of(0x82u8) == Some('\u{201A}') && code_of('\u{201A}') == Some(0x82u8),
        char_of(0x83u8) == Some('\u{0192}') && code_of('\u{0192}') == Some(0x83u8),
        char_of(0x84u8) == Some('\u{201E}') && code_of('\u{201E}') == Some(0x84u8),
        char_of(0x85u8) == Some('\u{2026}') && code_of('\u{2026}') == Some(0x85u8),
        char_of(0x86u8) == Some('\u{2020}') && code_of('\u{2020}') == Some(0x86u8),
        char_of(0x87u8) == Some('\u{2021}') && code_of('\u{2021}') == Some(0x87u8),
        char_of(0x88u8) == Some('\u{02C6}') && code_of('\u{02C6}') == Some(0x88u8),
        char_of(0x89u8) == Some('\u{2030}') && code_of('\u{2030}') == Some(0x89u8),
        char_of(0x8Au8) == Some('\u{0160}') && code_of('\u{0160}') == Some(0x8Au8),
        char_of(0x8Bu8) == Some('\u{2039}') && code_of('\u{2039}') == Some(0x8Bu8),
        char_of(0x8Cu8) == Some('\u{0152}') && code_of('\u{0152}') == Some(0x8Cu8),
        char_of(0x8Du8) is None,
        char_of(0x8Eu8) == Some('\u{017D}') && code_of('\u{017D}') == Some(0x8Eu8),
        char_of(0x8Fu8) is None,
        char_of(0x90u8) is None,
        char_of(0x91u8) == Some('\u{2018}') && code_of('\u{2018}') == Some(0x91u8),
        char_of(0x92u8) == Some('\u{2019}') && code_of('\u{2019}') == Some(0x92u8),
        char_of(0x93u8) == Some('\u{201C}') && code_of('\u{201C}') == Some(0x93u8),
        char_of(0x94u8) == Some('\u{201D}') && code_of('\u{201D}') == Some(0x94u8),
        char_of(0x95u8) == Some('\u{2022}') && code_of('\u{2022}') == Some(0x95u8),
        char_of(0x96u8) == Some('\u{2013}') && code_of('\u{2013}') == Some(0x96u8),
        char_of(0x97u8) == Some('\u{2014}') && code_of('\u{2014}') == Some(0x97u8),
        char_of(0x98u8) == Some('\u{02DC}') && code_of('\u{02DC}') == Some(0x98u8),
        char_of(0x99u8) == Some('\u{2122}') && code_of('\u{2122}') == Some(0x99u8),
        char_of(0x9Au8) == Some('\u{0161}') && code_of('\u{0161}') == Some(0x9Au8),
        char_of(0x9Bu8) == Some('\u{203A}') && code_of('\u{203A}') == Some(0x9Bu8),
        char_of(0x9Cu8) == Some('\u{0153}') && code_of('\u{0153}') == Some(0x9Cu8),
        char_of(0x9Du8) is None,
        char_of(0x9Eu8) == Some('\u{017E}') && code_of('\u{017E}') == Some(0x9Eu8),
        char_of(0x9Fu8) == Some('\u{0178}') && code_of('\u{0178}') == Some(0x9Fu8),
{
    reveal_with_fuel(high_index, 33);
}

/// A code and the character it spells name each other: reading a code back
/// from its character gives the code again, and the other way round.
pub proof fn law_codes_and_characters_name_each_other(code: u8, c: char)
    ensures
        char_of(code) == Some(c) ==> code_of(c) == Some(code),
        code_of(c) == Some(code) ==> char_of(code) == Some(c),
{
    reveal_with_fuel(high_index, 33);
    if 0x80 <= code <= 0x9F {
        assert(code - 0x80 < 32);
    }
}


// ---------------------------------------------------------------------------
// Reading a font file.

/// Whether some bytes parse as a TrueType or OpenType face (the first in
/// the file), as `ttf_parser::Face::parse` decides.
pub uninterp spec fn face_parses(bytes: Seq<u8>) -> bool;

/// What a face's tables say, in font units: units per em, ascender,
/// descender, capital height where it declares one, the global bounding box
/// (`x_min`, `y_min`, `x_max`, `y_max`) and whether it is bold.
pub uninterp spec fn face_header(bytes: Seq<u8>) -> (u16, i16, i16, Option<i16>, i16, i16, i16, i16, bool);

/// The glyph a face maps a character to, if any.
pub uninterp spec fn glyph_of(bytes: Seq<u8>, c: char) -> Option<u16>;

/// A glyph's horizontal advance, in font units, if the face gives one.
pub uninterp spec fn glyph_advance(bytes: Seq<u8>, glyph: u16) -> Option<u16>;

/// A face's name records, in order: each one's name id and its text where
/// it decodes.
pub uninterp spec fn name_records(bytes: Seq<u8>) -> Seq<(u16, Option<Seq<char>>)>;

/// Name records as values.
pub open spec fn record_values(v: Seq<(u16, Option<String>)>) -> Seq<(u16, Option<Seq<char>>)> {
    v.map_values(|r: (u16, Option<String>)| (r.0, match r.1 { Some(s) => Some(s@), None => None }))
}

/// `Face::parse`, then `units_per_em`, `ascender`, `descender`,
/// `capital_height`, `global_bounding_box` and `is_bold`.
#[verifier::external_body]
fn read_face_header(bytes: &[u8]) -> (r: Option<(u16, i16, i16, Option<i16>, i16, i16, i16, i16, bool)>)
    ensures
        r is Some == face_parses(bytes@),
        r matches Some(h) ==> h == face_header(bytes@),
{
    let f = ttf_parser::Face::parse(bytes, 0).ok()?;
    let b = f.global_bounding_box();
    Some((f.units_per_em(), f.ascender(), f.descender(), f.capital_height(), b.x_min, b.y_min, b.x_max, b.y_max,
        f.is_bold()))
}

/// `Face::parse`, then `glyph_index`.
#[verifier::external_body]
fn glyph_in(bytes: &[u8], c: char) -> (r: Option<Option<u16>>)
    ensures
        r is Some == face_parses(bytes@),
        r matches Some(g) ==> g == glyph_of(bytes@, c),
{
    let f = ttf_parser::Face::parse(bytes, 0).ok()?;
    Some(f.glyph_index(c).map(|g| g.0))
}

/// `Face::parse`, then `glyph_hor_advance`; `None` as well where the face
/// does not parse.
#[verifier::external_body]
fn advance_in(bytes: &[u8], glyph: u16) -> (r: Option<u16>)
    ensures
        face_parses(bytes@) ==> r == glyph_advance(bytes@, glyph),
        !face_parses(bytes@) ==> r is None,
{
    ttf_parser::Face::parse(bytes, 0).ok()?.glyph_hor_advance(ttf_parser::GlyphId(glyph))
}

/// `Face::parse`, then each of `names()` as its `name_id` and `to_string()`.
#[verifier::external_body]
fn read_name_records(bytes: &[u8]) -> (r: Option<Vec<(u16, Option<String>)>>)
    ensures
        r is Some == face_parses(bytes@),
        r matches Some(v) ==> record_values(v@) == name_records(bytes@),
{
    let f = ttf_parser::Face::parse(bytes, 0).ok()?;
    Some(f.names().into_iter().map(|n| (n.name_id, n.to_string())).collect())
}

/// The text of the first record from `i` on with name id `id` whose text
/// decodes.
pub open spec fn first_named(records: Seq<(u16, Option<Seq<char>>)>, id: u16, i: int) -> Option<Seq<char>>
    decreases records.len() - i,
{
    if i < 0 || i >= records.len() {
        None
    } else if records[i].0 == id && records[i].1 is Some {
        records[i].1
    } else {
        first_named(records, id, i + 1)
    }
}

/// The name a face goes by: its PostScript name (id 6), else its full name
/// (id 4).
pub open spec fn chosen_name(records: Seq<(u16, Option<Seq<char>>)>) -> Option<Seq<char>> {
    match first_named(records, 6, 0) {
        Some(n) => Some(n),
        None => first_named(records, 4, 0),
    }
}

fn find_named(records: &Vec<(u16, Option<String>)>, id: u16) -> (r: Option<String>)
    ensures
        match first_named(record_values(records@), id, 0) {
            Some(n) => r matches Some(s) && s@ == n,
            None => r is None,
        },
{
    let ghost v = record_values(records@);
    let mut i: usize = 0;
    while i < records.len()
        invariant
            i <= records@.len(),
            v == record_values(records@),
            first_named(v, id, i as int) == first_named(v, id, 0),
        decreases records.len() - i,
    {
        proof {
            assert(v[i as int] == (records@[i as int].0, match records@[i as int].1 { Some(s) => Some(s@), None => None }));
        }
        if records[i].0 == id {
            match &records[i].1 {
                Some(s) => { return Some(s.clone()); },
                None => {},
            }
        }
        i = i + 1;
    }
    None
}

/// What this face calls itself, if it says: its PostScript name, else its
/// full name; `None` for bytes that are not a face.
pub fn face_name(bytes: &[u8]) -> (r: Option<String>)
    ensures
        !face_parses(bytes@) ==> r is None,
        face_parses(bytes@) ==> match chosen_name(name_records(bytes@)) {
            Some(n) => r matches Some(s) && s@ == n,
            None => r is None,
        },
{
    let records = match read_name_records(bytes) {
        Some(v) => v,
        None => { return None; },
    };
    match find_named(&records, 6) {
        Some(n) => Some(n),
        None => find_named(&records, 4),
    }
}

/// Whether a character is white space, as Unicode's `White_Space` property
/// (and `char::is_whitespace`) has it.
pub open spec fn is_white(c: char) -> bool {
    let n = c as u32;
    (0x09 <= n <= 0x0D) || n == 0x20 || n == 0x85 || n == 0xA0 || n == 0x1680 || (0x2000 <= n <= 0x200A)
        || n == 0x2028 || n == 0x2029 || n == 0x202F || n == 0x205F || n == 0x3000
}

fn white(c: char) -> (r: bool)
    ensures
        r == is_white(c),
{
    let n = c as u32;
    (0x09 <= n && n <= 0x0D) || n == 0x20 || n == 0x85 || n == 0xA0 || n == 0x1680 || (0x2000 <= n && n <= 0x200A)
        || n == 0x2028 || n == 0x2029 || n == 0x202F || n == 0x205F || n == 0x3000
}

/// Whether a face can draw a character: white space needs no glyph; anything
/// else needs a code in the encoding and a glyph in the face.
pub open spec fn spellable(bytes: Seq<u8>, c: char) -> bool {
    is_white(c) || (code_of(c) is Some && glyph_of(bytes, c) is Some)
}

/// Whether this face can draw every character of some words.
///
/// Asked before anything is written, so a font that cannot help is passed
/// over rather than embedded and then found wanting.
pub fn can_spell(bytes: &[u8], text: &str) -> (r: bool)
    ensures
        r == (face_parses(bytes@) && forall|i: int| 0 <= i < text@.len() ==> spellable(bytes@, #[trigger] text@[i])),
{
    if read_face_header(bytes).is_none() {
        return false;
    }
    let chars = chars_of(text);
    let mut i: usize = 0;
    while i < chars.len()
        invariant
            chars@ == text@,
            face_parses(bytes@),
            i <= chars@.len(),
            forall|j: int| 0 <= j < i ==> spellable(bytes@, #[trigger] text@[j]),
        decreases chars.len() - i,
    {
        let c = chars[i];
        if !white(c) {
            if win_ansi_code(c).is_none() {
                proof { assert(!spellable(bytes@, text@[i as int])); }
                return false;
            }
            match glyph_in(bytes, c) {
                Some(Some(_)) => {},
                _ => {
                    proof { assert(!spellable(bytes@, text@[i as int])); }
                    return false;
                },
            }
        }
        i = i + 1;
    }
    true
}

/// What a face's tables say, in font units, as the font dictionary needs
/// it: the capital height falls back to the ascender where the face declares
/// none, and `advances` holds the advance of each code from 32 to 255 under
/// `/WinAnsiEncoding`, zero where the face has no glyph or no advance for it.
#[derive(Debug, Clone, PartialEq, Eq)]
pub struct FaceUnits {
    pub units_per_em: u16,
    pub ascender: i16,
    pub descender: i16,
    pub cap_height: i16,
    pub x_min: i16,
    pub y_min: i16,
    pub x_max: i16,
    pub y_max: i16,
    pub bold: bool,
    pub advances: Vec<u16>,
}

/// The advance the code spells, in font units: zero where the encoding has
/// no character, the face no glyph, or the glyph no advance.
pub open spec fn advance_for(bytes: Seq<u8>, code: u8) -> u16 {
    match char_of(code) {
        None => 0,
        Some(c) => match glyph_of(bytes, c) {
            None => 0,
            Some(g) => match glyph_advance(bytes, g) {
                Some(a) => a,
                None => 0,
            },
        },
    }
}

/// What a face's tables say, in font units, or why it cannot be used: bytes
/// that are not a face, or a face that declares zero units per em.
pub fn face_units(bytes: &[u8]) -> (r: Result<FaceUnits>)
    ensures
        !face_parses(bytes@) ==> (r matches Err(PdfError::InvalidArgument(m))
            && m@ == "that file is not a font this can read"@),
        face_parses(bytes@) && face_header(bytes@).0 == 0 ==> (r matches Err(PdfError::InvalidArgument(m))
            && m@ == "that font declares no usable metrics"@),
        face_parses(bytes@) && face_header(bytes@).0 != 0 ==> (r matches Ok(u) && {
            let h = face_header(bytes@);
            &&& u.units_per_em == h.0 && u.ascender == h.1 && u.descender == h.2
            &&& u.cap_height == (match h.3 { Some(c) => c, None => h.1 })
            &&& u.x_min == h.4 && u.y_min == h.5 && u.x_max == h.6 && u.y_max == h.7 && u.bold == h.8
            &&& u.advances@.len() == 224
            &&& forall|k: int| 0 <= k < 224 ==> #[trigger] u.advances@[k] == advance_for(bytes@, (32 + k) as u8)
        }),
{
    let h = match read_face_header(bytes) {
        Some(h) => h,
        None => { return Err(PdfError::InvalidArgument(String::from_str("that file is not a font this can read"))); },
    };
    if h.0 == 0 {
        return Err(PdfError::InvalidArgument(String::from_str("that font declares no usable metrics")));
    }
    let mut advances: Vec<u16> = Vec::new();
    let mut code: u16 = 32;
    while code <= 255
        invariant
            32 <= code <= 256,
            face_parses(bytes@),
            advances@.len() == code - 32,
            forall|k: int| 0 <= k < code - 32 ==> #[trigger] advances@[k] == advance_for(bytes@, (32 + k) as u8),
        decreases 256 - code,
    {
        let c8 = code as u8;
        let advance: u16 = match win_ansi_char(c8) {
            None => 0,
            Some(c) => match glyph_in(bytes, c) {
                Some(Some(g)) => match advance_in(bytes, g) {
                    Some(a) => a,
                    None => 0,
                },
                _ => 0,
            },
        };
        proof {
            assert(c8 == (32 + (code - 32)) as u8);
        }
        advances.push(advance);
        code = code + 1;
    }
    let cap = match h.3 {
        Some(c) => c,
        None => h.1,
    };
    Ok(FaceUnits {
        units_per_em: h.0,
        ascender: h.1,
        descender: h.2,
        cap_height: cap,
        x_min: h.4,
        y_min: h.5,
        x_max: h.6,
        y_max: h.7,
        bold: h.8,
        advances,
    })
}


// ---------------------------------------------------------------------------
// Putting a font into a document.

/// What a font file says of itself, already scaled to 1000ths of an em: the
/// name it gives, its vertical metrics and bounding box, its slant as it is to be
/// written, whether it is bold, and the advance of each code from 32 to 255
/// under `/WinAnsiEncoding` (zero where it has no glyph).
#[derive(Debug, Clone)]
pub struct FaceFacts {
    pub name: Option<String>,
    pub ascent: i32,
    pub descent: i32,
    pub cap_height: i32,
    pub italic_angle: String,
    pub x_min: i32,
    pub y_min: i32,
    pub x_max: i32,
    pub y_max: i32,
    pub bold: bool,
    pub widths: Vec<i32>,
}

/// Characters as the bytes an ASCII text is written in.
pub open spec fn ascii(s: Seq<char>) -> Seq<u8> {
    s.map_values(|c: char| (c as u32) as u8)
}

/// A number as a PDF writes it.
pub open spec fn num(n: int) -> Value {
    Value::Number(ascii(signed_decimal(n)))
}

/// A name.
pub open spec fn name_of(s: Seq<char>) -> Value {
    Value::Name(ascii(s))
}

/// What the face calls itself, or a name of our own when it says nothing.
pub open spec fn readable_name(face: FaceFacts) -> Seq<char> {
    match face.name {
        Some(n) => n@,
        None => "PagifyTyping"@,
    }
}

/// Whether a character may stand in a PDF name without escaping.
pub open spec fn name_char(c: char) -> bool {
    ('0' <= c <= '9') || ('a' <= c <= 'z') || ('A' <= c <= 'Z') || c == '-' || c == '+'
}

/// The `/BaseFont`: the readable name with everything but letters, digits,
/// `-` and `+` taken out, or a name of our own when nothing is left.
pub open spec fn base_font(readable: Seq<char>) -> Seq<char> {
    let kept = readable.filter(|c: char| name_char(c));
    if kept.len() == 0 { "PagifyTyping"@ } else { kept }
}

/// The font dictionary: a simple TrueType font in `/WinAnsiEncoding`, with a
/// width for every code from 32 to 255.
pub open spec fn font_entries(base: Seq<char>, widths: Seq<i32>, descriptor: u32) -> Seq<(Seq<u8>, Value)> {
    seq![
        (ascii("Type"@), name_of("Font"@)),
        (ascii("Subtype"@), name_of("TrueType"@)),
        (ascii("BaseFont"@), name_of(base)),
        (ascii("FirstChar"@), num(32)),
        (ascii("LastChar"@), num(255)),
        (ascii("Widths"@), Value::Array(widths.map_values(|w: i32| num(w as int)))),
        (ascii("Encoding"@), name_of("WinAnsiEncoding"@)),
        (ascii("FontDescriptor"@), Value::Reference(descriptor, 0)),
    ]
}

/// The descriptor: bit 6 (nonsymbolic) always, bit 19 too for a bold face.
pub open spec fn descriptor_entries(base: Seq<char>, face: FaceFacts, file: u32) -> Seq<(Seq<u8>, Value)> {
    seq![
        (ascii("Type"@), name_of("FontDescriptor"@)),
        (ascii("FontName"@), name_of(base)),
        (ascii("Flags"@), num(if face.bold { 262176 } else { 32 })),
        (ascii("FontBBox"@), Value::Array(seq![num(face.x_min as int), num(face.y_min as int),
            num(face.x_max as int), num(face.y_max as int)])),
        (ascii("ItalicAngle"@), Value::Number(ascii(face.italic_angle@))),
        (ascii("Ascent"@), num(face.ascent as int)),
        (ascii("Descent"@), num(face.descent as int)),
        (ascii("CapHeight"@), num(face.cap_height as int)),
        (ascii("StemV"@), num(80)),
        (ascii("FontFile2"@), Value::Reference(file, 0)),
    ]
}

/// The font program's stream dictionary: its uncompressed length, and how
/// it is packed.
pub open spec fn program_entries(len: nat) -> Seq<(Seq<u8>, Value)> {
    seq![
        (ascii("Length1"@), Value::Number(decimal_bytes(len))),
        (ascii("Filter"@), name_of("FlateDecode"@)),
    ]
}

/// The three objects a font takes, numbered from `first`: the font, its
/// descriptor, and the whole program deflated.
pub open spec fn font_objects(face: FaceFacts, program: Seq<u8>, first: u32) -> Seq<(u32, Seq<u8>)> {
    let base = base_font(readable_name(face));
    seq![
        (first, written(Value::Dict(font_entries(base, face.widths@, (first + 1) as u32)))),
        ((first + 1) as u32, written(Value::Dict(descriptor_entries(base, face, (first + 2) as u32)))),
        ((first + 2) as u32, stream_written(program_entries(program.len()), deflated(program))),
    ]
}

/// The bytes of an ASCII text.
fn ascii_of(s: &str) -> (r: Vec<u8>)
    ensures
        r@ == ascii(s@),
{
    let cs = chars_of(s);
    let mut out: Vec<u8> = Vec::new();
    let mut i: usize = 0;
    while i < cs.len()
        invariant
            cs@ == s@,
            i <= cs@.len(),
            out@ == ascii(cs@.subrange(0, i as int)),
        decreases cs.len() - i,
    {
        let c = cs[i];
        #[verifier::truncate]
        let b = (c as u32) as u8;
        out.push(b);
        proof {
            assert(cs@.subrange(0, i + 1) == cs@.subrange(0, i as int).push(c));
            assert(out@ =~= ascii(cs@.subrange(0, i + 1)));
        }
        i = i + 1;
    }
    assert(cs@.subrange(0, cs@.len() as int) =~= cs@);
    out
}

/// A number object.
fn number(n: i64) -> (r: Object)
    ensures
        r.value() == num(n as int),
{
    let mut text = String::new();
    push_signed_decimal(&mut text, n);
    Object::Number(ascii_of(text.as_str()))
}

fn name_object(s: &str) -> (r: Object)
    ensures
        r.value() == name_of(s@),
{
    Object::Name(ascii_of(s))
}

/// The `/BaseFont` for a readable name, as bytes.
fn base_font_of(readable: &str) -> (r: Vec<u8>)
    ensures
        r@ == ascii(base_font(readable@)),
{
    let cs = chars_of(readable);
    let mut kept: Vec<u8> = Vec::new();
    let ghost f = |c: char| name_char(c);
    let mut i: usize = 0;
    while i < cs.len()
        invariant
            cs@ == readable@,
            i <= cs@.len(),
            kept@ == ascii(cs@.subrange(0, i as int).filter(f)),
            f == (|c: char| name_char(c)),
        decreases cs.len() - i,
    {
        let c = cs[i];
        proof {
            assert(cs@.subrange(0, i + 1) == cs@.subrange(0, i as int).push(c));
            cs@.subrange(0, i as int).lemma_filter_push(c, f);
        }
        if ('0' <= c && c <= '9') || ('a' <= c && c <= 'z') || ('A' <= c && c <= 'Z') || c == '-' || c == '+' {
            #[verifier::truncate]
            let b = (c as u32) as u8;
            kept.push(b);
            proof {
                assert(kept@ =~= ascii(cs@.subrange(0, i as int).filter(f).push(c)));
            }
        }
        i = i + 1;
    }
    assert(cs@.subrange(0, cs@.len() as int) =~= cs@);
    if kept.len() == 0 {
        ascii_of("PagifyTyping")
    } else {
        kept
    }
}

/// Build everything a document needs in order to draw with a font: the
/// font dictionary, its descriptor and the program, as objects numbered from
/// `first`.
///
/// **Whole, not subset**: the program is embedded as it came, deflated.
pub fn truetype(face: &FaceFacts, bytes: &[u8], first: u32) -> (r: Result<Embedded>)
    requires
        first <= u32::MAX - 2,
    ensures
        r matches Ok(e) && e.font == first && e.name@ == readable_name(*face)
            && bodies(e.objects@) == font_objects(*face, bytes@, first),
{
    let readable = match &face.name {
        Some(n) => n.clone(),
        None => String::from_str("PagifyTyping"),
    };
    proof {
        reveal_strlit("PagifyTyping");
    }
    let base = base_font_of(readable.as_str());
    let ghost base_name = base_font(readable@);
    let (font, descriptor, file) = (first, first + 1, first + 2);

    let mut widths: Vec<Object> = Vec::new();
    let mut i: usize = 0;
    while i < face.widths.len()
        invariant
            i <= face.widths@.len(),
            widths@.len() == i,
            forall|j: int| 0 <= j < i ==> (#[trigger] widths@[j]).value() == num(face.widths@[j] as int),
        decreases face.widths.len() - i,
    {
        widths.push(number(face.widths[i] as i64));
        i = i + 1;
    }
    proof {
        assert(values_of(widths@) =~= face.widths@.map_values(|w: i32| num(w as int)));
        lemma_array_value(widths);
    }
    let widths_array = Object::Array(widths);

    let mut font_dict = Dict(Vec::new());
    font_dict.append(ascii_of("Type"), name_object("Font"));
    font_dict.append(ascii_of("Subtype"), name_object("TrueType"));
    font_dict.append(ascii_of("BaseFont"), Object::Name(base.clone()));
    font_dict.append(ascii_of("FirstChar"), number(32));
    font_dict.append(ascii_of("LastChar"), number(255));
    font_dict.append(ascii_of("Widths"), widths_array);
    font_dict.append(ascii_of("Encoding"), name_object("WinAnsiEncoding"));
    font_dict.append(ascii_of("FontDescriptor"), Object::Reference(descriptor, 0));
    proof {
        assert(font_dict.entries() =~= font_entries(base_name, face.widths@, descriptor));
    }

    let bbox = vec![number(face.x_min as i64), number(face.y_min as i64), number(face.x_max as i64),
        number(face.y_max as i64)];
    proof {
        lemma_array_value(bbox);
        assert(values_of(bbox@) =~= seq![num(face.x_min as int), num(face.y_min as int),
            num(face.x_max as int), num(face.y_max as int)]);
    }
    let flags: i64 = if face.bold { 262176 } else { 32 };
    let mut descriptor_dict = Dict(Vec::new());
    descriptor_dict.append(ascii_of("Type"), name_object("FontDescriptor"));
    descriptor_dict.append(ascii_of("FontName"), Object::Name(base));
    descriptor_dict.append(ascii_of("Flags"), number(flags));
    descriptor_dict.append(ascii_of("FontBBox"), Object::Array(bbox));
    descriptor_dict.append(ascii_of("ItalicAngle"), Object::Number(ascii_of(face.italic_angle.as_str())));
    descriptor_dict.append(ascii_of("Ascent"), number(face.ascent as i64));
    descriptor_dict.append(ascii_of("Descent"), number(face.descent as i64));
    descriptor_dict.append(ascii_of("CapHeight"), number(face.cap_height as i64));
    descriptor_dict.append(ascii_of("StemV"), number(80));
    descriptor_dict.append(ascii_of("FontFile2"), Object::Reference(file, 0));
    proof {
        assert(descriptor_dict.entries() =~= descriptor_entries(base_name, *face, file));
    }

    let packed = match crate::pdf::content::encode(bytes) {
        Ok(p) => p,
        Err(e) => { return Err(e); },
    };
    let mut length: Vec<u8> = Vec::new();
    push_decimal_bytes(&mut length, bytes.len() as u64);
    let mut file_dict = Dict(Vec::new());
    file_dict.append(ascii_of("Length1"), Object::Number(length));
    file_dict.append(ascii_of("Filter"), name_object("FlateDecode"));
    proof {
        assert(file_dict.entries() =~= program_entries(bytes@.len()));
    }

    let mut font_bytes: Vec<u8> = Vec::new();
    write_object(&mut font_bytes, &Object::Dict(font_dict));
    let mut descriptor_bytes: Vec<u8> = Vec::new();
    write_object(&mut descriptor_bytes, &Object::Dict(descriptor_dict));
    let program = write_stream(&file_dict, packed.as_slice());
    let objects = vec![(font, font_bytes), (descriptor, descriptor_bytes), (file, program)];
    proof {
        assert(bodies(objects@) =~= font_objects(*face, bytes@, first));
    }
    Ok(Embedded { objects, font, name: readable })
}

} // verus!
