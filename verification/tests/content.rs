use pdf_core::pdf::content::{parse, pieces, remove, splice, Operation, Piece};
use pdf_core::pdf::Object;

fn ops(bytes: &[u8]) -> Vec<Operation> {
    parse(bytes).expect("parse")
}

#[test]
fn operands_belong_to_the_operator_that_follows_them() {
    let found = ops(b"1 0 0 1 72 720 cm");
    assert_eq!(found.len(), 1);
    assert_eq!(found[0].operator, b"cm");
    assert_eq!(found[0].operands.len(), 6);
}

#[test]
fn the_text_showing_operators_are_recognised() {
    let found = ops(b"BT /F1 12 Tf (Hello) Tj [(A) -250 (B)] TJ ET");
    let showing: Vec<&[u8]> =
        found.iter().filter(|o| o.shows_text()).map(|o| o.operator.as_slice()).collect();
    assert_eq!(showing, vec![&b"Tj"[..], b"TJ"]);
}

// The span has to cover the operands too, or cutting an operation leaves
// its arguments behind as gibberish.
#[test]
fn an_operations_span_covers_its_operands() {
    let stream = b"BT (Hello) Tj ET";
    let found = ops(stream);
    let tj = found.iter().find(|o| o.operator == b"Tj").expect("Tj");
    assert_eq!(&stream[tj.span.clone()], b"(Hello) Tj");
}

// **The guarantee.** Everything not cut comes through byte for byte.
#[test]
fn removing_one_operation_leaves_every_other_byte_alone() {
    let stream = b"BT /F1 12 Tf 1 0 0 1 72 720 Tm (secret) Tj 0 -14 Td (public) Tj ET";
    let found = ops(stream);
    let secret = found
        .iter()
        .find(|o| o.operands.iter().any(|v| *v == Object::LiteralString(b"secret".to_vec())))
        .expect("the Tj");

    let edited = remove(stream, &[secret]);
    let text = String::from_utf8_lossy(&edited);
    assert!(!text.contains("secret"), "the words are still there: {text}");
    assert!(text.contains("(public) Tj"), "the surviving text was rewritten: {text}");
    assert!(text.contains("1 0 0 1 72 720 Tm"), "the state around it changed: {text}");
    assert!(text.contains("/F1 12 Tf"), "the font selection was lost: {text}");

    // And what is left is still a content stream.
    let again = ops(&edited);
    assert!(again.iter().any(|o| o.operator == b"ET"), "it no longer parses");
}

#[test]
fn removing_nothing_returns_the_stream_unchanged() {
    let stream = b"BT (a) Tj ET";
    assert_eq!(remove(stream, &[]), stream.to_vec());
}

// Two cuts must not run their neighbours together.
#[test]
fn cutting_two_operations_keeps_what_is_between_them_readable() {
    let stream = b"BT (one) Tj (two) Tj (three) Tj ET";
    let found = ops(stream);
    let first = &found[1];
    let third = &found[3];
    let edited = remove(stream, &[first, third]);
    let text = String::from_utf8_lossy(&edited);
    assert!(!text.contains("one") && !text.contains("three"), "{text}");
    assert!(text.contains("(two) Tj"), "{text}");
    assert!(ops(&edited).iter().any(|o| o.operator == b"Tj"), "it no longer parses");
}

// **Inline image data is not scanned as operators.** Its bytes are as
// likely to spell `Tj` as anything else.
#[test]
fn an_inline_image_is_stepped_over_rather_than_read() {
    let mut stream = b"q BI /W 4 /H 4 ID ".to_vec();
    stream.extend_from_slice(b"(Tj noise ET [ )");
    stream.extend_from_slice(b" EI Q (after) Tj");
    let found = ops(&stream);

    let operators: Vec<&[u8]> = found.iter().map(|o| o.operator.as_slice()).collect();
    assert_eq!(operators, vec![&b"q"[..], b"Q", b"Tj"], "the image data was read as operators");
    assert!(found.last().expect("Tj").shows_text());
}

#[test]
fn a_stream_that_stops_making_sense_is_refused() {
    assert!(parse(b"BT (unclosed").is_err());
    assert!(parse(b"] Tj").is_err());
}


#[test]
fn a_splice_puts_new_bytes_where_the_old_ones_were() {
    let stream = b"BT (old) Tj ET";
    let edits = vec![(3..11, b"(new) Tj".to_vec())];
    assert_eq!(splice(stream, &edits), b"BT \n(new) Tj\n ET".to_vec());
}

#[test]
fn an_edit_overlapping_one_already_made_is_skipped() {
    let stream = b"0123456789";
    // Given out of order: sorted by where they start, and the second overlaps.
    let edits = vec![(6..8, b"B".to_vec()), (2..5, b"A".to_vec()), (4..6, b"X".to_vec())];
    assert_eq!(splice(stream, &edits), b"01\nA\n5\nB\n89".to_vec());
}

#[test]
fn a_deflated_stream_round_trips() {
    let original = b"BT /F1 12 Tf (round trip) Tj ET";
    let packed = pdf_core::pdf::content::encode(original).expect("encode");
    let mut dict = pdf_core::pdf::Dict::default();
    dict.set(b"Filter", pdf_core::pdf::Object::Name(b"FlateDecode".to_vec()));
    assert_eq!(pdf_core::pdf::content::decode(&dict, &packed).expect("decode"), original.to_vec());
}

#[test]
fn an_unfiltered_stream_needs_no_decoding() {
    let dict = pdf_core::pdf::Dict::default();
    assert_eq!(pdf_core::pdf::content::decode(&dict, b"BT ET").expect("decode"), b"BT ET".to_vec());
}

/// A filter this does not understand is `None`, not a guess.
#[test]
fn a_filter_this_does_not_know_is_refused() {
    let mut dict = pdf_core::pdf::Dict::default();
    dict.set(b"Filter", Object::Name(b"LZWDecode".to_vec()));
    assert!(pdf_core::pdf::content::decode(&dict, b"anything").is_none());

    // A chain, even one that includes Flate.
    dict.set(
        b"Filter",
        Object::Array(vec![Object::Name(b"ASCII85Decode".to_vec()), Object::Name(b"FlateDecode".to_vec())]),
    );
    assert!(pdf_core::pdf::content::decode(&dict, b"anything").is_none());
}

/// A predictor changes the bytes after inflating, and ignoring one would
/// hand back something that is not the stream.
#[test]
fn a_predictor_is_refused_rather_than_ignored() {
    let mut dict = pdf_core::pdf::Dict::default();
    dict.set(b"Filter", Object::Name(b"FlateDecode".to_vec()));
    dict.set(b"DecodeParms", Object::Dict(pdf_core::pdf::Dict::default()));
    let packed = pdf_core::pdf::content::encode(b"x").expect("encode");
    assert!(pdf_core::pdf::content::decode(&dict, &packed).is_none());
}

#[test]
fn a_single_flate_filter_in_an_array_and_a_null_predictor_are_fine() {
    let mut dict = pdf_core::pdf::Dict::default();
    dict.set(b"Filter", Object::Array(vec![Object::Name(b"FlateDecode".to_vec())]));
    dict.set(b"DecodeParms", Object::Null);
    let packed = pdf_core::pdf::content::encode(b"q Q").expect("encode");
    assert_ne!(packed, b"q Q".to_vec(), "nothing was compressed");
    assert_eq!(pdf_core::pdf::content::decode(&dict, &packed), Some(b"q Q".to_vec()));
    assert!(pdf_core::pdf::content::decode(&dict, b"not zlib").is_none());
}

#[test]
fn a_literal_strings_escapes_are_resolved_into_real_bytes() {
    let found = ops(br"(a\(b\)c) Tj");
    assert_eq!(pieces(&found[0]), vec![Piece::Codes(b"a(b)c".to_vec())]);

    // Octal, and a backslash-newline that continues the line.
    let found = ops(b"(A\\101\\n) Tj");
    assert_eq!(pieces(&found[0]), vec![Piece::Codes(b"AA\n".to_vec())]);
}

#[test]
fn a_hex_string_becomes_the_bytes_it_spells() {
    let found = ops(b"<48656C6C6F> Tj");
    assert_eq!(pieces(&found[0]), vec![Piece::Codes(b"Hello".to_vec())]);
    // An odd digit is padded with zero, as the specification says.
    let found = ops(b"<4A5> Tj");
    assert_eq!(pieces(&found[0]), vec![Piece::Codes(vec![0x4A, 0x50])]);
}

#[test]
fn a_tj_array_keeps_its_spacing_numbers_between_the_strings() {
    let found = ops(b"[(A) -250 (B)] TJ");
    let got = pieces(&found[0]);
    assert_eq!(got.len(), 3);
    assert_eq!(got[0], Piece::Codes(b"A".to_vec()));
    // The spacing number comes back as the stream wrote it; read as a
    // number, it is the one the stream meant.
    match &got[1] {
        Piece::Kern(raw) => assert_eq!(std::str::from_utf8(raw).unwrap().parse::<f32>().unwrap(), -250.0),
        other => panic!("expected a spacing number, got {other:?}"),
    }
    assert_eq!(got[2], Piece::Codes(b"B".to_vec()));
}

#[test]
fn operands_that_show_nothing_give_no_pieces() {
    let found = ops(b"/F1 12 Tf");
    assert!(pieces(&found[0]).is_empty());
}
