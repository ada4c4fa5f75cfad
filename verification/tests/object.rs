use pdf_core::pdf::object::{Dict, Lexer, Object};

fn read(bytes: &[u8]) -> Object {
    Lexer::new(bytes, 0).object().expect("parse")
}

#[test]
fn the_simple_objects_read_back() {
    assert_eq!(read(b"true"), Object::Bool(true));
    assert_eq!(read(b"false"), Object::Bool(false));
    assert_eq!(read(b"null"), Object::Null);
    assert_eq!(read(b"/Type"), Object::Name(b"Type".to_vec()));
}

// **Numbers keep their own bytes.** A file re-written through `f32` differs
// from the one it came from everywhere a number appears, which is exactly
// what this module exists to avoid.
#[test]
fn a_number_keeps_the_text_it_was_written_as() {
    assert_eq!(read(b"0.10000000149"), Object::Number(b"0.10000000149".to_vec()));
    assert_eq!(read(b"-42"), Object::Number(b"-42".to_vec()));
    assert_eq!(read(b"842.0"), Object::Number(b"842.0".to_vec()));
    assert_eq!(read(b"42").as_i64(), Some(42));
}

#[test]
fn a_reference_needs_all_three_parts() {
    assert_eq!(read(b"12 0 R"), Object::Reference(12, 0));

    // Two numbers in an array are two numbers, not a reference — the case
    // that makes the look-ahead necessary.
    assert_eq!(
        read(b"[1 2]"),
        Object::Array(vec![Object::Number(b"1".to_vec()), Object::Number(b"2".to_vec())])
    );
    // And a trailing pair with no `R` is still two numbers.
    assert_eq!(
        read(b"[4 0]"),
        Object::Array(vec![Object::Number(b"4".to_vec()), Object::Number(b"0".to_vec())])
    );
    assert_eq!(
        read(b"[4 0 R 5]"),
        Object::Array(vec![Object::Reference(4, 0), Object::Number(b"5".to_vec())])
    );
}

#[test]
fn a_dictionary_keeps_its_order() {
    let object = read(b"<< /Type /Page /Parent 4 0 R /MediaBox [0 0 595 842] >>");
    let dict = object.as_dict().expect("a dict");
    let keys: Vec<&[u8]> = dict.0.iter().map(|(k, _)| k.as_slice()).collect();
    assert_eq!(keys, vec![&b"Type"[..], b"Parent", b"MediaBox"]);
    assert_eq!(dict.get(b"Parent").and_then(Object::as_reference), Some((4, 0)));
}

#[test]
fn a_nested_dictionary_reads() {
    let object = read(b"<< /Resources << /XObject << /Im1 7 0 R >> >> >>");
    let inner = object
        .as_dict()
        .and_then(|d| d.get(b"Resources"))
        .and_then(Object::as_dict)
        .and_then(|d| d.get(b"XObject"))
        .and_then(Object::as_dict)
        .expect("nested");
    assert_eq!(inner.get(b"Im1").and_then(Object::as_reference), Some((7, 0)));
}

// Strings are kept as written, escapes and all, because they are copied
// back rather than interpreted.
#[test]
fn a_string_keeps_its_escapes_and_its_nesting() {
    assert_eq!(read(br"(a \(nested\) one)"), Object::LiteralString(br"a \(nested\) one".to_vec()));
    assert_eq!(read(b"(outer (inner) end)"), Object::LiteralString(b"outer (inner) end".to_vec()));
    assert_eq!(read(b"<48656C6C6F>"), Object::HexString(b"48656C6C6F".to_vec()));
}

#[test]
fn a_stream_is_found_by_its_declared_length() {
    let bytes = b"<< /Length 5 >>\nstream\nHELLO\nendstream";
    match read(bytes) {
        Object::Stream(dict, range) => {
            assert_eq!(dict.get(b"Length").and_then(Object::as_i64), Some(5));
            assert_eq!(&bytes[range], b"HELLO");
        }
        other => panic!("expected a stream, got {other:?}"),
    }
}

// **Binary data is not scanned for `endstream`.** A JPEG contains the
// bytes of anything, so the declared length is the only trustworthy end —
// and a stream without one is refused rather than guessed at.
#[test]
fn a_stream_whose_length_is_indirect_is_refused_not_guessed() {
    let bytes = b"<< /Length 9 0 R >>\nstream\n....endstream\nendstream";
    assert!(Lexer::new(bytes, 0).object().is_err());
}

#[test]
fn a_stream_of_binary_containing_the_word_endstream_still_reads() {
    let mut bytes = b"<< /Length 20 >>\nstream\n".to_vec();
    bytes.extend_from_slice(b"xxxxendstream xxxxxx");
    bytes.extend_from_slice(b"\nendstream");
    match read(&bytes) {
        Object::Stream(_, range) => assert_eq!(range.len(), 20),
        other => panic!("expected a stream, got {other:?}"),
    }
}

#[test]
fn comments_are_skipped_wherever_they_appear() {
    assert_eq!(read(b"% a comment\n/Type"), Object::Name(b"Type".to_vec()));
    let object = read(b"<< /A 1 % why\n /B 2 >>");
    assert_eq!(object.as_dict().expect("dict").0.len(), 2);
}

#[test]
fn a_dictionary_can_be_edited_without_disturbing_the_rest() {
    let mut dict = match read(b"<< /Type /XObject /Width 100 /Height 70 >>") {
        Object::Dict(d) => d,
        other => panic!("{other:?}"),
    };
    dict.set(b"Width", Object::Number(b"1".to_vec()));
    dict.remove(b"Height");
    dict.set(b"Extra", Object::Bool(true));

    let keys: Vec<&[u8]> = dict.0.iter().map(|(k, _)| k.as_slice()).collect();
    assert_eq!(keys, vec![&b"Type"[..], b"Width", b"Extra"], "editing reordered the rest");
    assert_eq!(dict.get(b"Width").and_then(Object::as_i64), Some(1));
}
