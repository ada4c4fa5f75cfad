use pdf_core::pdf::{write_object, write_stream, Dict, File, Object};

// A whole small file, written by hand so the offsets are known.
fn a_file() -> Vec<u8> {
    let mut out = Vec::new();
    let mut offsets = Vec::new();

    out.extend_from_slice(b"%PDF-1.7\n");

    offsets.push(out.len());
    out.extend_from_slice(b"1 0 obj\n<< /Type /Catalog /Pages 2 0 R >>\nendobj\n");

    offsets.push(out.len());
    out.extend_from_slice(b"2 0 obj\n<< /Type /Pages /Kids [3 0 R] /Count 1 >>\nendobj\n");

    offsets.push(out.len());
    out.extend_from_slice(
        b"3 0 obj\n<< /Type /Page /Parent 2 0 R /Resources << /XObject << /Im0 4 0 R >> >> >>\nendobj\n",
    );

    offsets.push(out.len());
    out.extend_from_slice(
        b"4 0 obj\n<< /Type /XObject /Subtype /Image /Width 2 /Height 1 /Length 6 >>\nstream\nABCDEF\nendstream\nendobj\n",
    );

    let xref_at = out.len();
    out.extend_from_slice(b"xref\n0 5\n0000000000 65535 f \n");
    for offset in &offsets {
        out.extend_from_slice(format!("{offset:010} 00000 n \n").as_bytes());
    }
    out.extend_from_slice(b"trailer\n<< /Size 5 /Root 1 0 R >>\nstartxref\n");
    out.extend_from_slice(format!("{xref_at}\n%%EOF").as_bytes());
    out
}

#[test]
fn every_object_is_found_where_the_table_says() {
    let bytes = a_file();
    let file = File::parse(&bytes).expect("parse");
    assert_eq!(file.numbers(), vec![1, 2, 3, 4]);

    let catalogue = file.object(1).expect("object 1");
    assert_eq!(
        catalogue.as_dict().and_then(|d| d.get(b"Type")).and_then(Object::as_name),
        Some(&b"Catalog"[..])
    );
    assert_eq!(
        file.trailer().get(b"Root").and_then(Object::as_reference),
        Some((1, 0))
    );
}

// **An in-use entry at offset zero is not an object either.** The header
// is at zero, so nothing can start there — and a real document, rebuilt by
// another program, had exactly one such row. Refusing the file over it
// would be strict about a byte nobody meant.
#[test]
fn an_in_use_entry_at_offset_zero_is_treated_as_free() {
    let mut pdf = Vec::new();
    pdf.extend_from_slice(b"%PDF-1.7\n");
    let one = pdf.len();
    pdf.extend_from_slice(b"1 0 obj\n<</Type/Catalog>>\nendobj\n");
    let start = pdf.len();
    pdf.extend_from_slice(b"xref\n0 3\n0000000000 65535 f \n");
    pdf.extend_from_slice(format!("{one:010} 00000 n \n").as_bytes());
    // Object 2: in use, at nowhere.
    pdf.extend_from_slice(b"0000000000 00000 n \n");
    pdf.extend_from_slice(
        format!("trailer\n<</Size 3/Root 1 0 R>>\nstartxref\n{start}\n%%EOF").as_bytes(),
    );

    let file = File::parse(&pdf).expect("a file with one bad row is still readable");
    assert!(file.object(1).is_ok(), "the good object was lost with the bad one");
    assert!(
        !file.numbers().iter().any(|n| *n == 2),
        "the object at nowhere was recorded as being somewhere"
    );
}

// **A free entry is not an object.** Recording one would point a lookup at
// offset 0, which is the file header.
#[test]
fn the_free_entry_is_not_recorded() {
    let bytes = a_file();
    let file = File::parse(&bytes).expect("parse");
    assert!(file.object(0).is_err(), "object 0 was read as though it were real");
}

#[test]
fn a_stream_comes_back_with_its_bytes() {
    let bytes = a_file();
    let file = File::parse(&bytes).expect("parse");
    match file.object(4).expect("object 4") {
        Object::Stream(dict, range) => {
            assert_eq!(dict.get(b"Subtype").and_then(Object::as_name), Some(&b"Image"[..]));
            assert_eq!(&bytes[range], b"ABCDEF");
        }
        other => panic!("expected a stream, got {other:?}"),
    }
}

// The path Lock needs: page → resources → the image's object number.
#[test]
fn an_images_object_number_can_be_reached_from_its_page() {
    let bytes = a_file();
    let file = File::parse(&bytes).expect("parse");
    let page = file.object(3).expect("the page");
    let xobjects = page
        .as_dict()
        .and_then(|d| d.get(b"Resources"))
        .and_then(Object::as_dict)
        .and_then(|d| d.get(b"XObject"))
        .and_then(Object::as_dict)
        .expect("an xobject dictionary");
    assert_eq!(xobjects.get(b"Im0").and_then(Object::as_reference), Some((4, 0)));
}

// **An offset that has drifted is caught, not followed.** Reading whatever
// sits at a stale offset is how a rewrite corrupts a file quietly.
#[test]
fn an_offset_pointing_at_the_wrong_object_is_refused() {
    let mut bytes = a_file();
    // Point object 1 at object 2's header.
    let two_at = bytes
        .windows(7)
        .position(|w| w == b"2 0 obj")
        .expect("object 2");
    // `position`, not `rposition`: the last "xref" in a file is the one
    // inside "startxref".
    let table = bytes.windows(5).position(|w| w == b"xref\n").expect("xref");
    let entry = table + b"xref\n0 5\n0000000000 65535 f \n".len();
    bytes.splice(entry..entry + 10, format!("{two_at:010}").bytes());

    let file = File::parse(&bytes).expect("parse");
    let problem = file.object(1).expect_err("should refuse");
    assert!(problem.message().contains("object 2 is"), "{}", problem.message());
}

// A cross-reference stream is refused whole. PDFium does not write one —
// see `examples/save_shape_probe.rs` — and half-reading a file this cannot
// account for is how a rewrite loses content.
#[test]
fn a_file_this_cannot_read_is_refused_whole() {
    let bytes = b"%PDF-1.5\n5 0 obj\n<< /Type /XRef /Length 0 >>\nstream\nendstream\nendobj\nstartxref\n9\n%%EOF";
    let problem = File::parse(bytes).expect_err("should refuse");
    assert!(
        problem.message().contains("cross-reference stream"),
        "it did not say what it could not read: {problem:?}"
    );
}

#[test]
fn a_file_with_no_startxref_is_refused() {
    assert!(File::parse(b"%PDF-1.7\nnothing here").is_err());
}

// -- writing -----------------------------------------------------------

// **The guarantee this module exists for.** Rewriting one object leaves
// every other object's bytes exactly as they were — including the content
// streams that draw the text, which is what `FPDFPage_GenerateContent`
// could not promise.
#[test]
fn rewriting_one_object_leaves_every_other_byte_alone() {
    let bytes = a_file();
    let file = File::parse(&bytes).expect("parse");

    // The page's own bytes, before.
    let page_before = {
        let mut out = Vec::new();
        write_object(&mut out, &file.object(3).expect("page"));
        out
    };

    let blank = write_stream(
        &Dict(vec![
            (b"Type".to_vec(), Object::Name(b"XObject".to_vec())),
            (b"Subtype".to_vec(), Object::Name(b"Image".to_vec())),
            (b"Width".to_vec(), Object::Number(b"1".to_vec())),
            (b"Height".to_vec(), Object::Number(b"1".to_vec())),
        ]),
        b"\x00",
    );
    let rewritten = file.rewrite(&[(4, blank)]).expect("rewrite");

    let after = File::parse(&rewritten).expect("the rewritten file must parse");
    let page_after = {
        let mut out = Vec::new();
        write_object(&mut out, &after.object(3).expect("page"));
        out
    };
    assert_eq!(page_after, page_before, "an untouched object came back different");

    // And the one asked for really did change.
    match after.object(4).expect("object 4") {
        Object::Stream(dict, range) => {
            assert_eq!(dict.get(b"Width").and_then(Object::as_i64), Some(1));
            assert_eq!(&rewritten[range], b"\x00");
        }
        other => panic!("expected a stream, got {other:?}"),
    }
}

// Every object still has to be findable afterwards — a table whose offsets
// drifted by one byte is a file no reader can open.
#[test]
fn every_object_is_still_where_the_new_table_says() {
    let bytes = a_file();
    let file = File::parse(&bytes).expect("parse");
    let rewritten = file
        .rewrite(&[(1, b"<< /Type /Catalog /Pages 2 0 R /Marked true >>".to_vec())])
        .expect("rewrite");

    let after = File::parse(&rewritten).expect("parse");
    assert_eq!(after.numbers(), vec![1, 2, 3, 4]);
    for number in [1u32, 2, 3, 4] {
        after.object(number).unwrap_or_else(|e| panic!("object {number}: {}", e.message()));
    }
    assert_eq!(
        after.trailer().get(b"Size").and_then(Object::as_i64),
        Some(5),
        "the trailer still claims the old size"
    );
}

// A file with nothing replaced must survive the round trip, or the writer
// is damaging files it was only asked to copy.
#[test]
fn a_file_rewritten_with_no_changes_still_reads_the_same() {
    let bytes = a_file();
    let file = File::parse(&bytes).expect("parse");
    let rewritten = file.rewrite(&[]).expect("rewrite");

    let after = File::parse(&rewritten).expect("parse");
    for number in file.numbers() {
        let mut before = Vec::new();
        write_object(&mut before, &file.object(number).expect("before"));
        let mut now = Vec::new();
        write_object(&mut now, &after.object(number).expect("after"));
        assert_eq!(now, before, "object {number} changed in a no-op rewrite");
    }
}

// The header, and the binary marker after it, have to survive — a reader
// that sniffed the file as binary must go on doing so.
#[test]
fn the_header_and_its_binary_marker_are_kept() {
    // The four high bytes PDF writers put on the second line, spelt as
    // numbers so no editor or script can helpfully re-encode them.
    let marker = [b'%', 0xE2u8, 0xE3, 0xCF, 0xD3, b'\n'];
    let mut bytes = b"%PDF-1.7\n".to_vec();
    bytes.extend_from_slice(&marker);
    let body_at = bytes.len();
    bytes.extend_from_slice(b"1 0 obj\n<< /Type /Catalog >>\nendobj\n");
    let xref_at = bytes.len();
    bytes.extend_from_slice(b"xref\n0 2\n0000000000 65535 f \n");
    bytes.extend_from_slice(format!("{body_at:010} 00000 n \n").as_bytes());
    bytes.extend_from_slice(b"trailer\n<< /Size 2 /Root 1 0 R >>\nstartxref\n");
    bytes.extend_from_slice(format!("{xref_at}\n%%EOF").as_bytes());

    let file = File::parse(&bytes).expect("parse");
    let rewritten = file.rewrite(&[]).expect("rewrite");
    assert!(rewritten.starts_with(b"%PDF-1.7\n"), "the version line changed");
    assert_eq!(
        &rewritten[9..15],
        &marker,
        "the binary marker was dropped, so the file now sniffs as text"
    );
}

// A `/Prev` chain that loops must stop rather than spin.
#[test]
fn a_looping_cross_reference_chain_is_refused() {
    let mut bytes = Vec::new();
    bytes.extend_from_slice(b"%PDF-1.7\n");
    let xref_at = bytes.len();
    bytes.extend_from_slice(b"xref\n0 1\n0000000000 65535 f \ntrailer\n<< /Size 1 /Prev ");
    bytes.extend_from_slice(format!("{xref_at} >>\nstartxref\n{xref_at}\n%%EOF").as_bytes());

    let problem = File::parse(&bytes).expect_err("should refuse");
    assert!(problem.message().contains("itself"), "{}", problem.message());
}

// Replacing one object, adding one, dropping one and editing the trailer all
// at once: each shows in the new file, and the table says where everything is.
#[test]
fn a_rewrite_adds_drops_and_edits_in_one_pass() {
    let bytes = a_file();
    let file = File::parse(&bytes).expect("parse");
    let edits = Dict(vec![
        (b"Info".to_vec(), Object::Reference(5, 0)),
        (b"Root".to_vec(), Object::Null),
    ]);
    let rewritten = file
        .rewrite_dropping(&[], &[(5, b"<< /Title (x) >>".to_vec())], &edits, &[2])
        .expect("rewrite");
    let after = File::parse(&rewritten).expect("parse");
    assert_eq!(after.numbers(), vec![1, 3, 4, 5]);
    assert!(after.object(2).is_err(), "a dropped object is still findable");
    assert_eq!(after.trailer().get(b"Info").and_then(Object::as_reference), Some((5, 0)));
    assert!(after.trailer().get(b"Root").is_none(), "a null edit did not take the key out");
    assert_eq!(after.trailer().get(b"Size").and_then(Object::as_i64), Some(6));
    let info = after.object(5).expect("the added object");
    assert_eq!(
        info.as_dict().and_then(|d| d.get(b"Title")),
        Some(&Object::LiteralString(b"x".to_vec()))
    );
}

#[test]
fn an_object_written_out_reads_back_the_same() {
    let object = Object::Dict(Dict(vec![
        (b"A".to_vec(), Object::Array(vec![Object::Number(b"1".to_vec()), Object::Reference(7, 2)])),
        (b"B".to_vec(), Object::HexString(b"0A".to_vec())),
        (b"C".to_vec(), Object::Bool(false)),
    ]));
    let mut out = Vec::new();
    write_object(&mut out, &object);
    assert_eq!(out, b"<</A [1 7 2 R]/B <0A>/C false>>".to_vec());
    let again = pdf_core::pdf::object::Lexer::new(&out, 0).object().expect("parse");
    assert_eq!(again, object);
}
