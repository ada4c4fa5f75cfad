use pdf_core::error::PdfError;
use pdf_core::pdf::sign::{
    digest_of, escaped, fill_placeholder, find_placeholder, pdf_date, prepare, sign, timestamp, write_byte_range,
    Flavour, Identity, Reason, PLACEHOLDER,
};
use std::cell::RefCell;
use pdf_core::pdf::File;

/// A file with a hole in the middle, as a prepared one has.
fn prepared() -> Vec<u8> {
    // A page's own `/Contents` in front of the signature's, because that is
    // what a real document looks like and what the finder used to trip on.
    let mut out = b"%PDF-1.7\n/Contents 9 0 R\nsome objects\n/Contents <".to_vec();
    out.extend(std::iter::repeat_n(b'0', 2048));
    out.extend_from_slice(b">\nmore objects\n%%EOF");
    out
}

#[test]
fn the_placeholder_is_found_where_it_was_written() {
    let bytes = prepared();
    let range = find_placeholder(&bytes).expect("find");
    assert_eq!(bytes[range.hole_at], b'<');
    assert_eq!(bytes[range.hole_at + range.hole_len - 1], b'>');
    assert_eq!(range.total, bytes.len());
}

/// **The four numbers must leave exactly one hole and cover the rest.**
#[test]
fn the_byte_range_covers_the_whole_file_but_the_hole() {
    let bytes = prepared();
    let range = find_placeholder(&bytes).expect("find");
    assert!(range.covers_everything());

    let [start, first, second_at, second_len] = range.numbers();
    assert_eq!(start, 0);
    assert_eq!(first, range.hole_at);
    assert_eq!(second_at, range.hole_at + range.hole_len);
    assert_eq!(second_at + second_len, bytes.len());
}

/// And what it covers is every byte except the hole, checked by counting.
#[test]
fn what_is_covered_is_everything_outside_the_hole() {
    let bytes = prepared();
    let range = find_placeholder(&bytes).expect("find");
    let (before, after) = range.covered(&bytes).expect("covered");

    assert_eq!(before.len() + after.len() + range.hole_len, bytes.len());
    assert!(!before.contains(&b'<'), "the hole leaked into what is signed");
    assert!(!after.starts_with(b"0"), "the hole leaked into what is signed");
    assert!(
        before.ends_with(b"/Contents "),
        "the finder took a page's contents for the signature's"
    );
    assert!(after.starts_with(b"\nmore"), "the second span starts in the wrong place");
}

/// **A range that leaves bytes uncovered is how a signed file gets altered.**
#[test]
fn a_range_that_does_not_reach_the_end_is_rejected() {
    let bytes = prepared();
    let mut range = find_placeholder(&bytes).expect("find");
    range.total += 64; // as though something had been appended
    assert!(range.covers_everything(), "the range describes the longer file");

    // But the numbers now claim bytes that are not there.
    assert!(range.covered(&bytes).is_err(), "it signed bytes past the end");
}

#[test]
fn a_signature_is_written_without_moving_a_byte() {
    let mut bytes = prepared();
    let before = bytes.len();
    let range = find_placeholder(&bytes).expect("find");

    fill_placeholder(&mut bytes, &range, &[0xDE, 0xAD, 0xBE, 0xEF]).expect("fill");
    assert_eq!(bytes.len(), before, "the file changed length");
    let filled = &bytes[range.hole_at + 1..range.hole_at + 9];
    assert_eq!(filled, b"DEADBEEF");
    // The rest of the hole is untouched.
    assert!(bytes[range.hole_at + 9..range.hole_at + range.hole_len - 1]
        .iter()
        .all(|b| *b == b'0'));
}

/// Too big is a failure, not a reason to grow the file.
#[test]
fn a_signature_too_large_for_its_hole_is_refused() {
    let mut bytes = prepared();
    let range = find_placeholder(&bytes).expect("find");
    let huge = vec![0u8; range.hole_len];
    assert!(fill_placeholder(&mut bytes, &range, &huge).is_err());
}

#[test]
fn a_file_with_no_placeholder_says_so() {
    assert!(find_placeholder(b"%PDF-1.7\nnothing here\n%%EOF").is_err());
    // Nor is a page's contents reference mistaken for one.
    assert!(find_placeholder(b"%PDF-1.7\n/Contents 9 0 R\n%%EOF").is_err());
}

#[test]
fn something_that_is_not_a_pkcs12_file_says_so() {
    match Identity::from_pkcs12(b"%PDF-1.7\nnot a certificate", "pagify") {
        Ok(_) => panic!("it read a PDF as a certificate"),
        Err(problem) => {
            let said = problem.message();
            assert!(said.contains("PKCS#12"), "unhelpful: {said}")
        }
    }
}

/// The digest is over everything but the hole, and changing a byte outside
/// it changes the digest.
#[test]
fn the_digest_covers_the_file_around_the_hole() {
    let mut bytes = b"%PDF-1.7\nbefore\n/Contents <".to_vec();
    bytes.extend(std::iter::repeat_n(b'0', 2048));
    bytes.extend_from_slice(b">\nafter\n%%EOF");
    let range = find_placeholder(&bytes).expect("find");
    let first = digest_of(&bytes, &range).expect("digest");
    assert_eq!(first.len(), 32);

    // A byte inside the hole does not change it.
    bytes[range.hole_at + 2] = b'F';
    assert_eq!(digest_of(&bytes, &range).expect("digest"), first);

    // A byte outside it does.
    bytes[3] = b'X';
    assert_ne!(digest_of(&bytes, &range).expect("digest"), first);
}

#[test]
fn a_range_past_the_end_has_no_digest() {
    let bytes = prepared();
    let mut range = find_placeholder(&bytes).expect("find");
    range.total += 1;
    assert!(digest_of(&bytes, &range).is_err());
}

#[test]
fn the_epoch_is_written_as_a_pdf_date() {
    assert_eq!(pdf_date(0), "D:19700101000000Z");
    // 2000-02-29 12:34:56, a leap day in a century year.
    assert_eq!(pdf_date(951_827_696), "D:20000229123456Z");
    // 2024-12-31 23:59:59.
    assert_eq!(pdf_date(1_735_689_599), "D:20241231235959Z");
}

#[test]
fn parentheses_and_backslashes_are_escaped() {
    assert_eq!(escaped("a(b)c\\d"), b"a\\(b\\)c\\\\d".to_vec());
    assert_eq!(escaped("plain"), b"plain".to_vec());
    assert_eq!(escaped(""), Vec::<u8>::new());
}

#[test]
fn the_byte_range_is_patched_in_place() {
    let mut bytes = b"<< /ByteRange [0000000000 0000000000 0000000000 0000000000] /Contents <".to_vec();
    bytes.extend(std::iter::repeat_n(b'0', 1100));
    bytes.extend_from_slice(b"> >>\n%%EOF");
    let before = bytes.len();
    let range = find_placeholder(&bytes).expect("find");
    write_byte_range(&mut bytes, &range).expect("patch");
    assert_eq!(bytes.len(), before);
    let [a, b, c, d] = range.numbers();
    let expected = format!("/ByteRange [{a:010} {b:010} {c:010} {d:010}]");
    assert_eq!(&bytes[3..3 + expected.len()], expected.as_bytes());
}

#[test]
fn a_byte_range_of_the_wrong_width_is_refused() {
    let mut bytes = b"<< /ByteRange [0 0 0 0] /Contents <".to_vec();
    bytes.extend(std::iter::repeat_n(b'0', 1100));
    bytes.extend_from_slice(b"> >>\n%%EOF");
    let range = find_placeholder(&bytes).expect("find");
    assert!(write_byte_range(&mut bytes, &range).is_err());
}

#[test]
fn a_file_with_no_byte_range_is_refused() {
    let mut bytes = b"<< /Contents <".to_vec();
    bytes.extend(std::iter::repeat_n(b'0', 1100));
    bytes.extend_from_slice(b"> >>\n%%EOF");
    let range = find_placeholder(&bytes).expect("find");
    assert!(write_byte_range(&mut bytes, &range).is_err());
}

// A whole small file, written by hand so the offsets are known.
fn a_file() -> Vec<u8> {
    let mut out = Vec::new();
    let mut offsets = Vec::new();
    out.extend_from_slice(b"%PDF-1.7\n");
    offsets.push(out.len());
    out.extend_from_slice(b"1 0 obj\n<< /Type /Catalog /Pages 2 0 R >>\nendobj\n");
    offsets.push(out.len());
    out.extend_from_slice(b"2 0 obj\n<< /Type /Pages /Kids [3 0 R] /Count 1 >>\nendobj\n");
    offsets.push(out.len());
    out.extend_from_slice(b"3 0 obj\n<< /Type /Page /Parent 2 0 R >>\nendobj\n");
    let xref_at = out.len();
    out.extend_from_slice(b"xref\n0 4\n0000000000 65535 f \n");
    for offset in &offsets {
        out.extend_from_slice(format!("{offset:010} 00000 n \n").as_bytes());
    }
    out.extend_from_slice(b"trailer\n<< /Size 4 /Root 1 0 R >>\nstartxref\n");
    out.extend_from_slice(format!("{xref_at}\n%%EOF").as_bytes());
    out
}

fn find(haystack: &[u8], needle: &[u8]) -> Option<usize> {
    haystack.windows(needle.len()).position(|w| w == needle)
}

#[test]
fn a_prepared_file_has_one_hole_and_a_range_that_covers_it() {
    let bytes = a_file();
    let file = File::parse(&bytes).expect("parse");
    let out = prepare(&file, Flavour::Signature, "A. Signer", "approval", "", b"D:20240101000000Z")
        .expect("prepare");
    // The original bytes come first, untouched.
    assert_eq!(&out[..9], b"%PDF-1.7\n");
    let range = find_placeholder(&out).expect("find");
    assert!(range.covers_everything());
    assert_eq!(range.hole_len, PLACEHOLDER + 2);
    assert!(find(&out, b"/SubFilter /adbe.pkcs7.detached").is_some());
    assert!(find(&out, b"/Name (A. Signer)").is_some());
    assert!(find(&out, b"/Reason (approval)").is_some());
    assert!(find(&out, b"/Location").is_none(), "an empty location was written");
    assert!(find(&out, b"/SigFlags 3").is_some());
    assert!(find(&out, b"/Annots [5 0 R]").is_some());

    // It still reads, and the two new objects are there.
    let again = File::parse(&out).expect("reparse");
    assert_eq!(again.numbers(), vec![1, 2, 3, 4, 5]);
}

#[test]
fn a_timestamp_is_prepared_with_its_own_subfilter() {
    let bytes = a_file();
    let file = File::parse(&bytes).expect("parse");
    let out = prepare(&file, Flavour::Timestamp, "", "", "", b"D:20240101000000Z").expect("prepare");
    assert!(find(&out, b"/SubFilter /ETSI.RFC3161").is_some());
    assert!(find(&out, b"/T (Timestamp1)").is_some());
    assert!(find(&out, b"/Name").is_none());
}

#[test]
fn a_signed_file_carries_the_signer_answer_for_its_own_digest() {
    let bytes = a_file();
    let file = File::parse(&bytes).expect("parse");
    let seen = RefCell::new(Vec::new());
    let about = Reason { name: String::new(), reason: "approval".to_string(), location: String::new() };
    let out = sign(&file, Some("From Certificate"), &about, b"D:20240101000000Z", |digest: &[u8]| {
        seen.borrow_mut().extend_from_slice(digest);
        Ok(vec![0xAB, 0x01])
    })
    .expect("sign");
    assert!(find(&out, b"/Name (From Certificate)").is_some(), "an empty name takes the subject");
    assert!(find(&out, b"/Contents <AB01000").is_some(), "the blob is written as hex at the hole");
    assert_eq!(seen.borrow().len(), 32, "the signer was handed a SHA-256 digest");
}

#[test]
fn a_timestamp_is_filled_with_the_authority_token() {
    let bytes = a_file();
    let file = File::parse(&bytes).expect("parse");
    let out = timestamp(&file, b"D:20240101000000Z", |_digest: &[u8]| Ok(vec![0x30, 0x03])).expect("timestamp");
    assert!(find(&out, b"/SubFilter /ETSI.RFC3161").is_some());
    assert!(find(&out, b"<3003").is_some());
    // The byte range was written: no ten-zero placeholder numbers remain.
    assert!(find(&out, b"[0000000000 0000000000").is_none());
}

#[test]
fn an_authority_that_fails_fails_the_timestamp() {
    let bytes = a_file();
    let file = File::parse(&bytes).expect("parse");
    let r = timestamp(&file, b"D:20240101000000Z", |_digest: &[u8]| {
        Err(PdfError::Unsupported("no authority here"))
    });
    assert!(matches!(r, Err(PdfError::Unsupported("no authority here"))));
}

#[test]
fn a_signature_larger_than_its_hole_is_refused_when_signing() {
    let bytes = a_file();
    let file = File::parse(&bytes).expect("parse");
    let about = Reason::default();
    let r = sign(&file, None, &about, b"D:20240101000000Z", |_digest: &[u8]| Ok(vec![1u8; PLACEHOLDER]));
    assert!(matches!(r, Err(PdfError::Unsupported(_))));
}
