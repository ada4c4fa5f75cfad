use pdf_core::pdf::hidden::{strip, survey, Hidden, Sanitised};
use pdf_core::pdf::File;

#[test]
fn a_file_with_nothing_hidden_says_so() {
    let found = Hidden { revisions: 1, ..Hidden::default() };
    assert!(found.is_empty());
    assert_eq!(found.describe(), "nothing hidden beyond the pages themselves");
}

/// The count is of revisions; what it *means* is earlier versions.
#[test]
fn earlier_revisions_are_described_as_what_they_are() {
    let two = Hidden { revisions: 2, ..Hidden::default() };
    assert_eq!(two.describe(), "1 earlier version of the whole document");
    let four = Hidden { revisions: 4, ..Hidden::default() };
    assert!(four.describe().starts_with("3 earlier versions"));
}

#[test]
fn everything_found_is_listed() {
    let found = Hidden {
        revisions: 2,
        information: vec!["Author".into(), "Producer".into()],
        xmp: true,
        embedded_files: 1,
        javascript: true,
        unreachable: 8,
        keeps_lock: false,
    };
    let said = found.describe();
    for expected in ["earlier version", "Author", "XMP", "embedded", "JavaScript", "8 unreachable"] {
        assert!(said.contains(expected), "{expected:?} was not reported: {said}");
    }
    assert!(!found.is_empty());
}

/// A single-revision file with only a lock in it has nothing to clean.
#[test]
fn a_lock_alone_is_not_hidden_data_to_remove() {
    let found = Hidden { revisions: 1, keeps_lock: true, ..Hidden::default() };
    assert!(found.is_empty(), "it offered to remove a lock's own copy");
}

#[test]
fn everything_found_is_listed_in_order_and_exactly() {
    let found = Hidden {
        revisions: 3,
        information: vec!["Author".into(), "Producer".into()],
        xmp: true,
        embedded_files: 2,
        javascript: true,
        unreachable: 1,
        keeps_lock: false,
    };
    assert_eq!(
        found.describe(),
        "2 earlier versions of the whole document; document information (Author, Producer); \
         an XMP metadata packet; 2 embedded file(s); JavaScript; 1 unreachable object(s)"
    );
}

#[test]
fn what_was_removed_is_what_the_second_survey_no_longer_finds() {
    let before = Hidden {
        revisions: 2,
        information: vec!["Author".into(), "Producer".into()],
        xmp: true,
        embedded_files: 1,
        javascript: true,
        unreachable: 3,
        keeps_lock: true,
    };
    let after = Hidden { revisions: 1, information: vec!["Producer".into()], embedded_files: 1, ..Hidden::default() };
    let san = Sanitised { before: before.clone(), after: after.clone() };
    let removed = san.removed();
    assert_eq!(removed.revisions, 2);
    assert_eq!(removed.information, vec!["Author".to_string()]);
    assert!(removed.xmp && removed.javascript);
    assert_eq!(removed.embedded_files, 0);
    assert_eq!(removed.unreachable, 3);
    assert!(removed.keeps_lock);
    assert!(!san.is_clean());
    assert!(san.describe().starts_with("STILL THERE: document information (Producer); 1 embedded file(s). Removed: "));
}

#[test]
fn a_clean_that_found_nothing_says_so() {
    let nothing = Hidden { revisions: 1, ..Hidden::default() };
    let san = Sanitised { before: nothing.clone(), after: nothing };
    assert!(san.is_clean());
    assert_eq!(san.describe(), "there was nothing hidden to remove");
}

// A file saved twice, with document information, an XMP packet, an object
// nothing points at, and an opening action that runs script.
fn a_file() -> Vec<u8> {
    let mut out = Vec::new();
    let mut offsets = Vec::new();
    out.extend_from_slice(b"%PDF-1.7\n");
    offsets.push(out.len());
    out.extend_from_slice(
        b"1 0 obj\n<< /Type /Catalog /Pages 2 0 R /Metadata 4 0 R /OpenAction << /S /JavaScript /JS (app.alert(1)) >> >>\nendobj\n",
    );
    offsets.push(out.len());
    out.extend_from_slice(b"2 0 obj\n<< /Type /Pages /Kids [] /Count 0 >>\nendobj\n");
    offsets.push(out.len());
    out.extend_from_slice(b"3 0 obj\n<< /Author (Somebody) /Producer (A tool) >>\nendobj\n");
    offsets.push(out.len());
    out.extend_from_slice(b"4 0 obj\n<< /Type /Metadata >>\nendobj\n");
    offsets.push(out.len());
    out.extend_from_slice(b"5 0 obj\n(a passage taken off a page)\nendobj\n");
    let xref_at = out.len();
    out.extend_from_slice(b"xref\n0 6\n0000000000 65535 f \n");
    for offset in &offsets {
        out.extend_from_slice(format!("{offset:010} 00000 n \n").as_bytes());
    }
    out.extend_from_slice(b"trailer\n<< /Size 6 /Root 1 0 R /Info 3 0 R >>\n");
    // An earlier save's pointer, still in the file.
    out.extend_from_slice(b"% startxref 0\n");
    out.extend_from_slice(b"startxref\n");
    out.extend_from_slice(format!("{xref_at}\n%%EOF").as_bytes());
    out
}

#[test]
fn a_survey_finds_what_the_file_carries() {
    let bytes = a_file();
    let file = File::parse(&bytes).expect("parse");
    let found = survey(&file, &bytes).expect("survey");
    assert_eq!(found.revisions, 2);
    assert_eq!(found.information, vec!["Author".to_string(), "Producer".to_string()]);
    assert!(found.xmp);
    assert!(found.javascript);
    assert_eq!(found.unreachable, 1);
    assert_eq!(found.embedded_files, 0);
    assert!(!found.is_empty());
}

#[test]
fn a_strip_takes_it_out_and_says_what_it_took() {
    let bytes = a_file();
    let file = File::parse(&bytes).expect("parse");
    let (cleaned, report) = strip(&file, &bytes).expect("strip");
    assert!(report.is_clean(), "{}", report.describe());
    assert!(report.describe().starts_with("removed: "));
    let again = File::parse(&cleaned).expect("reparse");
    // The catalogue and the page tree are all that is left.
    assert_eq!(again.numbers(), vec![1, 2]);
    assert!(cleaned.windows(10).all(|w| w != b"JavaScript"), "the script survived");
    assert!(cleaned.windows(8).all(|w| w != b"Somebody"), "the author survived");
}

// A page whose content stream carries a script action in its dictionary.
fn a_file_with_a_scripted_stream() -> Vec<u8> {
    let mut out = Vec::new();
    let mut offsets = Vec::new();
    out.extend_from_slice(b"%PDF-1.7\n");
    offsets.push(out.len());
    out.extend_from_slice(b"1 0 obj\n<< /Type /Catalog /Pages 2 0 R >>\nendobj\n");
    offsets.push(out.len());
    out.extend_from_slice(b"2 0 obj\n<< /Type /Pages /Kids [3 0 R] /Count 1 >>\nendobj\n");
    offsets.push(out.len());
    out.extend_from_slice(b"3 0 obj\n<< /Type /Page /Parent 2 0 R /Contents 4 0 R >>\nendobj\n");
    offsets.push(out.len());
    out.extend_from_slice(
        b"4 0 obj\n<< /Length 15 /AA << /O << /S /JavaScript /JS (app.alert(1)) >> >> >>\nstream\nBT (kept) Tj ET\nendstream\nendobj\n",
    );
    let xref_at = out.len();
    out.extend_from_slice(b"xref\n0 5\n0000000000 65535 f \n");
    for offset in &offsets {
        out.extend_from_slice(format!("{offset:010} 00000 n \n").as_bytes());
    }
    out.extend_from_slice(b"trailer\n<< /Size 5 /Root 1 0 R >>\n");
    out.extend_from_slice(b"startxref\n");
    out.extend_from_slice(format!("{xref_at}\n%%EOF").as_bytes());
    out
}

#[test]
fn a_stream_whose_script_is_taken_out_keeps_its_data() {
    let bytes = a_file_with_a_scripted_stream();
    let file = File::parse(&bytes).expect("parse");
    let (cleaned, report) = strip(&file, &bytes).expect("strip");
    assert!(report.before.javascript);
    assert!(!report.after.javascript, "the script is still there");
    let text = String::from_utf8_lossy(&cleaned);
    assert!(text.contains("stream\nBT (kept) Tj ET\nendstream"), "the page's content was lost: {text}");
    assert!(!text.contains("JavaScript"));
}
