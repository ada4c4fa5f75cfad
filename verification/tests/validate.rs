use sha2::Digest;
use pdf_core::pdf::validate::{verdict_for, CmsReading, Verdict};

#[test]
fn every_verdict_says_what_it_means() {
    assert!(Verdict::Unaltered.describe().contains("not checked"));
    assert!(Verdict::Altered.describe().contains("CHANGED"));
    assert!(Verdict::Invalid("why".into()).describe().contains("NOT VALID"));
    assert!(Verdict::Incomplete { covered: 10, total: 20 }
        .describe()
        .contains("never signed"));
    assert!(Verdict::Unreadable("why".into()).describe().contains("could not"));
}

// "Could not be checked" is not "invalid", and the wording keeps them apart —
// an algorithm we do not implement says nothing about the document.
#[test]
fn unreadable_is_not_reported_as_altered() {
    let said = Verdict::Unreadable("an algorithm this does not know".into()).describe();
    assert!(!said.contains("CHANGED"), "{said}");
    assert!(!said.to_lowercase().contains("invalid"), "{said}");
}

// And "unchanged" never claims more than it knows.
#[test]
fn unaltered_does_not_claim_the_certificate_is_trusted() {
    let said = Verdict::Unaltered.describe();
    assert!(said.contains("whether to trust that certificate is not checked"), "{said}");
}

#[test]
fn an_incomplete_signature_gives_both_numbers() {
    assert_eq!(
        Verdict::Incomplete { covered: 10, total: 20 }.describe(),
        "covers only 10 of 20 bytes — the rest was never signed"
    );
}

use pdf_core::pdf::validate::{check, digest_verdict, range_verdict, signature_blob, Checked, Commitment, DigestKind, Token};
use pdf_core::pdf::{Dict, File, Object};

#[test]
fn a_range_that_stops_short_of_the_end_is_incomplete() {
    // The file grew by 64 bytes after it was signed.
    assert_eq!(
        range_verdict(Some([0, 100, 200, 300]), 564),
        Some(Verdict::Incomplete { covered: 400, total: 564 })
    );
    assert_eq!(range_verdict(Some([0, 100, 200, 300]), 500), None);
}

#[test]
fn a_missing_range_or_one_past_the_file_is_unreadable() {
    assert!(matches!(range_verdict(None, 10), Some(Verdict::Unreadable(_))));
    assert!(matches!(range_verdict(Some([0, 600, 200, 300]), 500), Some(Verdict::Unreadable(_))));
}

#[test]
fn a_digest_that_matches_settles_nothing_and_one_that_does_not_is_altered() {
    let bytes = b"before<0000>after".to_vec();
    let range = [0usize, 6, 12, 5];
    let mut signed = bytes[..6].to_vec();
    signed.extend_from_slice(&bytes[12..]);
    let good = sha2::Sha256::digest(&signed).to_vec();
    let commitment = Commitment { hash: DigestKind::Sha256, committed: good.clone(), token: None };
    assert_eq!(digest_verdict(range, &bytes, &commitment), None);

    let mut changed = bytes.clone();
    changed[0] = b'B';
    assert_eq!(digest_verdict(range, &changed, &commitment), Some(Verdict::Altered));

    // A timestamp commits to its TSTInfo; the imprint inside names the file.
    let tst_info = b"a TSTInfo".to_vec();
    let token = Token { hash: DigestKind::Sha256, imprint: good, tst_info: tst_info.clone() };
    let committed = sha2::Sha512::digest(&tst_info).to_vec();
    let stamped = Commitment { hash: DigestKind::Sha512, committed, token: Some(token.clone()) };
    assert_eq!(digest_verdict(range, &bytes, &stamped), None);
    let wrong = Commitment { hash: DigestKind::Sha512, committed: vec![0; 64], token: Some(token) };
    assert!(matches!(digest_verdict(range, &bytes, &wrong), Some(Verdict::Invalid(_))));
}

#[test]
fn the_blob_loses_the_zeros_that_pad_the_hole() {
    let dict = Dict(vec![(b"Contents".to_vec(), Object::HexString(b"3082AB00000000".to_vec()))]);
    assert_eq!(signature_blob(&dict), Some(vec![0x30, 0x82, 0xAB]));
    let literal = Dict(vec![(b"Contents".to_vec(), Object::LiteralString(b"x".to_vec()))]);
    assert_eq!(signature_blob(&literal), None);
}

fn a_signed_file() -> Vec<u8> {
    let mut out = Vec::new();
    let mut offsets = Vec::new();
    out.extend_from_slice(b"%PDF-1.7\n");
    offsets.push(out.len());
    out.extend_from_slice(b"1 0 obj\n<< /Type /Catalog >>\nendobj\n");
    offsets.push(out.len());
    out.extend_from_slice(
        b"2 0 obj\n<< /Type /Sig /SubFilter /ETSI.RFC3161 /Name (A. Signer) /M (D:20240101000000Z) >>\nendobj\n",
    );
    let xref_at = out.len();
    out.extend_from_slice(b"xref\n0 3\n0000000000 65535 f \n");
    for offset in &offsets {
        out.extend_from_slice(format!("{offset:010} 00000 n \n").as_bytes());
    }
    out.extend_from_slice(b"trailer\n<< /Size 3 /Root 1 0 R >>\nstartxref\n");
    out.extend_from_slice(format!("{xref_at}\n%%EOF").as_bytes());
    out
}

#[test]
fn every_signature_dictionary_is_reported_with_what_it_says() {
    let bytes = a_signed_file();
    let file = File::parse(&bytes).expect("parse");
    let found = check(&file, &bytes, |_, _| Checked { verdict: Verdict::Altered, signer: None }).expect("check");
    assert_eq!(found.len(), 1);
    assert_eq!(found[0].name, "A. Signer");
    assert_eq!(found[0].when, "D:20240101000000Z");
    assert!(found[0].timestamp);
    assert_eq!(found[0].verdict, Verdict::Altered);
}

fn signed_dict(blob_hex: &[u8]) -> pdf_core::pdf::Dict {
    pdf_core::pdf::Dict(vec![(b"Contents".to_vec(), pdf_core::pdf::Object::HexString(blob_hex.to_vec()))])
}

fn reading_over(
    bytes: &[u8],
    range: [usize; 4],
    certificates: Vec<pdf_core::pdf::validate::CertificateCheck>,
) -> pdf_core::pdf::validate::CmsReading {
    let committed = DigestKind::Sha256.over(&bytes[..range[1]], &bytes[range[2]..range[2] + range[3]]);
    CmsReading { commitment: Commitment { hash: DigestKind::Sha256, committed, token: None }, certificates: Ok(certificates) }
}

fn cert(named: bool, subject: &str, verifies: Result<bool, String>) -> pdf_core::pdf::validate::CertificateCheck {
    pdf_core::pdf::validate::CertificateCheck { named, subject: subject.to_string(), verifies }
}

#[test]
fn the_named_certificate_that_verifies_is_the_signer() {
    let bytes = b"0123456789abcdefghij".to_vec();
    let range = [0, 5, 10, 10];
    let dict = signed_dict(b"3082");
    let checked = verdict_for(&dict, &bytes, Some(range), |_blob: &[u8]| {
        Ok(reading_over(&bytes, range, vec![cert(false, "CN=Other", Ok(true)), cert(true, "CN=Named", Ok(true))]))
    });
    assert_eq!(checked.verdict, Verdict::Unaltered);
    assert_eq!(checked.signer.as_deref(), Some("CN=Named"), "the named certificate is tried first");
}

#[test]
fn no_usable_key_is_unreadable_and_a_wrong_key_is_invalid() {
    let bytes = b"0123456789abcdefghij".to_vec();
    let range = [0, 5, 10, 10];
    let dict = signed_dict(b"3082");
    let unusable = verdict_for(&dict, &bytes, Some(range), |_blob: &[u8]| {
        Ok(reading_over(&bytes, range, vec![cert(false, "CN=B", Err("b".into())), cert(true, "CN=A", Err("a".into()))]))
    });
    assert_eq!(unusable.verdict, Verdict::Unreadable("a".into()));
    assert!(unusable.signer.is_none());
    let wrong = verdict_for(&dict, &bytes, Some(range), |_blob: &[u8]| {
        Ok(reading_over(&bytes, range, vec![cert(true, "CN=A", Err("a".into())), cert(false, "CN=B", Ok(false))]))
    });
    assert!(matches!(wrong.verdict, Verdict::Invalid(_)));
}

#[test]
fn a_changed_file_is_altered_whatever_the_certificates_say() {
    let bytes = b"0123456789abcdefghij".to_vec();
    let range = [0, 5, 10, 10];
    let dict = signed_dict(b"3082");
    let checked = verdict_for(&dict, b"0123456789abcdefghiX", Some(range), |_blob: &[u8]| {
        Ok(reading_over(&bytes, range, vec![cert(true, "CN=A", Ok(true))]))
    });
    assert_eq!(checked.verdict, Verdict::Altered);
    assert!(checked.signer.is_none());
}

#[test]
fn an_appended_file_is_incomplete_before_anything_is_read() {
    let dict = signed_dict(b"3082");
    let checked = verdict_for(&dict, b"0123456789abcdefghijMORE", Some([0, 5, 10, 10]), |_blob: &[u8]| {
        panic!("the blob was read although the range already settled it")
    });
    assert_eq!(checked.verdict, Verdict::Incomplete { covered: 15, total: 24 });
}

#[test]
fn a_range_whose_sums_overflow_is_unreadable() {
    let dict = signed_dict(b"3082");
    let checked = verdict_for(&dict, b"x", Some([0, usize::MAX, 1, usize::MAX]), |_blob: &[u8]| {
        Err(Verdict::Unreadable("never".into()))
    });
    assert_eq!(checked.verdict, Verdict::Unreadable("its byte range runs past the file".into()));
}
