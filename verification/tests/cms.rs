use cms::signed_data::{EncapsulatedContentInfo, SignedData, SignerIdentifier, SignerInfo, SignerInfos};
use const_oid::db::rfc5912::{
    ID_RSASSA_PSS, ID_SHA_256, RSA_ENCRYPTION, SHA_384_WITH_RSA_ENCRYPTION, SHA_512_WITH_RSA_ENCRYPTION,
};
use der::asn1::{OctetString, SetOfVec};
use der::Encode;
use spki::AlgorithmIdentifierOwned;
use pdf_core::pdf::cms::{digest_kind, read_cms, scheme_for};
use pdf_core::pdf::validate::{judge, DigestKind, Verdict};

/// A `SignedData` blob with one signer, named by issuer and serial, that
/// committed to `digest`, with a digest algorithm of the caller's choosing
/// and no certificates.
fn blob_with(digest_alg: const_oid::ObjectIdentifier, digest: &[u8]) -> Vec<u8> {
    let hash = AlgorithmIdentifierOwned { oid: digest_alg, parameters: None };
    let rsa = AlgorithmIdentifierOwned { oid: RSA_ENCRYPTION, parameters: None };
    let committed = cms::builder::create_message_digest_attribute(digest).unwrap();
    let attributes = SetOfVec::try_from(vec![committed]).unwrap();
    let sid = SignerIdentifier::IssuerAndSerialNumber(cms::cert::IssuerAndSerialNumber {
        issuer: x509_cert::name::Name::default(),
        serial_number: x509_cert::serial_number::SerialNumber::new(&[1]).unwrap(),
    });
    let signer = SignerInfo {
        version: cms::content_info::CmsVersion::V1,
        sid,
        digest_alg: hash.clone(),
        signed_attrs: Some(attributes),
        signature_algorithm: rsa,
        signature: OctetString::new(vec![1u8; 64]).unwrap(),
        unsigned_attrs: None,
    };
    let data = SignedData {
        version: cms::content_info::CmsVersion::V1,
        digest_algorithms: SetOfVec::try_from(vec![hash]).unwrap(),
        encap_content_info: EncapsulatedContentInfo {
            econtent_type: const_oid::db::rfc5911::ID_DATA,
            econtent: None,
        },
        certificates: None,
        crls: None,
        signer_infos: SignerInfos(SetOfVec::try_from(vec![signer]).unwrap()),
    };
    let info = cms::content_info::ContentInfo {
        content_type: const_oid::db::rfc5911::ID_SIGNED_DATA,
        content: der::Any::encode_from(&data).unwrap(),
    };
    info.to_der().unwrap()
}

fn unreadable_text(v: &Verdict) -> String {
    match v {
        Verdict::Unreadable(why) => why.clone(),
        other => panic!("expected unreadable, got {other:?}"),
    }
}

#[test]
fn bytes_that_are_not_cms_are_unreadable() {
    let err = read_cms(b"not a signature").unwrap_err();
    assert_eq!(unreadable_text(&err), "its signature is not a CMS structure");
}

#[test]
fn a_signer_commits_to_its_digest_and_no_certificate_is_unreadable() {
    let digest = [7u8; 32];
    let reading = read_cms(&blob_with(ID_SHA_256, &digest)).unwrap();
    assert_eq!(reading.commitment.hash, DigestKind::Sha256);
    assert_eq!(reading.commitment.committed, digest.to_vec());
    assert!(reading.commitment.token.is_none());
    let why = reading.certificates.unwrap_err();
    assert_eq!(unreadable_text(&why), "it carries no certificate to check against");
}

#[test]
fn a_digest_this_does_not_implement_is_named() {
    let err = read_cms(&blob_with(const_oid::db::rfc5912::ID_SHA_1, &[1u8; 20])).unwrap_err();
    assert_eq!(unreadable_text(&err), "its digest uses 1.3.14.3.2.26, which this does not implement");
}

#[test]
fn the_three_hashes_are_known_by_their_identifiers() {
    assert_eq!(digest_kind(ID_SHA_256.as_bytes()), Some(DigestKind::Sha256));
    assert_eq!(digest_kind(const_oid::db::rfc5912::ID_SHA_384.as_bytes()), Some(DigestKind::Sha384));
    assert_eq!(digest_kind(const_oid::db::rfc5912::ID_SHA_512.as_bytes()), Some(DigestKind::Sha512));
    assert_eq!(digest_kind(const_oid::db::rfc5912::ID_SHA_1.as_bytes()), None);
}

#[test]
fn a_signature_algorithm_names_its_scheme() {
    // Plain `rsaEncryption` takes its hash from the digest algorithm.
    assert_eq!(scheme_for(RSA_ENCRYPTION.as_bytes(), DigestKind::Sha384), Some(1));
    // The combined identifiers name their own hash, whatever the digest algorithm says.
    assert_eq!(scheme_for(SHA_384_WITH_RSA_ENCRYPTION.as_bytes(), DigestKind::Sha256), Some(1));
    assert_eq!(scheme_for(SHA_512_WITH_RSA_ENCRYPTION.as_bytes(), DigestKind::Sha256), Some(2));
    // PSS takes its hash from the digest algorithm.
    assert_eq!(scheme_for(ID_RSASSA_PSS.as_bytes(), DigestKind::Sha512), Some(5));
    assert_eq!(scheme_for(ID_SHA_256.as_bytes(), DigestKind::Sha256), None);
}

#[test]
fn a_signature_that_cannot_be_read_names_no_signer() {
    // A range that names the whole file but the hole, and contents that are
    // not CMS: unreadable, and no signer.
    let bytes = vec![b'x'; 40];
    let dict = pdf_core::pdf::Dict(vec![(b"Contents".to_vec(), pdf_core::pdf::Object::HexString(b"0102".to_vec()))]);
    let checked = judge(&dict, &bytes, Some([0, 10, 20, 20]));
    assert!(checked.signer.is_none());
    assert_eq!(unreadable_text(&checked.verdict), "its signature is not a CMS structure");
}

#[test]
fn a_signature_whose_certificates_are_missing_names_no_signer() {
    // The signer committed to the digest of the covered bytes, but carries no
    // certificate to check the signature with.
    let bytes: Vec<u8> = (0u8..40).collect();
    let digest = DigestKind::Sha256.over(&bytes[..10], &bytes[20..40]);
    let blob = blob_with(ID_SHA_256, &digest);
    let hex: Vec<u8> = blob.iter().flat_map(|b| format!("{b:02x}").into_bytes()).collect();
    let dict = pdf_core::pdf::Dict(vec![(b"Contents".to_vec(), pdf_core::pdf::Object::HexString(hex))]);
    let checked = judge(&dict, &bytes, Some([0, 10, 20, 20]));
    assert!(checked.signer.is_none());
    assert_eq!(unreadable_text(&checked.verdict), "it carries no certificate to check against");
}
