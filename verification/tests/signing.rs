use std::str::FromStr;

use der::{Decode, Encode};
use pdf_core::pdf::cms::read_cms;
use pdf_core::pdf::sign::{sign, Identity, Reason, PLACEHOLDER};
use pdf_core::pdf::validate::{check, judge, DigestKind, Verdict};
use pdf_core::pdf::{Dict, File, Object};
use rsa::pkcs8::EncodePrivateKey;
use rsa::rand_core::{CryptoRng, Error as RandError, RngCore};
use x509_cert::builder::{Builder, CertificateBuilder, Profile};

/// A fixed stream of bytes standing in for randomness, so the key a test
/// makes is the same key every run.
struct Fixed(u64);

impl RngCore for Fixed {
    fn next_u32(&mut self) -> u32 {
        self.next_u64() as u32
    }

    fn next_u64(&mut self) -> u64 {
        // xorshift64
        self.0 ^= self.0 << 13;
        self.0 ^= self.0 >> 7;
        self.0 ^= self.0 << 17;
        self.0
    }

    fn fill_bytes(&mut self, dest: &mut [u8]) {
        for b in dest.iter_mut() {
            *b = self.next_u64() as u8;
        }
    }

    fn try_fill_bytes(&mut self, dest: &mut [u8]) -> Result<(), RandError> {
        self.fill_bytes(dest);
        Ok(())
    }
}

impl CryptoRng for Fixed {}

/// A self-signed RSA identity, as a PKCS#12 file under `password`.
fn pkcs12(password: &str) -> Vec<u8> {
    let mut rng = Fixed(0x9E37_79B9_7F4A_7C15);
    let key = rsa::RsaPrivateKey::new(&mut rng, 768).expect("key");
    let signer = rsa::pkcs1v15::SigningKey::<sha2::Sha256>::new(key.clone());
    let spki = spki::SubjectPublicKeyInfoOwned::from_key(key.to_public_key()).expect("spki");
    let subject = x509_cert::name::Name::from_str("CN=Pagify Test Signer").expect("name");
    let validity = x509_cert::time::Validity::from_now(std::time::Duration::from_secs(3600)).expect("validity");
    let serial = x509_cert::serial_number::SerialNumber::new(&[1]).expect("serial");
    let builder = CertificateBuilder::new(Profile::Root, serial, validity, subject, spki, &signer).expect("builder");
    let certificate = builder.build::<rsa::pkcs1v15::Signature>().expect("certificate");
    let certificate_der = certificate.to_der().expect("certificate der");
    let key_der = key.to_pkcs8_der().expect("key der");
    let pfx = p12::PFX::new(&certificate_der, key_der.as_bytes(), None, password, "signer").expect("pfx");
    pfx.to_der()
}

#[test]
fn a_certificate_and_key_are_read_from_a_pkcs12_file() {
    let identity = Identity::from_pkcs12(&pkcs12("pagify"), "pagify").expect("read the identity");
    assert!(!identity.certificates.is_empty(), "no certificate came back");
    identity.rsa_key().expect("the key is not usable");

    // And it says whose it is, which is what a person is shown before they
    // put a name on a document.
    let subject = identity.subject().expect("subject");
    assert!(subject.contains("Pagify Test Signer"), "{subject}");
}

#[test]
fn a_wrong_password_does_not_open_it() {
    match Identity::from_pkcs12(&pkcs12("pagify"), "not the password") {
        Ok(_) => panic!("a wrong password opened the file"),
        Err(problem) => {
            let said = problem.message();
            assert!(said.contains("password"), "unhelpful: {said}");
            // And it names the other cause, because the two look identical
            // from here and only one of them is a typo.
            assert!(said.contains("AES"), "it blamed the password alone: {said}");
        }
    }
}

/// **The blob is a CMS SignedData that parses back**, which is the least a
/// reader will ask of it.
#[test]
fn a_signature_is_a_readable_cms_structure() {
    let identity = Identity::from_pkcs12(&pkcs12("pagify"), "pagify").expect("identity");
    let blob = identity.detached_signature(&[7u8; 32]).expect("sign");
    let parsed = cms::content_info::ContentInfo::from_der(&blob).expect("it is not CMS");
    assert_eq!(parsed.content_type, const_oid::db::rfc5911::ID_SIGNED_DATA);
}

/// **Detached**: the file's bytes are not inside the blob.
#[test]
fn the_signed_content_is_not_carried_in_the_signature() {
    let identity = Identity::from_pkcs12(&pkcs12("pagify"), "pagify").expect("identity");
    let blob = identity.detached_signature(&[7u8; 32]).expect("sign");
    let parsed = cms::content_info::ContentInfo::from_der(&blob).expect("CMS");
    let signed: cms::signed_data::SignedData = parsed.content.decode_as().expect("signed data");
    assert!(signed.encap_content_info.econtent.is_none(), "the content was carried inside the signature");
    assert!(signed.certificates.is_some(), "no certificate travelled with it");
}

/// A different digest makes a different signature.
#[test]
fn signing_two_digests_gives_two_signatures() {
    let identity = Identity::from_pkcs12(&pkcs12("pagify"), "pagify").expect("identity");
    let one = identity.detached_signature(&[1u8; 32]).expect("sign");
    let two = identity.detached_signature(&[2u8; 32]).expect("sign");
    assert_ne!(one, two, "the signature does not depend on what was signed");
}

/// And it fits the room reserved for it.
#[test]
fn a_signature_fits_the_placeholder() {
    let identity = Identity::from_pkcs12(&pkcs12("pagify"), "pagify").expect("identity");
    let blob = identity.detached_signature(&[0u8; 32]).expect("sign");
    assert!(blob.len() * 2 < PLACEHOLDER, "a {} byte signature will not fit {PLACEHOLDER} bytes of hex", blob.len());
}

/// What this library reads of a signature it made: the digest it was given,
/// and the one certificate, named by the signer, whose key made it.
#[test]
fn a_signature_made_here_reads_back_and_verifies_under_its_certificate() {
    let identity = Identity::from_pkcs12(&pkcs12("pagify"), "pagify").expect("identity");
    let digest = [7u8; 32];
    let blob = identity.detached_signature(&digest).expect("sign");

    let reading = read_cms(&blob).expect("it reads as CMS");
    assert_eq!(reading.commitment.hash, DigestKind::Sha256);
    assert_eq!(reading.commitment.committed, digest.to_vec());
    assert!(reading.commitment.token.is_none());
    let certificates = reading.certificates.expect("certificates");
    assert_eq!(certificates.len(), 1);
    assert!(certificates[0].named, "the signer does not name its certificate");
    assert_eq!(certificates[0].subject, "CN=Pagify Test Signer");
    assert_eq!(certificates[0].verifies, Ok(true), "the signature does not verify under its key");
}

// A whole small file, written by hand so the offsets are known.
fn a_file() -> Vec<u8> {
    let mut out = Vec::new();
    let mut offsets = Vec::new();
    out.extend_from_slice(b"%PDF-1.7\n");
    offsets.push(out.len());
    out.extend_from_slice(b"1 0 obj\n<< /Type /Catalog /Pages 2 0 R >>\nendobj\n");
    offsets.push(out.len());
    out.extend_from_slice(b"2 0 obj\n<< /Type /Pages /Kids [3 0 R] /Count 1 >>\nendobj\n");
    offsets.push(out.len());
    out.extend_from_slice(b"3 0 obj\n<< /Type /Page /Parent 2 0 R >>\nendobj\n");
    let xref_at = out.len();
    out.extend_from_slice(b"xref\n0 4\n0000000000 65535 f \n");
    for offset in &offsets {
        out.extend_from_slice(format!("{offset:010} 00000 n \n").as_bytes());
    }
    out.extend_from_slice(b"trailer\n<< /Size 4 /Root 1 0 R >>\nstartxref\n");
    out.extend_from_slice(format!("{xref_at}\n%%EOF").as_bytes());
    out
}

/// The four whole numbers of a `/ByteRange`.
fn range_of(dict: &Dict) -> Option<[usize; 4]> {
    let Some(Object::Array(items)) = dict.get(b"ByteRange") else { return None };
    let numbers: Vec<usize> = items
        .iter()
        .filter_map(|item| match item {
            Object::Number(raw) => std::str::from_utf8(raw).ok()?.parse().ok(),
            _ => None,
        })
        .collect();
    let [a, b, c, d] = numbers[..] else { return None };
    Some([a, b, c, d])
}

/// A file signed here checks as unaltered, naming the certificate's subject;
/// the same file with a byte changed inside the signed range does not.
#[test]
fn a_file_signed_here_checks_as_unaltered_and_a_changed_one_as_altered() {
    let identity = Identity::from_pkcs12(&pkcs12("pagify"), "pagify").expect("identity");
    let bytes = a_file();
    let file = File::parse(&bytes).expect("parse");
    let about = Reason { name: String::new(), reason: "approval".to_string(), location: String::new() };
    let signed = sign(&file, identity.subject().ok().as_deref(), &about, b"D:20240101000000Z", |digest: &[u8]| {
        identity.detached_signature(digest)
    })
    .expect("sign");

    let reread = File::parse(&signed).expect("reparse");
    let found = check(&reread, &signed, |dict: &Dict, bytes: &[u8]| judge(dict, bytes, range_of(dict))).expect("check");
    assert_eq!(found.len(), 1);
    assert_eq!(found[0].verdict, Verdict::Unaltered);
    assert_eq!(found[0].signer.as_deref(), Some("CN=Pagify Test Signer"));

    // Change one byte the signature covers: the version in the header.
    let mut changed = signed.clone();
    assert_eq!(&changed[..9], b"%PDF-1.7\n");
    changed[7] = b'6';
    let reread = File::parse(&changed).expect("reparse");
    let found = check(&reread, &changed, |dict: &Dict, bytes: &[u8]| judge(dict, bytes, range_of(dict))).expect("check");
    assert_eq!(found.len(), 1);
    assert_eq!(found[0].verdict, Verdict::Altered);
    assert!(found[0].signer.is_none());
}
