//! Reading a signature's CMS structure: what its signer committed to, and
//! each certificate it carries tried against the signature.
//!
//! The ASN.1 is decoded by the `cms`, `x509-cert` and `der` crates and the
//! public-key arithmetic done by `rsa`; every decision about what the decoded
//! parts come to is made here: which hash an algorithm names, which digest
//! the signer committed to, which signature scheme is checked, which
//! certificate is the one the signer names, and why one cannot be used.

use vstd::prelude::*;
use crate::pdf::object::same_bytes;
use der::{Decode, Encode, Reader, Tagged};
use rsa::pkcs8::DecodePublicKey;
use crate::pdf::validate::{hashed, CertificateCheck, CmsReading, Commitment, DigestKind, Token, Verdict};

verus! {

// ---------------------------------------------------------------------------
// What the outside crates read out of the bytes.

/// What the first signer of a CMS `SignedData` blob names: its digest
/// algorithm (identifier bytes and dotted text), its signature algorithm
/// (likewise) and the signature; or how far the blob got: 0 when it is not a
/// CMS structure, 1 when its content is not `SignedData`, 2 when it names no
/// signer.
pub uninterp spec fn signer_layer(blob: Seq<u8>) -> Result<(Seq<u8>, Seq<char>, Seq<u8>, Seq<char>, Seq<u8>), u8>;

/// The first signer's signed attributes: their DER encoding as a `SET`
/// (`None` when that cannot be written), and each attribute's identifier with
/// the content of its first value. `None` when there are no signed
/// attributes, or no signer.
pub uninterp spec fn signed_attributes(blob: Seq<u8>) -> Option<(Option<Seq<u8>>, Seq<(Seq<u8>, Option<Seq<u8>>)>)>;

/// The encapsulated content's type identifier, and the content read as an
/// `OCTET STRING` when there is one that reads as such.
pub uninterp spec fn encapsulated(blob: Seq<u8>) -> Option<(Seq<u8>, Option<Seq<u8>>)>;

/// How the first signer names its certificate: `(true, issuer, serial)`
/// by issuer (its DER) and serial number, `(false, key id, _)` by subject
/// key identifier.
pub uninterp spec fn signer_identity(blob: Seq<u8>) -> Option<(bool, Seq<u8>, Seq<u8>)>;

/// Each entry of the blob's certificate set, in order: the DER of a
/// certificate, `None` for any other kind of entry or one that cannot be
/// written back; `None` as a whole when the blob does not read as
/// `SignedData`.
pub uninterp spec fn carried_certificates(blob: Seq<u8>) -> Option<Seq<Option<Seq<u8>>>>;

/// Optional byte strings as values.
pub open spec fn optional_strings(v: Seq<Option<Vec<u8>>>) -> Seq<Option<Seq<u8>>> {
    v.map_values(|x: Option<Vec<u8>>| match x { Some(b) => Some(b@), None => None })
}

/// The certificates among the entries of a certificate set, in order.
pub open spec fn present(entries: Seq<Option<Seq<u8>>>) -> Seq<Seq<u8>>
    decreases entries.len(),
{
    if entries.len() == 0 {
        Seq::empty()
    } else {
        present(entries.drop_last()) + match entries.last() { Some(b) => seq![b], None => Seq::empty() }
    }
}

/// Of a DER certificate: its issuer (DER), serial number, subject as text,
/// its key's algorithm (identifier bytes and dotted text), and its
/// `SubjectPublicKeyInfo` as DER (`None` when that cannot be written).
pub uninterp spec fn certificate_facts(der: Seq<u8>)
    -> Option<(Seq<u8>, Seq<u8>, Seq<char>, Seq<u8>, Seq<char>, Option<Seq<u8>>)>;

/// A DER certificate's extensions: each one's identifier and value.
pub uninterp spec fn certificate_extensions(der: Seq<u8>) -> Option<Seq<(Seq<u8>, Seq<u8>)>>;

/// The key identifier a `SubjectKeyIdentifier` extension value holds.
pub uninterp spec fn key_identifier(value: Seq<u8>) -> Option<Seq<u8>>;

/// The content of a `TSTInfo`'s third field, its `messageImprint`, when the
/// `TSTInfo` is a `SEQUENCE` whose first three fields read and whose third is
/// itself a `SEQUENCE`.
pub uninterp spec fn imprint_sequence(tst_info: Seq<u8>) -> Option<Seq<u8>>;

/// The hash algorithm (identifier bytes and dotted text) and the hashed
/// message a `messageImprint`'s content holds.
pub uninterp spec fn imprint_fields(content: Seq<u8>) -> Option<(Seq<u8>, Seq<char>, Seq<u8>)>;

/// Whether a signature verifies under an RSA public key (as DER), in one of
/// the six schemes checked, over a digest already taken; `None` when the key
/// does not read as an RSA key.
pub uninterp spec fn rsa_verifies(key: Seq<u8>, scheme: u8, digest: Seq<u8>, signature: Seq<u8>) -> Option<bool>;

/// Byte strings as values.
pub open spec fn byte_strings(v: Seq<Vec<u8>>) -> Seq<Seq<u8>> {
    v.map_values(|x: Vec<u8>| x@)
}

/// An attribute list as values.
pub open spec fn attribute_values(v: Seq<(Vec<u8>, Option<Vec<u8>>)>) -> Seq<(Seq<u8>, Option<Seq<u8>>)> {
    v.map_values(|a: (Vec<u8>, Option<Vec<u8>>)| (a.0@, match a.1 { Some(x) => Some(x@), None => None }))
}

/// An extension list as values.
pub open spec fn extension_values(v: Seq<(Vec<u8>, Vec<u8>)>) -> Seq<(Seq<u8>, Seq<u8>)> {
    v.map_values(|e: (Vec<u8>, Vec<u8>)| (e.0@, e.1@))
}

/// `ContentInfo::from_der`, `decode_as::<SignedData>`, then the first
/// `SignerInfo`'s algorithms and signature, named as a function of the blob.
#[verifier::external_body]
fn read_signer(blob: &[u8]) -> (r: Result<(Vec<u8>, String, Vec<u8>, String, Vec<u8>), u8>)
    ensures
        match signer_layer(blob@) {
            Ok(v) => r matches Ok(x) && x.0@ == v.0 && x.1@ == v.1 && x.2@ == v.2 && x.3@ == v.3 && x.4@ == v.4,
            Err(e) => r == Err::<(Vec<u8>, String, Vec<u8>, String, Vec<u8>), u8>(e),
        },
{
    let Ok(info) = cms::content_info::ContentInfo::from_der(blob) else { return Err(0) };
    let Ok(data) = info.content.decode_as::<cms::signed_data::SignedData>() else { return Err(1) };
    let Some(s) = data.signer_infos.0.as_ref().first() else { return Err(2) };
    let (d, a) = (&s.digest_alg.oid, &s.signature_algorithm.oid);
    Ok((d.as_bytes().to_vec(), d.to_string(), a.as_bytes().to_vec(), a.to_string(), s.signature.as_bytes().to_vec()))
}

/// The first signer's `signed_attrs`: `Encode::to_der` of the set, and each
/// attribute's `oid` with its first value's content.
#[verifier::external_body]
fn read_attributes(blob: &[u8]) -> (r: Option<(Option<Vec<u8>>, Vec<(Vec<u8>, Option<Vec<u8>>)>)>)
    ensures
        match signed_attributes(blob@) {
            Some(v) => r matches Some(x) && attribute_values(x.1@) == v.1 && match v.0 {
                Some(d) => x.0 matches Some(e) && e@ == d,
                None => x.0 is None,
            },
            None => r is None,
        },
{
    let info = cms::content_info::ContentInfo::from_der(blob).ok()?;
    let data = info.content.decode_as::<cms::signed_data::SignedData>().ok()?;
    let set = data.signer_infos.0.as_ref().first()?.signed_attrs.as_ref()?;
    let list = set.iter().map(|a| (a.oid.as_bytes().to_vec(), a.values.as_ref().first().map(|v| v.value().to_vec())));
    Some((set.to_der().ok(), list.collect()))
}

/// `encap_content_info`: its `econtent_type`, and `econtent` decoded as an
/// `OctetStringRef`.
#[verifier::external_body]
fn read_encapsulated(blob: &[u8]) -> (r: Option<(Vec<u8>, Option<Vec<u8>>)>)
    ensures
        match encapsulated(blob@) {
            Some(v) => r matches Some(x) && x.0@ == v.0 && match v.1 {
                Some(o) => x.1 matches Some(p) && p@ == o,
                None => x.1 is None,
            },
            None => r is None,
        },
{
    let info = cms::content_info::ContentInfo::from_der(blob).ok()?;
    let data = info.content.decode_as::<cms::signed_data::SignedData>().ok()?;
    let c = &data.encap_content_info;
    let octets = match &c.econtent {
        Some(any) => any.decode_as::<der::asn1::OctetStringRef>().ok().map(|o| o.as_bytes().to_vec()),
        None => None,
    };
    Some((c.econtent_type.as_bytes().to_vec(), octets))
}

/// The first signer's `sid`, one arm per `SignerIdentifier` variant.
#[verifier::external_body]
fn read_signer_identity(blob: &[u8]) -> (r: Option<(bool, Vec<u8>, Vec<u8>)>)
    ensures
        match signer_identity(blob@) {
            Some(v) => r matches Some(x) && x.0 == v.0 && x.1@ == v.1 && x.2@ == v.2,
            None => r is None,
        },
{
    let info = cms::content_info::ContentInfo::from_der(blob).ok()?;
    let data = info.content.decode_as::<cms::signed_data::SignedData>().ok()?;
    match &data.signer_infos.0.as_ref().first()?.sid {
        cms::signed_data::SignerIdentifier::IssuerAndSerialNumber(n) => Some((true, n.issuer.to_der().ok()?, n.serial_number.as_bytes().to_vec())),
        cms::signed_data::SignerIdentifier::SubjectKeyIdentifier(k) => Some((false, k.0.as_bytes().to_vec(), Vec::new())),
    }
}

/// `certificates`: each entry, one arm per `CertificateChoices` kind: a
/// `Certificate` written back with `Encode::to_der`, any other kind `None`.
#[verifier::external_body]
fn read_certificates(blob: &[u8]) -> (r: Option<Vec<Option<Vec<u8>>>>)
    ensures
        match carried_certificates(blob@) {
            Some(v) => r matches Some(x) && optional_strings(x@) == v,
            None => r is None,
        },
{
    let info = cms::content_info::ContentInfo::from_der(blob).ok()?;
    let data = info.content.decode_as::<cms::signed_data::SignedData>().ok()?;
    let Some(set) = &data.certificates else { return Some(Vec::new()) };
    Some(set.0.iter().map(|c| match c { cms::cert::CertificateChoices::Certificate(c) => c.to_der().ok(), _ => None }).collect())
}

/// The certificates among the entries of a certificate set.
fn present_certificates(entries: &Vec<Option<Vec<u8>>>) -> (r: Vec<Vec<u8>>)
    ensures
        byte_strings(r@) == present(optional_strings(entries@)),
{
    let ghost v = optional_strings(entries@);
    let mut out: Vec<Vec<u8>> = Vec::new();
    let mut i: usize = 0;
    while i < entries.len()
        invariant
            i <= entries@.len(),
            v == optional_strings(entries@),
            byte_strings(out@) == present(v.subrange(0, i as int)),
        decreases entries.len() - i,
    {
        proof {
            assert(v.subrange(0, i + 1).drop_last() =~= v.subrange(0, i as int));
            assert(v[i as int] == match entries@[i as int] { Some(b) => Some(b@), None => None });
        }
        let ghost before = out@;
        match &entries[i] {
            Some(b) => {
                out.push(b.clone());
                proof {
                    assert(byte_strings(out@) =~= byte_strings(before).push(b@));
                }
            },
            None => {},
        }
        proof {
            assert(byte_strings(out@) =~= present(v.subrange(0, i + 1)));
        }
        i = i + 1;
    }
    proof {
        assert(v.subrange(0, i as int) =~= v);
    }
    out
}

/// `x509_cert::Certificate::from_der`, then the fields of its
/// `tbs_certificate` that the check reads.
#[verifier::external_body]
pub(crate) fn read_certificate(der: &[u8]) -> (r: Option<(Vec<u8>, Vec<u8>, String, Vec<u8>, String, Option<Vec<u8>>)>)
    ensures
        match certificate_facts(der@) {
            Some(v) => r matches Some(x) && x.0@ == v.0 && x.1@ == v.1 && x.2@ == v.2 && x.3@ == v.3
                && x.4@ == v.4 && match v.5 {
                    Some(k) => x.5 matches Some(y) && y@ == k,
                    None => x.5 is None,
                },
            None => r is None,
        },
{
    let c = x509_cert::Certificate::from_der(der).ok()?;
    let (t, oid) = (&c.tbs_certificate, &c.tbs_certificate.subject_public_key_info.algorithm.oid);
    let key = t.subject_public_key_info.to_der().ok();
    let serial = t.serial_number.as_bytes().to_vec();
    Some((t.issuer.to_der().ok()?, serial, t.subject.to_string(), oid.as_bytes().to_vec(), oid.to_string(), key))
}

/// `x509_cert::Certificate::from_der`, then each extension's `extn_id` and
/// `extn_value`.
#[verifier::external_body]
fn read_extensions(der: &[u8]) -> (r: Option<Vec<(Vec<u8>, Vec<u8>)>>)
    ensures
        match certificate_extensions(der@) {
            Some(v) => r matches Some(x) && extension_values(x@) == v,
            None => r is None,
        },
{
    let c = x509_cert::Certificate::from_der(der).ok()?;
    let all = c.tbs_certificate.extensions.iter().flatten();
    Some(all.map(|e| (e.extn_id.as_bytes().to_vec(), e.extn_value.as_bytes().to_vec())).collect())
}

/// `SubjectKeyIdentifier::from_der`: the identifier an extension value holds.
#[verifier::external_body]
fn read_key_identifier(value: &[u8]) -> (r: Option<Vec<u8>>)
    ensures
        match key_identifier(value@) {
            Some(v) => r matches Some(x) && x@ == v,
            None => r is None,
        },
{
    x509_cert::ext::pkix::SubjectKeyIdentifier::from_der(value).ok().map(|k| k.0.as_bytes().to_vec())
}

/// `der::asn1::AnyRef::from_der` of a `TSTInfo`, asserted a `SEQUENCE`, then its first
/// three fields read as `AnyRef`, the third asserted a `SEQUENCE`: its content.
#[verifier::external_body]
fn read_imprint_sequence(tst_info: &[u8]) -> (r: Option<Vec<u8>>)
    ensures
        match imprint_sequence(tst_info@) {
            Some(v) => r matches Some(x) && x@ == v,
            None => r is None,
        },
{
    let whole = der::asn1::AnyRef::from_der(tst_info).ok()?;
    whole.tag().assert_eq(der::Tag::Sequence).ok()?;
    let mut fields = der::SliceReader::new(whole.value()).ok()?;
    let (_version, _policy): (der::asn1::AnyRef, der::asn1::AnyRef) = (fields.decode().ok()?, fields.decode().ok()?);
    let imprint: der::asn1::AnyRef = fields.decode().ok()?;
    imprint.tag().assert_eq(der::Tag::Sequence).ok()?;
    Some(imprint.value().to_vec())
}

/// A `messageImprint`'s content read as an `AlgorithmIdentifierOwned` and an
/// `OctetStringRef`.
#[verifier::external_body]
fn read_imprint_fields(content: &[u8]) -> (r: Option<(Vec<u8>, String, Vec<u8>)>)
    ensures
        match imprint_fields(content@) {
            Some(v) => r matches Some(x) && x.0@ == v.0 && x.1@ == v.1 && x.2@ == v.2,
            None => r is None,
        },
{
    let mut inner = der::SliceReader::new(content).ok()?;
    let algorithm: spki::AlgorithmIdentifierOwned = inner.decode().ok()?;
    let hashed: der::asn1::OctetStringRef = inner.decode().ok()?;
    Some((algorithm.oid.as_bytes().to_vec(), algorithm.oid.to_string(), hashed.as_bytes().to_vec()))
}

/// `RsaPublicKey::from_public_key_der`, then `RsaPublicKey::verify` under
/// `Pkcs1v15Sign` (schemes 0, 1, 2: SHA-256, -384, -512) or `Pss` (3, 4, 5,
/// likewise) over a digest already taken. Whether it verifies depends on the
/// key, the scheme, the digest and the signature alone.
#[verifier::external_body]
fn rsa_check(key: &[u8], scheme: u8, digest: &[u8], signature: &[u8]) -> (r: Option<bool>)
    requires
        scheme < 6,
    ensures
        r == rsa_verifies(key@, scheme, digest@, signature@),
{
    let key = rsa::RsaPublicKey::from_public_key_der(key).ok()?;
    let outcome = match scheme {
        0 => key.verify(rsa::Pkcs1v15Sign::new::<sha2::Sha256>(), digest, signature),
        1 => key.verify(rsa::Pkcs1v15Sign::new::<sha2::Sha384>(), digest, signature),
        2 => key.verify(rsa::Pkcs1v15Sign::new::<sha2::Sha512>(), digest, signature),
        3 => key.verify(rsa::Pss::new::<sha2::Sha256>(), digest, signature),
        4 => key.verify(rsa::Pss::new::<sha2::Sha384>(), digest, signature),
        _ => key.verify(rsa::Pss::new::<sha2::Sha512>(), digest, signature),
    };
    Some(outcome.is_ok())
}


// ---------------------------------------------------------------------------
// The identifiers the check knows, as their encoded bytes.

/// `2.16.840.1.101.3.4.2.n`: SHA-256 (1), SHA-384 (2), SHA-512 (3).
pub open spec fn nist_hash(n: u8) -> Seq<u8> { seq![96u8, 134u8, 72u8, 1u8, 101u8, 3u8, 4u8, 2u8, n] }

/// `1.2.840.113549.1.1.n`: `rsaEncryption` (1), RSASSA-PSS (10), and RSA with
/// SHA-256 (11), SHA-384 (12), SHA-512 (13).
pub open spec fn pkcs1(n: u8) -> Seq<u8> { seq![42u8, 134u8, 72u8, 134u8, 247u8, 13u8, 1u8, 1u8, n] }

/// `1.2.840.113549.1.9.4`: the `messageDigest` attribute.
pub open spec fn message_digest_id() -> Seq<u8> { seq![42u8, 134u8, 72u8, 134u8, 247u8, 13u8, 1u8, 9u8, 4u8] }

/// `1.2.840.113549.1.9.16.1.4`: `id-ct-TSTInfo`, the content of a timestamp token.
pub open spec fn tst_info_id() -> Seq<u8> { seq![42u8, 134u8, 72u8, 134u8, 247u8, 13u8, 1u8, 9u8, 16u8, 1u8, 4u8] }

/// `2.5.29.14`: the subject key identifier extension.
pub open spec fn key_identifier_id() -> Seq<u8> { seq![85u8, 29u8, 14u8] }

fn nist_hash_bytes(n: u8) -> (r: Vec<u8>)
    ensures
        r@ == nist_hash(n),
{
    let r = vec![96u8, 134u8, 72u8, 1u8, 101u8, 3u8, 4u8, 2u8, n];
    assert(r@ =~= nist_hash(n));
    r
}

fn pkcs1_bytes(n: u8) -> (r: Vec<u8>)
    ensures
        r@ == pkcs1(n),
{
    let r = vec![42u8, 134u8, 72u8, 134u8, 247u8, 13u8, 1u8, 1u8, n];
    assert(r@ =~= pkcs1(n));
    r
}

fn message_digest_bytes() -> (r: Vec<u8>)
    ensures
        r@ == message_digest_id(),
{
    let r = vec![42u8, 134u8, 72u8, 134u8, 247u8, 13u8, 1u8, 9u8, 4u8];
    assert(r@ =~= message_digest_id());
    r
}

fn tst_info_bytes() -> (r: Vec<u8>)
    ensures
        r@ == tst_info_id(),
{
    let r = vec![42u8, 134u8, 72u8, 134u8, 247u8, 13u8, 1u8, 9u8, 16u8, 1u8, 4u8];
    assert(r@ =~= tst_info_id());
    r
}

fn key_identifier_bytes() -> (r: Vec<u8>)
    ensures
        r@ == key_identifier_id(),
{
    let r = vec![85u8, 29u8, 14u8];
    assert(r@ =~= key_identifier_id());
    r
}

// ---------------------------------------------------------------------------
// What the parts come to.

/// The hash an algorithm identifier names, among those checked.
pub open spec fn digest_named(oid: Seq<u8>) -> Option<DigestKind> {
    if oid == nist_hash(1) {
        Some(DigestKind::Sha256)
    } else if oid == nist_hash(2) {
        Some(DigestKind::Sha384)
    } else if oid == nist_hash(3) {
        Some(DigestKind::Sha512)
    } else {
        None
    }
}

/// The hash an algorithm identifier names, among those checked.
pub fn digest_kind(oid: &[u8]) -> (r: Option<DigestKind>)
    ensures
        r == digest_named(oid@),
{
    if same_bytes(oid, nist_hash_bytes(1).as_slice()) {
        Some(DigestKind::Sha256)
    } else if same_bytes(oid, nist_hash_bytes(2).as_slice()) {
        Some(DigestKind::Sha384)
    } else if same_bytes(oid, nist_hash_bytes(3).as_slice()) {
        Some(DigestKind::Sha512)
    } else {
        None
    }
}

/// A hash's place among the three: 0, 1, 2.
pub open spec fn hash_code(h: DigestKind) -> u8 {
    match h {
        DigestKind::Sha256 => 0,
        DigestKind::Sha384 => 1,
        DigestKind::Sha512 => 2,
    }
}

/// The hash a scheme digests with.
pub open spec fn scheme_hash(scheme: u8) -> DigestKind {
    if scheme % 3 == 0 {
        DigestKind::Sha256
    } else if scheme % 3 == 1 {
        DigestKind::Sha384
    } else {
        DigestKind::Sha512
    }
}

/// The scheme a signature algorithm names, given the signer's digest
/// algorithm: PKCS#1 v1.5 (0 to 2) or PSS (3 to 5), by hash.
pub open spec fn scheme_named(oid: Seq<u8>, hash: DigestKind) -> Option<u8> {
    if oid == pkcs1(1) {
        Some(hash_code(hash))
    } else if oid == pkcs1(11) {
        Some(0u8)
    } else if oid == pkcs1(12) {
        Some(1u8)
    } else if oid == pkcs1(13) {
        Some(2u8)
    } else if oid == pkcs1(10) {
        Some((3 + hash_code(hash)) as u8)
    } else {
        None
    }
}

/// The signature scheme a signature algorithm names, given the signer's
/// digest algorithm.
pub fn scheme_for(oid: &[u8], hash: DigestKind) -> (r: Option<u8>)
    ensures
        r == scheme_named(oid@, hash),
        r matches Some(s) ==> s < 6 && scheme_hash(s) == (if oid@ == pkcs1(1) || oid@ == pkcs1(10) { hash } else { scheme_hash(s) }),
{
    let code: u8 = match hash {
        DigestKind::Sha256 => 0,
        DigestKind::Sha384 => 1,
        DigestKind::Sha512 => 2,
    };
    if same_bytes(oid, pkcs1_bytes(1).as_slice()) {
        Some(code)
    } else if same_bytes(oid, pkcs1_bytes(11).as_slice()) {
        Some(0)
    } else if same_bytes(oid, pkcs1_bytes(12).as_slice()) {
        Some(1)
    } else if same_bytes(oid, pkcs1_bytes(13).as_slice()) {
        Some(2)
    } else if same_bytes(oid, pkcs1_bytes(10).as_slice()) {
        Some(3 + code)
    } else {
        None
    }
}

/// The digest the signer committed to: the first value of the first
/// `messageDigest` attribute from `i` on.
pub open spec fn committed_digest(attrs: Seq<(Seq<u8>, Option<Seq<u8>>)>, i: int) -> Option<Seq<u8>>
    decreases attrs.len() - i,
{
    if i < 0 || i >= attrs.len() {
        None
    } else if attrs[i].0 == message_digest_id() {
        attrs[i].1
    } else {
        committed_digest(attrs, i + 1)
    }
}

fn find_committed(attrs: &Vec<(Vec<u8>, Option<Vec<u8>>)>) -> (r: Option<Vec<u8>>)
    ensures
        match committed_digest(attribute_values(attrs@), 0) {
            Some(d) => r matches Some(x) && x@ == d,
            None => r is None,
        },
{
    let id = message_digest_bytes();
    let ghost v = attribute_values(attrs@);
    let mut i: usize = 0;
    while i < attrs.len()
        invariant
            i <= attrs@.len(),
            v == attribute_values(attrs@),
            id@ == message_digest_id(),
            committed_digest(v, i as int) == committed_digest(v, 0),
        decreases attrs.len() - i,
    {
        proof {
            assert(v[i as int] == (attrs@[i as int].0@, match attrs@[i as int].1 { Some(x) => Some(x@), None => None }));
        }
        if same_bytes(attrs[i].0.as_slice(), id.as_slice()) {
            return match &attrs[i].1 {
                Some(x) => Some(x.clone()),
                None => None,
            };
        }
        i = i + 1;
    }
    None
}

/// `text` inside a sentence: `before`, the text, `after`.
fn sentence(before: &str, text: &String, after: &str) -> (r: String)
    ensures
        r@ == before@ + text@ + after@,
{
    let mut m = String::from_str(before);
    m.append(text.as_str());
    m.append(after);
    m
}

/// What a timestamp token's content commits to: its imprint's hash and
/// value, and the `TSTInfo`; nothing for a signature that is not a token; or
/// why it cannot be read.
pub open spec fn token_of(blob: Seq<u8>) -> Result<Option<(DigestKind, Seq<u8>, Seq<u8>)>, Seq<char>> {
    match encapsulated(blob) {
        Some((kind, octets)) => if kind != tst_info_id() {
            Ok(None)
        } else {
            match octets {
                None => Err("its token carries no TSTInfo"@),
                Some(tst) => match imprint_sequence(tst) {
                    None => Err("its token's message imprint cannot be read"@),
                    Some(content) => match imprint_fields(content) {
                        None => Err("its token's message imprint cannot be read"@),
                        Some((alg, text, imprint)) => match digest_named(alg) {
                            None => Err("its token's imprint uses "@ + text + ", which this does not implement"@),
                            Some(h) => Ok(Some((h, imprint, tst))),
                        },
                    },
                },
            }
        },
        None => Ok(None),
    }
}

/// What the signer committed to: its hash, the digest, and the token for a
/// timestamp; or why the blob cannot be read that far.
pub open spec fn commitment_of(blob: Seq<u8>) -> Result<(DigestKind, Seq<u8>, Option<(DigestKind, Seq<u8>, Seq<u8>)>), Seq<char>> {
    match signer_layer(blob) {
        Err(code) => Err(if code == 0 {
            "its signature is not a CMS structure"@
        } else if code == 1 {
            "its signature is not SignedData"@
        } else {
            "its signature names no signer"@
        }),
        Ok(layer) => match signed_attributes(blob) {
            None => Err("its signer committed to no attributes"@),
            Some(attributes) => match digest_named(layer.0) {
                None => Err("its digest uses "@ + layer.1 + ", which this does not implement"@),
                Some(h) => match committed_digest(attributes.1, 0) {
                    None => Err("its signer committed to no digest"@),
                    Some(c) => match token_of(blob) {
                        Err(w) => Err(w),
                        Ok(t) => Ok((h, c, t)),
                    },
                },
            },
        },
    }
}

/// Whether the certificate with these facts is the one the signer names.
pub open spec fn named_by(id: Option<(bool, Seq<u8>, Seq<u8>)>, issuer: Seq<u8>, serial: Seq<u8>, der: Seq<u8>) -> bool {
    match id {
        None => false,
        Some((by_issuer, a, b)) => if by_issuer {
            a == issuer && b == serial
        } else {
            certificate_extensions(der) matches Some(e) && exists|i: int| 0 <= i < e.len()
                && e[i].0 == key_identifier_id() && #[trigger] key_identifier(e[i].1) == Some(a)
        },
    }
}

/// One carried certificate checked: whether it is the named one, its
/// subject, and whether its key made the signature, or why it cannot be used.
pub open spec fn checked_certificate(id: Option<(bool, Seq<u8>, Seq<u8>)>, der: Seq<u8>, scheme: u8,
    message: Seq<u8>, signature: Seq<u8>) -> (bool, Seq<char>, Result<bool, Seq<char>>)
{
    match certificate_facts(der) {
        None => (false, Seq::empty(), Err("its certificate cannot be read"@)),
        Some((issuer, serial, subject, key, key_text, info)) => (
            named_by(id, issuer, serial, der),
            subject,
            if key != pkcs1(1) {
                Err("its certificate's key is "@ + key_text + ", which this does not check"@)
            } else {
                match info {
                    None => Err("its certificate's key cannot be read"@),
                    Some(k) => match rsa_verifies(k, scheme, hashed(scheme_hash(scheme), message), signature) {
                        None => Err("its certificate's key cannot be read"@),
                        Some(b) => Ok(b),
                    },
                }
            },
        ),
    }
}

/// Every carried certificate checked against the signature, or why none can
/// be, for a signer whose digest algorithm names `hash`.
pub open spec fn certificates_of(blob: Seq<u8>, hash: DigestKind) -> Result<Seq<(bool, Seq<char>, Result<bool, Seq<char>>)>, Seq<char>> {
    let list = match carried_certificates(blob) { Some(l) => present(l), None => Seq::empty() };
    let layer = signer_layer(blob)->Ok_0;
    if list.len() == 0 {
        Err("it carries no certificate to check against"@)
    } else {
        match signed_attributes(blob)->Some_0.0 {
            None => Err("its signed attributes cannot be re-encoded"@),
            Some(message) => match scheme_named(layer.2, hash) {
                None => Err("its signature scheme is "@ + layer.3 + ", which this does not check"@),
                Some(scheme) => Ok(list.map_values(|der: Seq<u8>|
                    checked_certificate(signer_identity(blob), der, scheme, message, layer.4))),
            },
        }
    }
}

/// Whether a certificate check reports what the model says.
pub open spec fn check_is(c: CertificateCheck, m: (bool, Seq<char>, Result<bool, Seq<char>>)) -> bool {
    &&& c.named == m.0
    &&& c.subject@ == m.1
    &&& match m.2 {
        Ok(b) => c.verifies == Ok::<bool, String>(b),
        Err(w) => c.verifies matches Err(s) && s@ == w,
    }
}

/// Whether a reading of `blob` is what its parts come to.
pub open spec fn read_as(blob: Seq<u8>, r: Result<CmsReading, Verdict>) -> bool {
    match commitment_of(blob) {
        Err(w) => r matches Err(Verdict::Unreadable(m)) && m@ == w,
        Ok((h, c, t)) => r matches Ok(reading) && {
            &&& reading.commitment.hash == h
            &&& reading.commitment.committed@ == c
            &&& match t {
                None => reading.commitment.token is None,
                Some((th, imprint, tst)) => reading.commitment.token matches Some(k)
                    && k.hash == th && k.imprint@ == imprint && k.tst_info@ == tst,
            }
            &&& match certificates_of(blob, h) {
                Err(w) => reading.certificates matches Err(Verdict::Unreadable(m)) && m@ == w,
                Ok(list) => reading.certificates matches Ok(v) && v@.len() == list.len()
                    && forall|i: int| 0 <= i < list.len() ==> check_is(#[trigger] v@[i], list[i]),
            }
        },
    }
}

fn unreadable(why: &str) -> (r: Verdict)
    ensures
        r matches Verdict::Unreadable(m) && m@ == why@,
{
    Verdict::Unreadable(String::from_str(why))
}

/// Read what a timestamp token commits to, if the blob is one.
fn read_token(blob: &[u8]) -> (r: Result<Option<Token>, Verdict>)
    ensures
        match token_of(blob@) {
            Err(w) => r matches Err(Verdict::Unreadable(m)) && m@ == w,
            Ok(None) => r matches Ok(None),
            Ok(Some((h, imprint, tst))) => r matches Ok(Some(k)) && k.hash == h && k.imprint@ == imprint
                && k.tst_info@ == tst,
        },
{
    let (kind, octets) = match read_encapsulated(blob) {
        Some(e) => e,
        None => { return Ok(None); },
    };
    if !same_bytes(kind.as_slice(), tst_info_bytes().as_slice()) {
        return Ok(None);
    }
    let tst = match octets {
        Some(t) => t,
        None => { return Err(unreadable("its token carries no TSTInfo")); },
    };
    let content = match read_imprint_sequence(tst.as_slice()) {
        Some(c) => c,
        None => { return Err(unreadable("its token's message imprint cannot be read")); },
    };
    let (alg, text, imprint) = match read_imprint_fields(content.as_slice()) {
        Some(f) => f,
        None => { return Err(unreadable("its token's message imprint cannot be read")); },
    };
    match digest_kind(alg.as_slice()) {
        Some(hash) => Ok(Some(Token { hash, imprint, tst_info: tst })),
        None => Err(Verdict::Unreadable(sentence("its token's imprint uses ", &text,
            ", which this does not implement"))),
    }
}

/// Whether a certificate carries a subject key identifier extension holding `id`.
fn carries_key_id(der: &[u8], id: &Vec<u8>) -> (r: bool)
    ensures
        r == (certificate_extensions(der@) matches Some(e) && exists|i: int| 0 <= i < e.len()
            && e[i].0 == key_identifier_id() && #[trigger] key_identifier(e[i].1) == Some(id@)),
{
    let extensions = match read_extensions(der) {
        Some(e) => e,
        None => { return false; },
    };
    let ghost e = extension_values(extensions@);
    let ski = key_identifier_bytes();
    let mut i: usize = 0;
    while i < extensions.len()
        invariant
            i <= extensions@.len(),
            e == extension_values(extensions@),
            certificate_extensions(der@) == Some(e),
            ski@ == key_identifier_id(),
            forall|j: int| 0 <= j < i ==> !(e[j].0 == key_identifier_id() && #[trigger] key_identifier(e[j].1) == Some(id@)),
        decreases extensions.len() - i,
    {
        proof {
            assert(e[i as int] == (extensions@[i as int].0@, extensions@[i as int].1@));
        }
        if same_bytes(extensions[i].0.as_slice(), ski.as_slice()) {
            match read_key_identifier(extensions[i].1.as_slice()) {
                Some(found) => {
                    if same_bytes(found.as_slice(), id.as_slice()) {
                        proof {
                            assert(e.len() == extensions@.len());
                            assert(e[i as int].0 == key_identifier_id());
                            assert(key_identifier(e[i as int].1) == Some(id@));
                        }
                        return true;
                    }
                },
                None => {},
            }
        }
        i = i + 1;
    }
    false
}

/// Check one carried certificate against the signature.
fn check_certificate(id: &Option<(bool, Vec<u8>, Vec<u8>)>, der: &[u8], scheme: u8, message: &[u8],
    signature: &[u8]) -> (r: CertificateCheck)
    requires
        scheme < 6,
    ensures
        check_is(r, checked_certificate(
            match id { Some(x) => Some((x.0, x.1@, x.2@)), None => None }, der@, scheme, message@, signature@)),
{
    let ghost model_id = match id { Some(x) => Some((x.0, x.1@, x.2@)), None => None };
    let (issuer, serial, subject, key, key_text, info) = match read_certificate(der) {
        Some(f) => f,
        None => {
            return CertificateCheck { named: false, subject: String::new(),
                verifies: Err(String::from_str("its certificate cannot be read")) };
        },
    };
    let named = match id {
        None => false,
        Some((by_issuer, a, b)) => if *by_issuer {
            same_bytes(a.as_slice(), issuer.as_slice()) && same_bytes(b.as_slice(), serial.as_slice())
        } else {
            carries_key_id(der, a)
        },
    };
    proof {
        assert(named == named_by(model_id, issuer@, serial@, der@));
    }
    let verifies = if !same_bytes(key.as_slice(), pkcs1_bytes(1).as_slice()) {
        Err(sentence("its certificate's key is ", &key_text, ", which this does not check"))
    } else {
        match info {
            None => Err(String::from_str("its certificate's key cannot be read")),
            Some(k) => {
                let hash = if scheme % 3 == 0 {
                    DigestKind::Sha256
                } else if scheme % 3 == 1 {
                    DigestKind::Sha384
                } else {
                    DigestKind::Sha512
                };
                let digest = hash.over(message, &[]);
                proof {
                    assert(message@ + Seq::<u8>::empty() =~= message@);
                }
                match rsa_check(k.as_slice(), scheme, digest.as_slice(), signature) {
                    None => Err(String::from_str("its certificate's key cannot be read")),
                    Some(b) => Ok(b),
                }
            },
        }
    };
    CertificateCheck { named, subject, verifies }
}

/// Check every carried certificate against the signature, or say why none
/// can be.
fn read_certificates_checked(blob: &[u8], hash: DigestKind, layer: &(Vec<u8>, String, Vec<u8>, String, Vec<u8>),
    attributes: &(Option<Vec<u8>>, Vec<(Vec<u8>, Option<Vec<u8>>)>)) -> (r: core::result::Result<Vec<CertificateCheck>, Verdict>)
    requires
        signer_layer(blob@) matches Ok(v) && layer.0@ == v.0 && layer.1@ == v.1 && layer.2@ == v.2
            && layer.3@ == v.3 && layer.4@ == v.4,
        signed_attributes(blob@) matches Some(v) && match v.0 {
            Some(d) => attributes.0 matches Some(e) && e@ == d,
            None => attributes.0 is None,
        },
    ensures
        match certificates_of(blob@, hash) {
            Err(w) => r matches Err(Verdict::Unreadable(m)) && m@ == w,
            Ok(list) => r matches Ok(v) && v@.len() == list.len()
                && forall|i: int| 0 <= i < list.len() ==> check_is(#[trigger] v@[i], list[i]),
        },
{
    let list = match read_certificates(blob) {
        Some(l) => present_certificates(&l),
        None => Vec::new(),
    };
    let ghost model = match carried_certificates(blob@) { Some(l) => present(l), None => Seq::<Seq<u8>>::empty() };
    proof {
        assert(byte_strings(list@) == model);
    }
    if list.len() == 0 {
        return Err(unreadable("it carries no certificate to check against"));
    }
    let message = match &attributes.0 {
        Some(m) => m,
        None => { return Err(unreadable("its signed attributes cannot be re-encoded")); },
    };
    let scheme = match scheme_for(layer.2.as_slice(), hash) {
        Some(s) => s,
        None => {
            return Err(Verdict::Unreadable(sentence("its signature scheme is ", &layer.3, ", which this does not check")));
        },
    };
    let id = read_signer_identity(blob);
    let ghost model_id = match &id { Some(x) => Some((x.0, x.1@, x.2@)), None => None };
    proof {
        assert(model_id == signer_identity(blob@));
    }
    let ghost expected = model.map_values(|der: Seq<u8>|
        checked_certificate(signer_identity(blob@), der, scheme, message@, layer.4@));
    let mut out: Vec<CertificateCheck> = Vec::new();
    let mut i: usize = 0;
    while i < list.len()
        invariant
            i <= list@.len(),
            scheme < 6,
            model == byte_strings(list@),
            model_id == signer_identity(blob@),
            model_id == match &id { Some(x) => Some((x.0, x.1@, x.2@)), None => None },
            expected == model.map_values(|der: Seq<u8>|
                checked_certificate(signer_identity(blob@), der, scheme, message@, layer.4@)),
            out@.len() == i,
            forall|j: int| 0 <= j < i ==> check_is(#[trigger] out@[j], expected[j]),
        decreases list.len() - i,
    {
        let c = check_certificate(&id, list[i].as_slice(), scheme, message.as_slice(), layer.4.as_slice());
        proof {
            assert(model.len() == list@.len());
            assert(model[i as int] == list@[i as int]@);
            assert(expected[i as int] == checked_certificate(signer_identity(blob@), list@[i as int]@, scheme,
                message@, layer.4@));
        }
        let ghost before = out@;
        let ghost cc = c;
        proof {
            assert(check_is(cc, expected[i as int]));
        }
        out.push(c);
        proof {
            assert forall|j: int| 0 <= j < out@.len() implies check_is(#[trigger] out@[j], expected[j]) by {
                if j < i { assert(out@[j] == before[j]); } else { assert(out@[j] == cc); }
            }
        }
        i = i + 1;
    }
    Ok(out)
}

/// Take a signature's CMS structure apart: what its signer committed to, and
/// each carried certificate's key tried against the signature — or why the
/// structure cannot be read that far.
pub fn read_cms(blob: &[u8]) -> (r: core::result::Result<CmsReading, Verdict>)
    ensures
        read_as(blob@, r),
{
    let layer = match read_signer(blob) {
        Ok(l) => l,
        Err(code) => {
            return Err(if code == 0 {
                unreadable("its signature is not a CMS structure")
            } else if code == 1 {
                unreadable("its signature is not SignedData")
            } else {
                unreadable("its signature names no signer")
            });
        },
    };
    let attributes = match read_attributes(blob) {
        Some(a) => a,
        None => { return Err(unreadable("its signer committed to no attributes")); },
    };
    let hash = match digest_kind(layer.0.as_slice()) {
        Some(h) => h,
        None => {
            return Err(Verdict::Unreadable(sentence("its digest uses ", &layer.1, ", which this does not implement")));
        },
    };
    let committed = match find_committed(&attributes.1) {
        Some(c) => c,
        None => { return Err(unreadable("its signer committed to no digest")); },
    };
    let token = match read_token(blob) {
        Ok(t) => t,
        Err(v) => { return Err(v); },
    };
    let certificates = read_certificates_checked(blob, hash, &layer, &attributes);
    Ok(CmsReading { commitment: Commitment { hash, committed, token }, certificates })
}

} // verus!
