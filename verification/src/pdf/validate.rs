//! Checking the signatures a document already carries: what a check can
//! conclude, and how each conclusion is said.
//!
//! A verdict says whether the file has changed since it was signed and whether
//! the key in the certificate the signature carries made it. It does **not**
//! say whether the signer is who they claim to be; every verdict keeps that
//! distinction. Anything that cannot be checked is *unreadable*, never
//! unaltered: the green tick is only ever earned.

use vstd::prelude::*;
use crate::error::Result;
use crate::pdf::hashing::{sha256, sha256_of, sha384, sha384_of, sha512, sha512_of};
use crate::pdf::object::{lookup, utf8_lossy, Dict, Object, Value};
use crate::pdf::reader::{object_at, File};
use crate::pdf::strings::{from_hex, hex_decoded};
use crate::text::{decimal, occurs, push_decimal};

verus! {

/// What became of one signature.
#[derive(Debug, Clone, PartialEq, Eq)]
pub enum Verdict {
    /// The bytes are as they were signed, and the signature verifies under
    /// the certificate it carries.
    ///
    /// **Says nothing about whether that certificate is to be trusted.**
    Unaltered,
    /// The digest does not match: the document changed after it was signed.
    Altered,
    /// The digest matches but the signature does not verify under the
    /// certificate it carries.
    Invalid(String),
    /// The signature covers only part of the file. Whatever is outside the
    /// range was never signed, and may have been added afterwards.
    Incomplete { covered: usize, total: usize },
    /// It could not be checked. **Not the same as invalid**, and never
    /// reported as though it were.
    Unreadable(String),
}

/// What each verdict says, in words.
pub open spec fn verdict_text(v: Verdict) -> Seq<char> {
    match v {
        Verdict::Unaltered => "unchanged since it was signed, and the signature is the certificate's (whether to trust that certificate is not checked)"@,
        Verdict::Altered => "CHANGED since it was signed"@,
        Verdict::Invalid(why) => "NOT VALID — "@ + why@,
        Verdict::Incomplete { covered, total } => "covers only "@ + decimal(covered as nat) + " of "@
            + decimal(total as nat) + " bytes — the rest was never signed"@,
        Verdict::Unreadable(why) => "could not be checked: "@ + why@,
    }
}

impl Verdict {
    pub fn describe(&self) -> (r: String)
        ensures
            r@ == verdict_text(*self),
    {
        match self {
            Verdict::Unaltered => String::from_str(
                "unchanged since it was signed, and the signature is the certificate's (whether to trust that certificate is not checked)"),
            Verdict::Altered => String::from_str("CHANGED since it was signed"),
            Verdict::Invalid(why) => {
                let mut m = String::from_str("NOT VALID — ");
                m.append(why.as_str());
                m
            },
            Verdict::Incomplete { covered, total } => {
                let mut m = String::from_str("covers only ");
                push_decimal(&mut m, *covered as u64);
                m.append(" of ");
                push_decimal(&mut m, *total as u64);
                m.append(" bytes — the rest was never signed");
                m
            },
            Verdict::Unreadable(why) => {
                let mut m = String::from_str("could not be checked: ");
                m.append(why.as_str());
                m
            },
        }
    }
}

/// One signature found in a document.
#[derive(Debug, Clone, PartialEq, Eq)]
pub struct Signature {
    /// What the dictionary says the signer is called, if anything.
    ///
    /// **A label, not a finding.** It is plain text in the file, written by
    /// whoever wrote the file. The name that means something is `signer`.
    pub name: String,
    /// When it says it was made.
    pub when: String,
    /// Whether it is a signature or a document timestamp.
    pub timestamp: bool,
    pub verdict: Verdict,
    /// The subject of the certificate the signature verified under — only
    /// when it did.
    pub signer: Option<String>,
}


// ---------------------------------------------------------------------------
// Checking one signature.

/// What was learned about one signature.
#[derive(Debug, Clone, PartialEq, Eq)]
pub struct Checked {
    pub verdict: Verdict,
    /// Set only when the signature verified: the subject of the certificate
    /// whose key made it.
    pub signer: Option<String>,
}

/// The hashes this checks with. Anything else is reported as unreadable,
/// never guessed at.
#[derive(Debug, Clone, Copy, PartialEq, Eq, Structural)]
pub enum DigestKind {
    Sha256,
    Sha384,
    Sha512,
}

/// The digest of some bytes under a hash.
pub open spec fn hashed(h: DigestKind, data: Seq<u8>) -> Seq<u8> {
    match h {
        DigestKind::Sha256 => sha256(data),
        DigestKind::Sha384 => sha384(data),
        DigestKind::Sha512 => sha512(data),
    }
}

impl DigestKind {
    /// The digest over two stretches of bytes taken as one.
    pub fn over(self, first: &[u8], second: &[u8]) -> (r: Vec<u8>)
        ensures
            r@ == hashed(self, first@ + second@),
    {
        let mut all = vstd::slice::slice_to_vec(first);
        crate::text::extend(&mut all, second);
        match self {
            DigestKind::Sha256 => sha256_of(all.as_slice()),
            DigestKind::Sha384 => sha384_of(all.as_slice()),
            DigestKind::Sha512 => sha512_of(all.as_slice()),
        }
    }
}

/// What a timestamp token's `TSTInfo` names: its hash and imprint, and the
/// `TSTInfo` itself.
#[derive(Debug, Clone, PartialEq, Eq)]
pub struct Token {
    pub hash: DigestKind,
    pub imprint: Vec<u8>,
    pub tst_info: Vec<u8>,
}

/// What a signature's CMS structure commits to, read out of it: the hash its
/// signer used, the digest the signer committed to, and, for a timestamp, the
/// token.
#[derive(Debug, Clone, PartialEq, Eq)]
pub struct Commitment {
    pub hash: DigestKind,
    pub committed: Vec<u8>,
    pub token: Option<Token>,
}

/// A verdict as a value: its kind, and its text where it has one.
pub enum Outcome {
    Unaltered,
    Altered,
    Invalid(Seq<char>),
    Incomplete(usize, usize),
    Unreadable(Seq<char>),
}

/// What a verdict says, as a value.
pub open spec fn outcome_of(v: Verdict) -> Outcome {
    match v {
        Verdict::Unaltered => Outcome::Unaltered,
        Verdict::Altered => Outcome::Altered,
        Verdict::Invalid(why) => Outcome::Invalid(why@),
        Verdict::Incomplete { covered, total } => Outcome::Incomplete(covered, total),
        Verdict::Unreadable(why) => Outcome::Unreadable(why@),
    }
}

/// Whether a `/ByteRange`'s sums fit the machine.
pub open spec fn range_fits(range: Option<[usize; 4]>) -> bool {
    match range {
        Some(n) => n@[1] + n@[3] <= usize::MAX && n@[2] + n@[3] <= usize::MAX,
        None => true,
    }
}

/// What the byte range alone settles: nothing when it names the whole file
/// but the hole, else why not.
pub open spec fn range_verdict_of(range: Option<[usize; 4]>, total: usize) -> Option<Outcome> {
    match range {
        None => Some(Outcome::Unreadable("it declares no byte range"@)),
        Some(n) => if n@[2] + n@[3] != total {
            // **The append.** Everything named is untouched and the digest
            // will match; what matters is that the file is longer than the
            // signature ever claimed.
            Some(Outcome::Incomplete((n@[1] + n@[3]) as usize, total))
        } else if n@[1] > total {
            Some(Outcome::Unreadable("its byte range runs past the file"@))
        } else {
            None
        },
    }
}

/// What the byte range alone settles.
pub fn range_verdict(range: Option<[usize; 4]>, total: usize) -> (r: Option<Verdict>)
    requires
        range_fits(range),
    ensures
        match range_verdict_of(range, total) {
            None => r is None,
            Some(o) => r matches Some(v) && outcome_of(v) == o,
        },
{
    proof {
        reveal_strlit("it declares no byte range");
        reveal_strlit("its byte range runs past the file");
    }
    let n = match range {
        None => {
            return Some(Verdict::Unreadable(String::from_str("it declares no byte range")));
        },
        Some(n) => n,
    };
    let first = n[1];
    let second_at = n[2];
    let second_len = n[3];
    let covered = first + second_len;
    let reaches = second_at + second_len;
    if reaches != total {
        return Some(Verdict::Incomplete { covered, total });
    }
    if reaches > total || first > total {
        return Some(Verdict::Unreadable(String::from_str("its byte range runs past the file")));
    }
    None
}

/// The bytes a range signs: everything before the hole and everything after.
pub open spec fn signed_bytes(bytes: Seq<u8>, n: Seq<usize>) -> Seq<u8> {
    bytes.subrange(0, n[1] as int) + bytes.subrange(n[2] as int, n[2] + n[3])
}

/// What the digests settle, once the range is whole: nothing when the signer
/// committed to the file as it is, else why not. A timestamp commits to its
/// `TSTInfo`, and it is the imprint inside that which names the file.
pub open spec fn digest_verdict_of(bytes: Seq<u8>, n: Seq<usize>, c: Commitment) -> Option<Outcome> {
    match c.token {
        Some(t) => if hashed(t.hash, signed_bytes(bytes, n)) != t.imprint@ {
            Some(Outcome::Altered)
        } else if hashed(c.hash, t.tst_info@) != c.committed@ {
            Some(Outcome::Invalid("the token's digest is not the digest of its own contents"@))
        } else {
            None
        },
        None => if hashed(c.hash, signed_bytes(bytes, n)) != c.committed@ { Some(Outcome::Altered) } else { None },
    }
}

/// What the digests settle.
pub fn digest_verdict(range: [usize; 4], bytes: &[u8], commitment: &Commitment) -> (r: Option<Verdict>)
    requires
        range@[2] + range@[3] == bytes@.len(),
        range@[1] <= bytes@.len(),
    ensures
        match digest_verdict_of(bytes@, range@, *commitment) {
            None => r is None,
            Some(o) => r matches Some(v) && outcome_of(v) == o,
        },
{
    proof {
        reveal_strlit("the token's digest is not the digest of its own contents");
    }
    let total = bytes.len();
    let before = vstd::slice::slice_subrange(bytes, 0, range[1]);
    let after = vstd::slice::slice_subrange(bytes, range[2], range[2] + range[3]);
    match &commitment.token {
        Some(token) => {
            let found = token.hash.over(before, after);
            if !crate::pdf::object::same_bytes(found.as_slice(), token.imprint.as_slice()) {
                return Some(Verdict::Altered);
            }
            let empty: Vec<u8> = Vec::new();
            let own = commitment.hash.over(token.tst_info.as_slice(), empty.as_slice());
            proof {
                assert(token.tst_info@ + empty@ =~= token.tst_info@);
            }
            if !crate::pdf::object::same_bytes(own.as_slice(), commitment.committed.as_slice()) {
                return Some(Verdict::Invalid(String::from_str(
                    "the token's digest is not the digest of its own contents")));
            }
            None
        },
        None => {
            let found = commitment.hash.over(before, after);
            if !crate::pdf::object::same_bytes(found.as_slice(), commitment.committed.as_slice()) {
                return Some(Verdict::Altered);
            }
            None
        },
    }
}

/// Some bytes without the zeros at their end.
pub open spec fn without_trailing_zeros(s: Seq<u8>) -> Seq<u8>
    decreases s.len(),
{
    if s.len() > 0 && s.last() == 0 { without_trailing_zeros(s.drop_last()) } else { s }
}

/// The signature blob: `/Contents` as hex, without the zeros that pad the
/// hole after it. A DER structure ends where it says it does.
pub open spec fn blob_of(entries: Seq<(Seq<u8>, Value)>) -> Option<Seq<u8>> {
    match lookup(entries, v_contents()) {
        Some(Value::Hex(raw)) => Some(without_trailing_zeros(hex_decoded(raw))),
        _ => None,
    }
}

/// The signature blob a dictionary holds, if it holds one.
pub fn signature_blob(dict: &Dict) -> (r: Option<Vec<u8>>)
    ensures
        match blob_of(dict.entries()) {
            Some(b) => r matches Some(v) && v@ == b,
            None => r is None,
        },
{
    let word = vb_contents();
    let raw = match dict.get(word.as_slice()) {
        Some(Object::HexString(raw)) => raw,
        _ => {
            return None;
        },
    };
    let mut bytes = from_hex(raw);
    while bytes.len() > 0 && bytes[bytes.len() - 1] == 0
        invariant
            without_trailing_zeros(bytes@) == without_trailing_zeros(hex_decoded(raw@)),
        decreases bytes.len(),
    {
        bytes.pop();
    }
    Some(bytes)
}

/// A dictionary's text entry, as it reads: a literal string's bytes or the
/// bytes a hex string spells, as text; nothing otherwise.
pub open spec fn text_in(v: Option<Value>) -> Seq<char> {
    match v {
        Some(Value::Literal(raw)) => utf8_lossy(raw),
        Some(Value::Hex(raw)) => utf8_lossy(hex_decoded(raw)),
        _ => Seq::empty(),
    }
}

fn text_of(object: Option<&Object>) -> (r: String)
    ensures
        r@ == text_in(match object { Some(o) => Some(o.value()), None => None }),
{
    match object {
        Some(Object::LiteralString(raw)) => crate::pdf::object::lossy_text(raw.as_slice()),
        Some(Object::HexString(raw)) => {
            let bytes = from_hex(raw);
            crate::pdf::object::lossy_text(bytes.as_slice())
        },
        _ => String::new(),
    }
}

/// Whether a dictionary is a signature's: `/Type /Sig`.
pub open spec fn is_signature(v: Value) -> bool {
    match crate::pdf::sign::entries_of(v) {
        Some(d) => lookup(d, v_type()) == Some(Value::Name(v_sig())),
        None => false,
    }
}

/// The signature dictionaries among the table's first `i` objects, in order.
pub open spec fn signature_dicts(s: Seq<u8>, rows: Seq<(u32, usize)>, i: int) -> Seq<Seq<(Seq<u8>, Value)>>
    decreases i,
{
    if i <= 0 {
        Seq::empty()
    } else {
        signature_dicts(s, rows, i - 1) + match object_at(s, rows, rows[i - 1].0) {
            Ok((v, _)) => if is_signature(v) {
                seq![crate::pdf::sign::entries_of(v)->Some_0]
            } else {
                Seq::empty()
            },
            Err(_) => Seq::empty(),
        }
    }
}

/// Whether a reported signature says what its dictionary says.
pub open spec fn reported(sig: Signature, d: Seq<(Seq<u8>, Value)>) -> bool {
    &&& sig.name@ == text_in(lookup(d, v_name()))
    &&& sig.when@ == text_in(lookup(d, v_m()))
    &&& sig.timestamp == (lookup(d, v_sub_filter()) matches Some(Value::Name(n)) && occurs(utf8_lossy(n), "RFC3161"@))
}

/// One certificate the signature carries, checked against it: whether it is
/// the one the signer names, its subject, and whether its key made the
/// signature, or why its key could not be used.
#[derive(Debug)]
pub struct CertificateCheck {
    pub named: bool,
    pub subject: String,
    pub verifies: core::result::Result<bool, String>,
}

/// What a signature's CMS structure was read to say: what its signer
/// committed to, and each carried certificate checked against the
/// signature, or why none could be.
#[derive(Debug)]
pub struct CmsReading {
    pub commitment: Commitment,
    pub certificates: core::result::Result<Vec<CertificateCheck>, Verdict>,
}

/// The first certificate from `i` on, among the named ones (`pass`) or the
/// others, whose key made the signature.
pub open spec fn scan(certs: Seq<CertificateCheck>, pass: bool, i: int) -> Option<int>
    decreases certs.len() - i,
{
    if i < 0 || i >= certs.len() {
        None
    } else if certs[i].named == pass && certs[i].verifies == Ok::<bool, String>(true) {
        Some(i)
    } else {
        scan(certs, pass, i + 1)
    }
}

proof fn lemma_scan_bounds(certs: Seq<CertificateCheck>, pass: bool, i: int)
    ensures
        scan(certs, pass, i) matches Some(j) ==> 0 <= i <= j < certs.len() && certs[j].verifies == Ok::<bool, String>(true),
    decreases certs.len() - i,
{
    if 0 <= i < certs.len() && !(certs[i].named == pass && certs[i].verifies == Ok::<bool, String>(true)) {
        lemma_scan_bounds(certs, pass, i + 1);
    }
}

/// The certificate a signature verifies under: the named ones are tried
/// first, then every other.
pub open spec fn winner(certs: Seq<CertificateCheck>) -> Option<int> {
    match scan(certs, true, 0) {
        Some(j) => Some(j),
        None => scan(certs, false, 0),
    }
}

/// Why the first certificate from `i` on, in one pass, could not be used.
pub open spec fn problem_scan(certs: Seq<CertificateCheck>, pass: bool, i: int) -> Option<Seq<char>>
    decreases certs.len() - i,
{
    if i < 0 || i >= certs.len() {
        None
    } else if certs[i].named == pass && certs[i].verifies is Err {
        Some(certs[i].verifies->Err_0@)
    } else {
        problem_scan(certs, pass, i + 1)
    }
}

/// Why the first unusable certificate, in the order they are tried, could
/// not be used.
pub open spec fn problem(certs: Seq<CertificateCheck>) -> Option<Seq<char>> {
    match problem_scan(certs, true, 0) {
        Some(w) => Some(w),
        None => problem_scan(certs, false, 0),
    }
}

/// Whether no carried certificate had a key that could be tried.
pub open spec fn all_unusable(certs: Seq<CertificateCheck>) -> bool {
    forall|i: int| 0 <= i < certs.len() ==> #[trigger] certs[i].verifies is Err
}

/// What the certificates settle: the signature is the certificate's, and
/// which; or nothing could even be tried, and why; or nothing that
/// travelled with it made it.
pub open spec fn signer_outcome(certs: Seq<CertificateCheck>) -> (Outcome, Option<Seq<char>>) {
    match winner(certs) {
        Some(j) => (Outcome::Unaltered, Some(certs[j].subject@)),
        None => match problem(certs) {
            Some(why) => if all_unusable(certs) {
                (Outcome::Unreadable(why), None)
            } else {
                (Outcome::Invalid(not_the_certificates()), None)
            },
            None => (Outcome::Invalid(not_the_certificates()), None),
        },
    }
}

/// Why a signature whose digest matches is still not valid.
pub open spec fn not_the_certificates() -> Seq<char> {
    "the signature is not the certificate's — the digest matches, but nothing that travelled with the signature made it"@
}

fn find_verifying(certs: &Vec<CertificateCheck>, pass: bool) -> (r: Option<usize>)
    ensures
        match scan(certs@, pass, 0) {
            Some(j) => r == Some(j as usize),
            None => r is None,
        },
        r matches Some(j) ==> scan(certs@, pass, 0) == Some(j as int),
{
    proof {
        lemma_scan_bounds(certs@, pass, 0);
    }
    let mut i: usize = 0;
    while i < certs.len()
        invariant
            i <= certs@.len(),
            scan(certs@, pass, i as int) == scan(certs@, pass, 0),
        decreases certs.len() - i,
    {
        let verified = match &certs[i].verifies {
            Ok(b) => *b,
            Err(_) => false,
        };
        if certs[i].named == pass && verified {
            return Some(i);
        }
        i = i + 1;
    }
    None
}

fn find_problem(certs: &Vec<CertificateCheck>, pass: bool) -> (r: Option<String>)
    ensures
        match problem_scan(certs@, pass, 0) {
            Some(w) => r matches Some(m) && m@ == w,
            None => r is None,
        },
{
    let mut i: usize = 0;
    while i < certs.len()
        invariant
            i <= certs@.len(),
            problem_scan(certs@, pass, i as int) == problem_scan(certs@, pass, 0),
        decreases certs.len() - i,
    {
        if certs[i].named == pass {
            match &certs[i].verifies {
                Err(why) => {
                    return Some(why.clone());
                },
                Ok(_) => {},
            }
        }
        i = i + 1;
    }
    None
}

/// Which certificate, if any, the signature is; decided in the order the
/// certificates are tried.
pub fn signer_of(certs: &Vec<CertificateCheck>) -> (r: Checked)
    ensures
        (outcome_of(r.verdict), match r.signer { Some(s) => Some(s@), None => None }) == signer_outcome(certs@),
{
    proof {
        lemma_scan_bounds(certs@, true, 0);
        lemma_scan_bounds(certs@, false, 0);
    }
    let found = match find_verifying(certs, true) {
        Some(j) => Some(j),
        None => find_verifying(certs, false),
    };
    proof {
        match found {
            Some(j) => { assert(winner(certs@) == Some(j as int)); },
            None => { assert(winner(certs@) is None); },
        }
    }
    match found {
        Some(j) => {
            let subject = certs[j].subject.clone();
            proof {
                assert(subject@ == certs@[j as int].subject@);
                assert(signer_outcome(certs@) == (Outcome::Unaltered, Some(certs@[j as int].subject@)));
            }
            return Checked { verdict: Verdict::Unaltered, signer: Some(subject) };
        },
        None => {},
    }
    let why = match find_problem(certs, true) {
        Some(w) => Some(w),
        None => find_problem(certs, false),
    };
    let mut all = true;
    let mut i: usize = 0;
    while i < certs.len()
        invariant
            i <= certs@.len(),
            all == (forall|k: int| 0 <= k < i ==> #[trigger] certs@[k].verifies is Err),
        decreases certs.len() - i,
    {
        if certs[i].verifies.is_ok() {
            all = false;
        }
        i = i + 1;
    }
    let invalid = String::from_str(
        "the signature is not the certificate's — the digest matches, but nothing that travelled with the signature made it");
    match why {
        Some(w) => if all {
            Checked { verdict: Verdict::Unreadable(w), signer: None }
        } else {
            Checked { verdict: Verdict::Invalid(invalid), signer: None }
        },
        None => Checked { verdict: Verdict::Invalid(invalid), signer: None },
    }
}

/// What became of one signature dictionary, given its `/ByteRange` numbers
/// as read, and `read`, which takes the signature's CMS structure apart and
/// checks the carried certificates' keys against it.
///
/// The range is checked before anything else, and the digests before the
/// certificates: a file that was appended to is reported as that, and a
/// document that changed as changed, whatever the signature says.
pub fn verdict_for<R: Fn(&[u8]) -> core::result::Result<CmsReading, Verdict>>(
    dict: &Dict,
    bytes: &[u8],
    range: Option<[usize; 4]>,
    read: R,
) -> (r: Checked)
    requires
        forall|d: &[u8]| read.requires((d,)),
    ensures
        r.signer is Some ==> r.verdict == Verdict::Unaltered,
        !range_fits(range) ==> outcome_of(r.verdict) == Outcome::Unreadable("its byte range runs past the file"@)
            && r.signer is None,
        range_fits(range) && range_verdict_of(range, bytes@.len() as usize) is Some ==>
            Some(outcome_of(r.verdict)) == range_verdict_of(range, bytes@.len() as usize) && r.signer is None,
        range_fits(range) && range_verdict_of(range, bytes@.len() as usize) is None ==> match blob_of(dict.entries()) {
            None => outcome_of(r.verdict) == Outcome::Unreadable("it holds no signature"@) && r.signer is None,
            Some(blob) => exists|d: &[u8], answer: core::result::Result<CmsReading, Verdict>| {
                &&& d@ == blob
                &&& #[trigger] read.ensures((d,), answer)
                &&& match answer {
                    Err(v) => r.verdict == v && r.signer is None,
                    Ok(reading) => match digest_verdict_of(bytes@, range->Some_0@, reading.commitment) {
                        Some(o) => outcome_of(r.verdict) == o && r.signer is None,
                        None => match reading.certificates {
                            Err(v) => r.verdict == v && r.signer is None,
                            Ok(certs) => (outcome_of(r.verdict), match r.signer { Some(s) => Some(s@), None => None })
                                == signer_outcome(certs@),
                        },
                    },
                }
            },
        },
{
    let fits = match range {
        Some(n) => n[1].checked_add(n[3]).is_some() && n[2].checked_add(n[3]).is_some(),
        None => true,
    };
    if !fits {
        return Checked { verdict: Verdict::Unreadable(String::from_str("its byte range runs past the file")), signer: None };
    }
    match range_verdict(range, bytes.len()) {
        Some(v) => { return Checked { verdict: v, signer: None }; },
        None => {},
    }
    let numbers = match range {
        Some(n) => n,
        None => {
            return Checked { verdict: Verdict::Unreadable(String::from_str("it declares no byte range")), signer: None };
        },
    };
    let blob = match signature_blob(dict) {
        Some(b) => b,
        None => {
            return Checked { verdict: Verdict::Unreadable(String::from_str("it holds no signature")), signer: None };
        },
    };
    let d = blob.as_slice();
    let answer = read(d);
    proof {
        assert(read.ensures((d,), answer));
    }
    let reading = match answer {
        Ok(reading) => reading,
        Err(v) => { return Checked { verdict: v, signer: None }; },
    };
    match digest_verdict(numbers, bytes, &reading.commitment) {
        Some(v) => { return Checked { verdict: v, signer: None }; },
        None => {},
    }
    match reading.certificates {
        Err(v) => Checked { verdict: v, signer: None },
        Ok(certs) => signer_of(&certs),
    }
}

/// What became of one signature dictionary, its CMS structure read by this
/// library: a signer is named exactly when the verdict is unaltered, and
/// whatever could not be read is unreadable, never unaltered.
pub fn judge(dict: &Dict, bytes: &[u8], range: Option<[usize; 4]>) -> (r: Checked)
    ensures
        r.signer is Some <==> r.verdict == Verdict::Unaltered,
        !range_fits(range) ==> outcome_of(r.verdict) == Outcome::Unreadable("its byte range runs past the file"@),
        range_fits(range) && range_verdict_of(range, bytes@.len() as usize) is Some ==>
            Some(outcome_of(r.verdict)) == range_verdict_of(range, bytes@.len() as usize),
        range_fits(range) && range_verdict_of(range, bytes@.len() as usize) is None ==> match blob_of(dict.entries()) {
            None => outcome_of(r.verdict) == Outcome::Unreadable("it holds no signature"@),
            Some(blob) => exists|answer: core::result::Result<CmsReading, Verdict>| {
                &&& #[trigger] crate::pdf::cms::read_as(blob, answer)
                &&& match answer {
                    Err(v) => r.verdict == v,
                    Ok(reading) => match digest_verdict_of(bytes@, range->Some_0@, reading.commitment) {
                        Some(o) => outcome_of(r.verdict) == o,
                        None => match reading.certificates {
                            Err(v) => r.verdict == v,
                            Ok(certs) => (outcome_of(r.verdict), match r.signer { Some(s) => Some(s@), None => None })
                                == signer_outcome(certs@),
                        },
                    },
                }
            },
        },
{
    let r = verdict_for(dict, bytes, range, crate::pdf::cms::read_cms);
    proof {
        if range_fits(range) && range_verdict_of(range, bytes@.len() as usize) is None {
            if let Some(blob) = blob_of(dict.entries()) {
                let (d, answer) = choose|d: &[u8], answer: core::result::Result<CmsReading, Verdict>| {
                    &&& d@ == blob
                    &&& #[trigger] call_ensures(crate::pdf::cms::read_cms, (d,), answer)
                    &&& match answer {
                        Err(v) => r.verdict == v && r.signer is None,
                        Ok(reading) => match digest_verdict_of(bytes@, range->Some_0@, reading.commitment) {
                            Some(o) => outcome_of(r.verdict) == o && r.signer is None,
                            None => match reading.certificates {
                                Err(v) => r.verdict == v && r.signer is None,
                                Ok(certs) => (outcome_of(r.verdict), match r.signer { Some(s) => Some(s@), None => None })
                                    == signer_outcome(certs@),
                            },
                        },
                    }
                };
                assert(crate::pdf::cms::read_as(d@, answer));
                match answer {
                    Ok(reading) => {
                        match reading.certificates {
                            Ok(certs) => {
                                if winner(certs@) is None {
                                    assert(r.verdict != Verdict::Unaltered);
                                }
                            },
                            Err(v) => {},
                        }
                    },
                    Err(v) => {},
                }
            }
        }
    }
    r
}

/// Whether a reported signature's verdict and signer are what `verdict_of`
/// answered for its dictionary and the file's bytes.
pub open spec fn judged_by<F: Fn(&Dict, &[u8]) -> Checked>(verdict_of: F, sig: Signature,
    d: Seq<(Seq<u8>, Value)>, bytes: &[u8]) -> bool
{
    exists|dict: &Dict, c: Checked| {
        &&& dict.entries() == d
        &&& #[trigger] verdict_of.ensures((dict, bytes), c)
        &&& sig.verdict == c.verdict
        &&& sig.signer == c.signer
    }
}

/// Check every signature in a document, each with `verdict_of`, which reads
/// its CMS structure and checks it.
///
/// An empty list means the document carries none, which is not a failure
/// and must not be reported as one.
pub fn check<F: Fn(&Dict, &[u8]) -> Checked>(file: &File, bytes: &[u8], verdict_of: F) -> (r: Result<Vec<Signature>>)
    requires
        forall|d: &Dict, b: &[u8]| verdict_of.requires((d, b)),
    ensures
        r matches Ok(list) && {
            let dicts = signature_dicts(file.source(), file.rows(), file.rows().len() as int);
            &&& list@.len() == dicts.len()
            &&& forall|i: int| 0 <= i < dicts.len() ==> reported(#[trigger] list@[i], dicts[i])
            &&& forall|i: int| 0 <= i < dicts.len() ==> judged_by(verdict_of, #[trigger] list@[i], dicts[i], bytes)
        },
{
    let ghost s = file.source();
    let ghost rows = file.rows();
    let numbers = file.numbers();
    let type_word = vb_type();
    let sig_word = vb_sig();
    let sub_word = vb_sub_filter();
    let name_word = vb_name();
    let m_word = vb_m();
    let rfc = crate::text::chars_of("RFC3161");
    proof {
        reveal_strlit("RFC3161");
    }
    let mut out: Vec<Signature> = Vec::new();
    let mut i: usize = 0;
    while i < numbers.len()
        invariant
            forall|d: &Dict, b: &[u8]| verdict_of.requires((d, b)),
            s == file.source(),
            rows == file.rows(),
            numbers@ == rows.map_values(|row: (u32, usize)| row.0),
            type_word@ == v_type(),
            sig_word@ == v_sig(),
            sub_word@ == v_sub_filter(),
            name_word@ == v_name(),
            m_word@ == v_m(),
            rfc@ == "RFC3161"@,
            i <= numbers@.len(),
            out@.len() == signature_dicts(s, rows, i as int).len(),
            forall|j: int| 0 <= j < out@.len() ==> reported(#[trigger] out@[j], signature_dicts(s, rows, i as int)[j]),
            forall|j: int| 0 <= j < out@.len() ==> judged_by(verdict_of, #[trigger] out@[j],
                signature_dicts(s, rows, i as int)[j], bytes),
        decreases numbers.len() - i,
    {
        let number = numbers[i];
        proof {
            assert(number == rows[i as int].0);
        }
        let ghost before = signature_dicts(s, rows, i as int);
        if let Ok(object) = file.object(number) {
            if let Some(dict) = object.as_dict() {
                let is_sig = match dict.get(type_word.as_slice()) {
                    Some(Object::Name(n)) => crate::pdf::object::same_bytes(n.as_slice(), sig_word.as_slice()),
                    _ => false,
                };
                if is_sig {
                    let timestamp = match dict.get(sub_word.as_slice()) {
                        Some(Object::Name(n)) => {
                            let text = crate::pdf::object::lossy_text(n.as_slice());
                            let chars = crate::text::chars_of(text.as_str());
                            crate::text::chars_contain(&chars, &rfc)
                        },
                        _ => false,
                    };
                    let checked = verdict_of(dict, bytes);
                    let ghost answered = checked;
                    let signature = Signature {
                        name: text_of(dict.get(name_word.as_slice())),
                        when: text_of(dict.get(m_word.as_slice())),
                        timestamp,
                        verdict: checked.verdict,
                        signer: checked.signer,
                    };
                    out.push(signature);
                    proof {
                        assert(signature_dicts(s, rows, i + 1) =~= before.push(dict.entries()));
                        assert(reported(out@[out@.len() - 1], dict.entries()));
                        assert(verdict_of.ensures((dict, bytes), answered));
                        assert(judged_by(verdict_of, out@[out@.len() - 1], dict.entries(), bytes));
                    }
                } else {
                    proof {
                        assert(signature_dicts(s, rows, i + 1) =~= before);
                    }
                }
            } else {
                proof {
                    assert(signature_dicts(s, rows, i + 1) =~= before);
                }
            }
        } else {
            proof {
                assert(signature_dicts(s, rows, i + 1) =~= before);
            }
        }
        i = i + 1;
    }
    Ok(out)
}

pub open spec fn v_type() -> Seq<u8> { seq![84u8, 121u8, 112u8, 101u8] }

fn vb_type() -> (r: Vec<u8>)
    ensures
        r@ == v_type(),
{
    let r = vec![84u8, 121u8, 112u8, 101u8];
    assert(r@ =~= v_type());
    r
}

pub open spec fn v_sig() -> Seq<u8> { seq![83u8, 105u8, 103u8] }

fn vb_sig() -> (r: Vec<u8>)
    ensures
        r@ == v_sig(),
{
    let r = vec![83u8, 105u8, 103u8];
    assert(r@ =~= v_sig());
    r
}

pub open spec fn v_sub_filter() -> Seq<u8> { seq![83u8, 117u8, 98u8, 70u8, 105u8, 108u8, 116u8, 101u8, 114u8] }

fn vb_sub_filter() -> (r: Vec<u8>)
    ensures
        r@ == v_sub_filter(),
{
    let r = vec![83u8, 117u8, 98u8, 70u8, 105u8, 108u8, 116u8, 101u8, 114u8];
    assert(r@ =~= v_sub_filter());
    r
}

pub open spec fn v_name() -> Seq<u8> { seq![78u8, 97u8, 109u8, 101u8] }

fn vb_name() -> (r: Vec<u8>)
    ensures
        r@ == v_name(),
{
    let r = vec![78u8, 97u8, 109u8, 101u8];
    assert(r@ =~= v_name());
    r
}

pub open spec fn v_m() -> Seq<u8> { seq![77u8] }

fn vb_m() -> (r: Vec<u8>)
    ensures
        r@ == v_m(),
{
    let r = vec![77u8];
    assert(r@ =~= v_m());
    r
}

pub open spec fn v_contents() -> Seq<u8> { seq![67u8, 111u8, 110u8, 116u8, 101u8, 110u8, 116u8, 115u8] }

fn vb_contents() -> (r: Vec<u8>)
    ensures
        r@ == v_contents(),
{
    let r = vec![67u8, 111u8, 110u8, 116u8, 101u8, 110u8, 116u8, 115u8];
    assert(r@ =~= v_contents());
    r
}
} // verus!
