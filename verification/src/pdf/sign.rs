//! A digital signature: what the file says, and where the signature goes.
//!
//! A `/Sig` dictionary whose `/Contents` holds a CMS SignedData blob — a
//! detached signature over the bytes of the file itself — and whose
//! `/ByteRange` says which bytes those are. The range is two spans that
//! between them cover the whole file *except* the `/Contents` placeholder,
//! because a signature cannot sign itself.
//!
//! ```text
//! /ByteRange [0 a b c]
//!            └─ 0..a ─┘ <hex placeholder> └─ b..b+c ─┘
//! ```
//!
//! The placeholder is fixed-width: a block of zeros is written, the digest is
//! taken over everything either side, and the finished blob is copied into
//! the hole **without moving a byte**.

use vstd::prelude::*;
use crate::error::{PdfError, Result};
use crate::text::{decimal, decimal_bytes, occurs_at, push_decimal};
use crate::pdf::hashing::{sha256, sha256_of};
use vstd::string::StringSliceAdditionalSpecFns;
use crate::pdf::object::{lookup, Dict, Failure, Object, Value};
use crate::pdf::reader::{object_at, File};
use cms::builder::{SignedDataBuilder, SignerInfoBuilder};
use cms::cert::{CertificateChoices, IssuerAndSerialNumber};
use cms::signed_data::{EncapsulatedContentInfo, SignerIdentifier};
use const_oid::db::rfc5911::ID_DATA;
use const_oid::db::rfc5912::ID_SHA_256;
use der::{Decode, Encode};
use rsa::pkcs1v15::{Signature as RsaSignature, SigningKey};
use rsa::pkcs8::DecodePrivateKey;
use rsa::RsaPrivateKey;
use sha2::Sha256;
use spki::AlgorithmIdentifierOwned;
use x509_cert::Certificate;

verus! {

/// How much room the signature is given in the file.
pub const PLACEHOLDER: usize = 16384;

/// Digits per number in `/ByteRange`: the same width whatever the number
/// turns out to be, since they are patched in place afterwards.
pub const RANGE_DIGITS: usize = 10;

/// Where the signature sits in a prepared file, and what is signed.
#[derive(Debug, Clone, PartialEq, Eq, Structural)]
pub struct ByteRange {
    /// The offset of the `<` opening the placeholder.
    pub hole_at: usize,
    /// How many bytes the placeholder occupies, angle brackets included.
    pub hole_len: usize,
    /// Total length of the prepared file.
    pub total: usize,
}

impl ByteRange {
    /// Where the second span starts.
    pub open spec fn after(self) -> int {
        self.hole_at + self.hole_len
    }

    /// The four numbers `/ByteRange` wants.
    pub open spec fn spans(self) -> Seq<int> {
        seq![0, self.hole_at as int, self.after(),
            if self.total >= self.after() { self.total - self.after() } else { 0 }]
    }

    /// The four numbers, as `/ByteRange` wants them.
    pub fn numbers(&self) -> (r: [usize; 4])
        requires
            self.hole_at + self.hole_len <= usize::MAX,
        ensures
            r@.map_values(|n: usize| n as int) == self.spans(),
    {
        let after = self.hole_at + self.hole_len;
        let rest = self.total.saturating_sub(after);
        let r = [0, self.hole_at, after, rest];
        assert(r@.map_values(|n: usize| n as int) =~= self.spans());
        r
    }

    /// The bytes a signature covers: everything but the hole.
    pub fn covered<'a>(&self, bytes: &'a [u8]) -> (r: Result<(&'a [u8], &'a [u8])>)
        requires
            self.hole_at + self.hole_len <= usize::MAX,
        ensures
            (self.hole_at <= bytes@.len() && self.spans()[2] + self.spans()[3] <= bytes@.len()) ==> (
                r matches Ok((a, b)) && (a@ == bytes@.subrange(0, self.hole_at as int)
                && b@ == bytes@.subrange(self.spans()[2], self.spans()[2] + self.spans()[3]))),
            !(self.hole_at <= bytes@.len() && self.spans()[2] + self.spans()[3] <= bytes@.len())
                ==> r matches Err(PdfError::InvalidArgument(_)),
    {
        let numbers = self.numbers();
        let first = numbers[1];
        let second_at = numbers[2];
        let second_len = numbers[3];
        proof {
            assert(numbers@.map_values(|n: usize| n as int)[2] == numbers@[2] as int);
            assert(numbers@.map_values(|n: usize| n as int)[3] == numbers@[3] as int);
            assert(numbers@.map_values(|n: usize| n as int)[1] == numbers@[1] as int);
        }
        if first > bytes.len() || second_len > bytes.len() || second_at > bytes.len() - second_len {
            return Err(PdfError::InvalidArgument(String::from_str("the signature's byte range runs past the file")));
        }
        Ok((vstd::slice::slice_subrange(bytes, 0, first),
            vstd::slice::slice_subrange(bytes, second_at, second_at + second_len)))
    }

    /// Whether these numbers describe the whole file with exactly one hole.
    ///
    /// **The check worth having.** A range that leaves bytes uncovered is the
    /// classic way a signed PDF is altered without breaking its signature.
    pub fn covers_everything(&self) -> (r: bool)
        requires
            self.hole_at + self.hole_len <= usize::MAX,
        ensures
            r == (self.spans()[2] == self.spans()[1] + self.hole_len
                && self.spans()[2] + self.spans()[3] == self.total),
    {
        let numbers = self.numbers();
        proof {
            assert(numbers@.map_values(|n: usize| n as int)[0] == numbers@[0] as int);
            assert(numbers@.map_values(|n: usize| n as int)[1] == numbers@[1] as int);
            assert(numbers@.map_values(|n: usize| n as int)[2] == numbers@[2] as int);
            assert(numbers@.map_values(|n: usize| n as int)[3] == numbers@[3] as int);
        }
        numbers[0] == 0 && numbers[2] == numbers[1] + self.hole_len
            && numbers[2] as u128 + numbers[3] as u128 == self.total as u128
    }
}

/// A run of `0` bytes from `at`: how many.
pub open spec fn zeros_from(s: Seq<u8>, at: int) -> nat
    decreases s.len() - at,
{
    if 0 <= at < s.len() && s[at] == 48 { 1 + zeros_from(s, at + 1) } else { 0 }
}

/// The least run of zeros that counts as the placeholder.
pub open spec fn least_zeros() -> nat { 1024 }

/// Whether a placeholder opens at `open`: `<`, a thousand noughts or more,
/// `>`.
pub open spec fn hole_at(s: Seq<u8>, open: int) -> bool {
    0 <= open < s.len() && s[open] == 60 && zeros_from(s, open + 1) >= least_zeros()
        && open + 1 + zeros_from(s, open + 1) < s.len() && s[open + 1 + zeros_from(s, open + 1)] == 62
}

/// The first placeholder at or after `at`.
pub open spec fn first_hole(s: Seq<u8>, at: int) -> Option<int>
    decreases s.len() - at,
{
    if at < 0 || at >= s.len() {
        None
    } else if hole_at(s, at) {
        Some(at)
    } else {
        first_hole(s, at + 1)
    }
}

/// How many zeros run from `at`.
fn count_zeros(bytes: &[u8], at: usize) -> (r: usize)
    requires
        at <= bytes@.len(),
    ensures
        r == zeros_from(bytes@, at as int),
        at + r <= bytes@.len(),
{
    let mut end = at;
    while end < bytes.len() && bytes[end] == 48
        invariant
            at <= end <= bytes@.len(),
            zeros_from(bytes@, at as int) == (end - at) + zeros_from(bytes@, end as int),
        decreases bytes.len() - end,
    {
        end = end + 1;
    }
    end - at
}

/// Find the placeholder in a prepared file.
///
/// **Found by its shape, not by the key in front of it.** Every page has a
/// `/Contents` of its own; what is unmistakable is the run of zeros.
pub fn find_placeholder(bytes: &[u8]) -> (r: Result<ByteRange>)
    ensures
        match first_hole(bytes@, 0) {
            Some(open) => r == Ok::<ByteRange, PdfError>(ByteRange {
                hole_at: open as usize,
                hole_len: (zeros_from(bytes@, open + 1) + 2) as usize,
                total: bytes@.len() as usize,
            }),
            None => r matches Err(PdfError::InvalidArgument(_)),
        },
{
    let n = bytes.len();
    let mut at: usize = 0;
    while at < n
        invariant
            at <= n,
            n == bytes@.len(),
            first_hole(bytes@, at as int) == first_hole(bytes@, 0),
        decreases n - at,
    {
        if bytes[at] == 60 {
            let zeros = count_zeros(bytes, at + 1);
            if zeros >= 1024 && at + 1 + zeros < n && bytes[at + 1 + zeros] == 62 {
                return Ok(ByteRange { hole_at: at, hole_len: zeros + 2, total: n });
            }
        }
        at = at + 1;
    }
    Err(PdfError::InvalidArgument(String::from_str("that file has no signature to fill in")))
}

/// The upper-case hex digit for a nibble.
pub open spec fn hex_digit(v: int) -> u8 {
    if v < 10 { (48 + v) as u8 } else { (55 + v) as u8 }
}

pub(crate) fn hex_digit_of(v: u8) -> (r: u8)
    requires
        v < 16,
    ensures
        r == hex_digit(v as int),
{
    if v < 10 { 48 + v } else { 55 + v }
}

/// Whether a signature of `len` bytes fits the hole as hex.
pub open spec fn fits(range: ByteRange, len: nat) -> bool {
    2 * len <= (if range.hole_len >= 2 { range.hole_len - 2 } else { 0 })
}

/// The bytes with a signature written into the hole as upper-case hex from
/// just after the `<`, and every other byte as it was.
pub open spec fn filled(s: Seq<u8>, range: ByteRange, signature: Seq<u8>) -> Seq<u8> {
    Seq::new(s.len(), |i: int| {
        let k = i - (range.hole_at + 1);
        if 0 <= k < 2 * signature.len() {
            if k % 2 == 0 { hex_digit((signature[k / 2] / 16) as int) } else { hex_digit((signature[k / 2] % 16) as int) }
        } else {
            s[i]
        }
    })
}

/// Write a finished signature into the hole a prepared file left for it.
///
/// **Nothing moves.** The blob is written as hex over the zeros already there,
/// and the remainder of the hole stays as it was.
pub fn fill_placeholder(bytes: &mut [u8], range: &ByteRange, signature: &[u8]) -> (r: Result<()>)
    requires
        fits(*range, signature@.len()) && signature@.len() > 0
            ==> range.hole_at + 1 + 2 * signature@.len() <= old(bytes)@.len(),
    ensures
        fits(*range, signature@.len()) ==> r is Ok && final(bytes)@ == filled(old(bytes)@, *range, signature@),
        !fits(*range, signature@.len()) ==> (r matches Err(PdfError::Unsupported(_))
            && final(bytes)@ == old(bytes)@),
{
    let n = bytes.len();
    // Two hex digits a byte, inside the angle brackets.
    let room = range.hole_len.saturating_sub(2);
    if signature.len() > room / 2 {
        return Err(PdfError::Unsupported("the signature is larger than the space reserved for it"));
    }
    if signature.len() == 0 {
        assert(bytes@ =~= filled(old(bytes)@, *range, signature@));
        return Ok(());
    }
    let start = range.hole_at + 1;
    let mut index: usize = 0;
    while index < signature.len()
        invariant
            2 * signature@.len() <= room,
            room == (if range.hole_len >= 2 { range.hole_len - 2 } else { 0 }),
            start == range.hole_at + 1,
            start + 2 * signature@.len() <= bytes@.len(),
            bytes@.len() == old(bytes)@.len(),
            n == bytes@.len(),
            index <= signature@.len(),
            forall|i: int| 0 <= i < bytes@.len() ==> #[trigger] bytes@[i] == (
                if start <= i < start + 2 * index { filled(old(bytes)@, *range, signature@)[i] } else { old(bytes)@[i] }),
        decreases signature.len() - index,
    {
        let byte = signature[index];
        bytes[start + index * 2] = hex_digit_of(byte / 16);
        bytes[start + index * 2 + 1] = hex_digit_of(byte % 16);
        proof {
            assert forall|i: int| 0 <= i < bytes@.len() implies #[trigger] bytes@[i] == (
                if start <= i < start + 2 * (index + 1) { filled(old(bytes)@, *range, signature@)[i] } else { old(bytes)@[i] }) by {
                if i == start + index * 2 || i == start + index * 2 + 1 {
                    let k = i - start;
                    assert(k / 2 == index as int);
                }
            }
        }
        index = index + 1;
    }
    proof {
        assert(bytes@ =~= filled(old(bytes)@, *range, signature@));
    }
    Ok(())
}

/// A string as a PDF literal, with the characters that would end it early
/// escaped: `(`, `)` and `\` each get a backslash before them.
pub open spec fn escaped_text(b: Seq<u8>) -> Seq<u8>
    decreases b.len(),
{
    if b.len() == 0 {
        Seq::empty()
    } else {
        let last = b.last();
        escaped_text(b.drop_last()) + if last == 40 || last == 41 || last == 92 { seq![92u8, last] } else { seq![last] }
    }
}

pub fn escaped(text: &str) -> (r: Vec<u8>)
    ensures
        r@ == escaped_text(text.spec_bytes()),
{
    let b = text.as_bytes();
    let mut out: Vec<u8> = Vec::new();
    let mut i: usize = 0;
    while i < b.len()
        invariant
            i <= b@.len(),
            out@ == escaped_text(b@.subrange(0, i as int)),
        decreases b.len() - i,
    {
        let byte = b[i];
        proof {
            assert(b@.subrange(0, i + 1).drop_last() =~= b@.subrange(0, i as int));
        }
        let ghost before = out@;
        if byte == 40 || byte == 41 || byte == 92 {
            out.push(92u8);
        }
        out.push(byte);
        proof {
            assert(out@ =~= escaped_text(b@.subrange(0, i + 1)));
        }
        i = i + 1;
    }
    proof {
        assert(b@.subrange(0, i as int) =~= b@);
    }
    out
}


/// The digest a signature is made over: SHA-256 of everything but the hole.
pub fn digest_of(bytes: &[u8], range: &ByteRange) -> (r: Result<Vec<u8>>)
    requires
        range.hole_at + range.hole_len <= usize::MAX,
    ensures
        (range.hole_at <= bytes@.len() && range.spans()[2] + range.spans()[3] <= bytes@.len()) ==> (
            r matches Ok(d) && d@ == sha256(bytes@.subrange(0, range.hole_at as int)
                + bytes@.subrange(range.spans()[2], range.spans()[2] + range.spans()[3]))),
        !(range.hole_at <= bytes@.len() && range.spans()[2] + range.spans()[3] <= bytes@.len())
            ==> r matches Err(PdfError::InvalidArgument(_)),
{
    let (before, after) = match range.covered(bytes) {
        Ok(pair) => pair,
        Err(e) => {
            return Err(e);
        },
    };
    let mut joined = vstd::slice::slice_to_vec(before);
    crate::text::extend(&mut joined, after);
    Ok(sha256_of(joined.as_slice()))
}

// ---------------------------------------------------------------------------
// The date a signature says it was made.

/// Zero-padded to at least `width` digits.
pub open spec fn padded_decimal(n: nat, width: nat) -> Seq<char> {
    if decimal(n).len() < width {
        Seq::new((width - decimal(n).len()) as nat, |i: int| '0') + decimal(n)
    } else {
        decimal(n)
    }
}

fn push_padded(out: &mut String, n: u64, width: usize)
    ensures
        final(out)@ == old(out)@ + padded_decimal(n as nat, width as nat),
{
    let mut digits = String::new();
    push_decimal(&mut digits, n);
    let len = digits.as_str().unicode_len();
    if len < width {
        let mut k: usize = 0;
        while k < width - len
            invariant
                len < width,
                len == decimal(n as nat).len(),
                k <= width - len,
                out@ == old(out)@ + Seq::new(k as nat, |i: int| '0'),
            decreases width - len - k,
        {
            out.append("0");
            k = k + 1;
            proof {
                reveal_strlit("0");
                assert(out@ =~= old(out)@ + Seq::new(k as nat, |i: int| '0'));
            }
        }
    }
    out.append(digits.as_str());
    proof {
        assert(out@ =~= old(out)@ + padded_decimal(n as nat, width as nat));
    }
}

/// Year, month and day from days since 1970-01-01, by the civil-from-days
/// algorithm.
pub open spec fn civil(days: int) -> (int, int, int) {
    let z = days + 719468;
    let era = z / 146097;
    let doe = z % 146097;
    let yoe = (doe - doe / 1460 + doe / 36524 - doe / 146096) / 365;
    let y = yoe + era * 400;
    let doy = doe - (365 * yoe + yoe / 4 - yoe / 100);
    let mp = (5 * doy + 2) / 153;
    let d = doy - (153 * mp + 2) / 5 + 1;
    let m = if mp < 10 { mp + 3 } else { mp - 9 };
    (if m <= 2 { y + 1 } else { y }, m, d)
}

/// A PDF date, as `/M` wants it: `D:YYYYMMDDHHmmSSZ` for some seconds since
/// 1970 in UTC.
pub open spec fn pdf_date_text(seconds: nat) -> Seq<char> {
    let (y, m, d) = civil((seconds / 86400) as int);
    let rem = seconds % 86400;
    "D:"@ + padded_decimal(y as nat, 4) + padded_decimal(m as nat, 2) + padded_decimal(d as nat, 2)
        + padded_decimal(rem / 3600, 2) + padded_decimal((rem % 3600) / 60, 2) + padded_decimal(rem % 60, 2) + "Z"@
}

pub proof fn lemma_civil_ranges(days: int)
    requires
        0 <= days <= 300_000_000_000_000,
    ensures
        civil(days).0 >= 0,
        1 <= civil(days).1 <= 12,
        1 <= civil(days).2 <= 31,
        civil(days).0 <= 1_000_000_000_000,
{
    let z = days + 719468;
    let era = z / 146097;
    let doe = z % 146097;
    assert(0 <= doe < 146097);
    let yoe = (doe - doe / 1460 + doe / 36524 - doe / 146096) / 365;
    assert(0 <= yoe <= 399) by {
        assert(doe / 1460 <= doe / 36524 + doe);
    }
    let doy = doe - (365 * yoe + yoe / 4 - yoe / 100);
    assert(0 <= doy <= 365) by (nonlinear_arith)
        requires
            0 <= doe < 146097,
            yoe == (doe - doe / 1460 + doe / 36524 - doe / 146096) / 365,
            doy == doe - (365 * yoe + yoe / 4 - yoe / 100);
    let mp = (5 * doy + 2) / 153;
    assert(0 <= mp <= 11);
    let d = doy - (153 * mp + 2) / 5 + 1;
    assert(1 <= d <= 31) by (nonlinear_arith)
        requires
            0 <= doy <= 365,
            mp == (5 * doy + 2) / 153,
            d == doy - (153 * mp + 2) / 5 + 1;
    assert(era <= 2_100_000_000);
}

/// A PDF date for some seconds since 1970, in UTC.
#[verifier::rlimit(50)]
pub fn pdf_date(seconds: u64) -> (r: String)
    ensures
        r@ == pdf_date_text(seconds as nat),
{
    // Whole days since the epoch, converted by the civil-from-days algorithm —
    // no calendar crate for four numbers.
    let days: i64 = (seconds / 86400) as i64;
    let rem: u64 = seconds % 86400;
    let z = days + 719468;
    let era = z / 146097;
    let doe = z % 146097;
    let yoe = (doe - doe / 1460 + doe / 36524 - doe / 146096) / 365;
    let y = yoe + era * 400;
    let doy = doe - (365 * yoe + yoe / 4 - yoe / 100);
    let mp = (5 * doy + 2) / 153;
    let d = doy - (153 * mp + 2) / 5 + 1;
    let m = if mp < 10 { mp + 3 } else { mp - 9 };
    let y = if m <= 2 { y + 1 } else { y };
    proof {
        lemma_civil_ranges((seconds / 86400) as int);
        assert((y as int, m as int, d as int) == civil((seconds / 86400) as int));
    }
    let mut out = String::from_str("D:");
    push_padded(&mut out, y as u64, 4);
    push_padded(&mut out, m as u64, 2);
    push_padded(&mut out, d as u64, 2);
    push_padded(&mut out, rem / 3600, 2);
    push_padded(&mut out, (rem % 3600) / 60, 2);
    push_padded(&mut out, rem % 60, 2);
    out.append("Z");
    proof {
        reveal_strlit("D:");
        reveal_strlit("Z");
    }
    out
}


// ---------------------------------------------------------------------------
// Patching the byte range in.

pub open spec fn word_byterange() -> Seq<u8> {
    seq![47u8, 66u8, 121u8, 116u8, 101u8, 82u8, 97u8, 110u8, 103u8, 101u8]
}

/// The first place at or after `from` where `lit` occurs.
pub open spec fn first_occurrence(s: Seq<u8>, lit: Seq<u8>, from: int) -> Option<int>
    decreases s.len() - from,
{
    if from < 0 || from >= s.len() {
        None
    } else if occurs_at(s, lit, from) {
        Some(from)
    } else {
        first_occurrence(s, lit, from + 1)
    }
}

/// An occurrence found lies wholly inside the sequence, at or after `from`.
pub proof fn lemma_first_occurrence_bounds(s: Seq<u8>, lit: Seq<u8>, from: int)
    ensures
        first_occurrence(s, lit, from) matches Some(i) ==> from <= i && i + lit.len() <= s.len(),
    decreases s.len() - from,
{
    if 0 <= from < s.len() && !occurs_at(s, lit, from) {
        lemma_first_occurrence_bounds(s, lit, from + 1);
    }
}

/// Past the bytes from `at` that are not digits.
pub open spec fn past_non_digits(s: Seq<u8>, at: int) -> int
    decreases s.len() - at,
{
    if 0 <= at < s.len() && !crate::text::is_digit(s[at]) { past_non_digits(s, at + 1) } else { at }
}

/// Past the digits from `at`.
pub open spec fn past_digits(s: Seq<u8>, at: int) -> int
    decreases s.len() - at,
{
    if 0 <= at < s.len() && crate::text::is_digit(s[at]) { past_digits(s, at + 1) } else { at }
}

/// A number as ten digits, zero-padded.
pub open spec fn ten_digits(v: nat) -> Seq<u8> {
    Seq::new((10 - decimal_bytes(v).len()) as nat, |i: int| 48u8) + decimal_bytes(v)
}

/// The numbers from the `k`th on written over the ten-digit runs from
/// `cursor`, and whether every run was ten digits wide; a run of another
/// width stops the patching where it is.
pub open spec fn patched(s: Seq<u8>, cursor: int, values: Seq<int>, k: int) -> (Seq<u8>, bool)
    decreases values.len() - k,
{
    if k < 0 || k >= values.len() {
        (s, true)
    } else {
        let start = past_non_digits(s, cursor);
        let end = past_digits(s, start);
        if end - start != 10 {
            (s, false)
        } else {
            patched(s.subrange(0, start) + ten_digits(values[k] as nat) + s.subrange(end, s.len() as int),
                end, values, k + 1)
        }
    }
}

/// The file with the four numbers patched into its `/ByteRange` array, and
/// whether that could be done.
pub open spec fn byte_range_written(s: Seq<u8>, range: ByteRange) -> (Seq<u8>, bool) {
    match first_occurrence(s, word_byterange(), 0) {
        None => (s, false),
        Some(at) => match crate::pdf::object::byte_from(s, 91, at) {
            None => (s, false),
            Some(open) => patched(s, open + 1, range.spans(), 0),
        },
    }
}

proof fn lemma_past_bounds(s: Seq<u8>, at: int)
    requires
        0 <= at <= s.len(),
    ensures
        at <= past_non_digits(s, at) <= s.len(),
        past_non_digits(s, at) <= past_digits(s, past_non_digits(s, at)) <= s.len(),
    decreases s.len() - at,
{
    if at < s.len() && !crate::text::is_digit(s[at]) {
        lemma_past_bounds(s, at + 1);
    } else {
        lemma_past_digits_bounds(s, at);
    }
}

proof fn lemma_past_digits_bounds(s: Seq<u8>, at: int)
    requires
        0 <= at <= s.len(),
    ensures
        at <= past_digits(s, at) <= s.len(),
    decreases s.len() - at,
{
    if at < s.len() && crate::text::is_digit(s[at]) {
        lemma_past_digits_bounds(s, at + 1);
    }
}


pub open spec fn pow10(k: nat) -> nat
    decreases k,
{
    if k == 0 { 1 } else { 10 * pow10((k - 1) as nat) }
}

proof fn lemma_decimal_len(n: nat, k: nat)
    requires
        k >= 1,
        n < pow10(k),
    ensures
        decimal(n).len() <= k,
        decimal_bytes(n).len() == decimal(n).len(),
    decreases k,
{
    if n >= 10 {
        assert(n / 10 < pow10((k - 1) as nat));
        if k - 1 >= 1 {
            lemma_decimal_len(n / 10, (k - 1) as nat);
        } else {
            assert(pow10(0) == 1);
        }
    }
}

/// Patch the four numbers in, in place.
pub fn write_byte_range(bytes: &mut [u8], range: &ByteRange) -> (r: Result<()>)
    requires
        range.hole_at + range.hole_len <= usize::MAX,
        forall|i: int| 0 <= i < 4 ==> #[trigger] range.spans()[i] < 10_000_000_000,
    ensures
        final(bytes)@ == byte_range_written(old(bytes)@, *range).0,
        r is Ok <==> byte_range_written(old(bytes)@, *range).1,
        r matches Err(e) ==> e is Internal,
{
    let ghost s = bytes@;
    let n = bytes.len();
    let word = vec![47u8, 66u8, 121u8, 116u8, 101u8, 82u8, 97u8, 110u8, 103u8, 101u8];
    proof {
        assert(word@ =~= word_byterange());
    }
    let mut at: usize = 0;
    loop
        invariant
            at <= n,
            n == bytes@.len(),
            bytes@ == s,
            word@ == word_byterange(),
            first_occurrence(s, word_byterange(), at as int) == first_occurrence(s, word_byterange(), 0),
        ensures
            at < n,
            n == bytes@.len(),
            bytes@ == s,
            first_occurrence(s, word_byterange(), 0) == Some(at as int),
        decreases n - at,
    {
        if at >= n {
            return Err(PdfError::Internal(String::from_str("the byte range went missing")));
        }
        if crate::text::bytes_at(bytes, word.as_slice(), at) {
            break;
        }
        at = at + 1;
    }
    let mut open: usize = at;
    while open < n && bytes[open] != 91
        invariant
            at <= open <= n,
            n == bytes@.len(),
            bytes@ == s,
            crate::pdf::object::byte_from(s, 91, open as int) == crate::pdf::object::byte_from(s, 91, at as int),
        decreases n - open,
    {
        open = open + 1;
    }
    if open >= n {
        return Err(PdfError::Internal(String::from_str("the byte range has no array")));
    }
    let values = range.numbers();
    let ghost spans = range.spans();
    let ghost target = byte_range_written(s, *range);
    let mut cursor: usize = open + 1;
    let mut k: usize = 0;
    while k < 4
        invariant
            k <= 4,
            cursor <= n,
            n == bytes@.len(),
            spans == range.spans(),
            spans.len() == 4,
            values@.map_values(|v: usize| v as int) == spans,
            forall|i: int| 0 <= i < 4 ==> #[trigger] spans[i] < 10_000_000_000,
            target == byte_range_written(s, *range),
            s == old(bytes)@,
            patched(bytes@, cursor as int, spans, k as int) == target,
        decreases 4 - k,
    {
        let ghost before = bytes@;
        let ghost c0 = cursor as int;
        proof {
            lemma_past_bounds(before, c0);
        }
        // Past whatever separates them.
        while cursor < n && !(48 <= bytes[cursor] && bytes[cursor] <= 57)
            invariant
                c0 <= cursor <= n,
                n == bytes@.len(),
                bytes@ == before,
                past_non_digits(before, cursor as int) == past_non_digits(before, c0),
            decreases n - cursor,
        {
            cursor = cursor + 1;
        }
        let start = cursor;
        while cursor < n && 48 <= bytes[cursor] && bytes[cursor] <= 57
            invariant
                start <= cursor <= n,
                n == bytes@.len(),
                bytes@ == before,
                past_digits(before, cursor as int) == past_digits(before, start as int),
            decreases n - cursor,
        {
            cursor = cursor + 1;
        }
        if cursor - start != 10 {
            return Err(PdfError::Internal(String::from_str("the byte range is not the width it was written at")));
        }
        let value = values[k];
        proof {
            assert(values@.map_values(|v: usize| v as int)[k as int] == value as int);
            assert(pow10(10) == 10_000_000_000) by {
                reveal_with_fuel(pow10, 11);
            }
            lemma_decimal_len(value as nat, 10);
        }
        let mut digits: Vec<u8> = Vec::new();
        crate::text::push_decimal_bytes(&mut digits, value as u64);
        let pad = 10 - digits.len();
        let ghost ten = ten_digits(value as nat);
        let mut j: usize = 0;
        while j < 10
            invariant
                j <= 10,
                start + 10 <= n,
                n == bytes@.len(),
                pad + digits@.len() == 10,
                digits@ == decimal_bytes(value as nat),
                ten == ten_digits(value as nat),
                forall|i: int| 0 <= i < bytes@.len() ==> #[trigger] bytes@[i] == (
                    if start <= i < start + j { ten[i - start] } else { before[i] }),
            decreases 10 - j,
        {
            let b: u8 = if j < pad { 48 } else { digits[j - pad] };
            bytes[start + j] = b;
            j = j + 1;
        }
        proof {
            assert(bytes@ =~= before.subrange(0, start as int) + ten + before.subrange(start + 10, n as int));
        }
        k = k + 1;
    }
    Ok(())
}


// ---------------------------------------------------------------------------
// Who is signing.

/// The certificates a PKCS#12 file holds under a password: `None` when the
/// bytes are not a PKCS#12 file at all, and no certificates when they do not
/// open.
pub uninterp spec fn pkcs12_certificates(bytes: Seq<u8>, password: Seq<char>) -> Option<Seq<Seq<u8>>>;

/// The private keys a PKCS#12 file holds under a password, likewise.
pub uninterp spec fn pkcs12_keys(bytes: Seq<u8>, password: Seq<char>) -> Option<Seq<Seq<u8>>>;

/// Byte strings as values.
pub open spec fn byte_strings(v: Seq<Vec<u8>>) -> Seq<Seq<u8>> {
    v.map_values(|x: Vec<u8>| x@)
}

/// `p12::PFX::parse`, then `PFX::cert_x509_bags`: the DER certificates the
/// file holds under the password, named as a function of the bytes and the
/// password. A bag list that does not decrypt comes back empty.
#[verifier::external_body]
fn certificate_bags(bytes: &[u8], password: &str) -> (r: Option<Vec<Vec<u8>>>)
    ensures
        match pkcs12_certificates(bytes@, password@) {
            Some(c) => r matches Some(v) && byte_strings(v@) == c,
            None => r is None,
        },
{
    match p12::PFX::parse(bytes) {
        Ok(pfx) => Some(pfx.cert_x509_bags(password).unwrap_or_default()),
        Err(_) => None,
    }
}

/// `p12::PFX::parse`, then `PFX::key_bags`: the PKCS#8 keys the file holds
/// under the password, named as a function of the bytes and the password.
#[verifier::external_body]
fn key_bags(bytes: &[u8], password: &str) -> (r: Option<Vec<Vec<u8>>>)
    ensures
        match pkcs12_keys(bytes@, password@) {
            Some(k) => r matches Some(v) && byte_strings(v@) == k,
            None => r is None,
        },
{
    match p12::PFX::parse(bytes) {
        Ok(pfx) => Some(pfx.key_bags(password).unwrap_or_default()),
        Err(_) => None,
    }
}

/// Who is signing: a certificate and the key that goes with it.
pub struct Identity {
    /// The signer's certificate, DER encoded, and any chain above it.
    pub certificates: Vec<Vec<u8>>,
    /// The private key, DER encoded (PKCS#8).
    key: Vec<u8>,
}

/// Whether some bytes read as an RSA private key in PKCS#8.
pub uninterp spec fn private_key_reads(der: Seq<u8>) -> bool;

/// The detached CMS blob the `cms` builder makes for a certificate, the
/// signer identifier naming it, an RSA private key and a digest, or `None`
/// when a step of the build fails.
pub uninterp spec fn detached_cms(certificate: Seq<u8>, sid: Seq<u8>, key: Seq<u8>, digest: Seq<u8>) -> Option<Seq<u8>>;

/// The outside RSA private key type, carried through unopened.
#[verifier::external_type_specification]
#[verifier::external_body]
pub struct ExRsaPrivateKey(RsaPrivateKey);

/// `RsaPrivateKey::from_pkcs8_der`: the key, when the bytes read as one.
#[verifier::external_body]
fn private_key_of(der: &[u8]) -> (r: Option<RsaPrivateKey>)
    ensures
        r is Some == private_key_reads(der@),
{
    RsaPrivateKey::from_pkcs8_der(der).ok()
}

/// The signer identifier a certificate is named by: `IssuerAndSerialNumber`
/// with its issuer and serial number, as DER; `None` when the certificate
/// does not read or the identifier cannot be written.
pub uninterp spec fn issuer_serial_id(certificate: Seq<u8>) -> Option<Seq<u8>>;

/// `Certificate::from_der`, then `SignerIdentifier::IssuerAndSerialNumber`
/// of its issuer and serial number, written with `Encode::to_der`.
#[verifier::external_body]
fn signer_id(certificate: &[u8]) -> (r: Option<Vec<u8>>)
    ensures
        match issuer_serial_id(certificate@) {
            Some(b) => r matches Some(v) && v@ == b,
            None => r is None,
        },
{
    let t = Certificate::from_der(certificate).ok()?.tbs_certificate;
    let named = IssuerAndSerialNumber { issuer: t.issuer, serial_number: t.serial_number };
    SignerIdentifier::IssuerAndSerialNumber(named).to_der().ok()
}

/// `Certificate::from_der`, `SignerIdentifier::from_der` and
/// `RsaPrivateKey::from_pkcs8_der`, then a `SignerInfoBuilder` over the
/// external digest with SHA-256, and a `SignedDataBuilder` carrying the digest
/// algorithm, the certificate and that signer, built and written as DER. RSA
/// PKCS#1 v1.5 signing draws on no randomness, so the blob depends on the
/// four arguments alone.
#[verifier::external_body]
fn build_detached(certificate: &[u8], sid: &[u8], key: &[u8], digest: &[u8]) -> (r: Option<Vec<u8>>)
    ensures
        match detached_cms(certificate@, sid@, key@, digest@) {
            Some(b) => r matches Some(v) && v@ == b,
            None => r is None,
        },
{
    let cert = Certificate::from_der(certificate).ok()?;
    let signer = SigningKey::<Sha256>::new(RsaPrivateKey::from_pkcs8_der(key).ok()?);
    let content = EncapsulatedContentInfo { econtent_type: ID_DATA, econtent: None };
    let alg = AlgorithmIdentifierOwned { oid: ID_SHA_256, parameters: None };
    let sid = SignerIdentifier::from_der(sid).ok()?;
    let info = SignerInfoBuilder::new(&signer, sid, alg.clone(), &content, Some(digest)).ok()?;
    let mut data = SignedDataBuilder::new(&content);
    data.add_digest_algorithm(alg).ok()?.add_certificate(CertificateChoices::Certificate(cert)).ok()?;
    data.add_signer_info::<_, RsaSignature>(info).ok()?.build().ok()?.to_der().ok()
}

impl Identity {
    /// The private key's bytes.
    pub closed spec fn key_bytes(&self) -> Seq<u8> {
        self.key@
    }

    /// The certificates' bytes.
    pub closed spec fn certificate_bytes(&self) -> Seq<Seq<u8>> {
        byte_strings(self.certificates@)
    }

    /// The private key, DER encoded (PKCS#8), for the code that signs with it.
    pub fn key_der(&self) -> (r: &[u8])
        ensures
            r@ == self.key_bytes(),
    {
        self.key.as_slice()
    }

    /// The signing key, as a usable RSA key.
    pub fn rsa_key(&self) -> (r: Result<RsaPrivateKey>)
        ensures
            r is Ok == private_key_reads(self.key_bytes()),
            r is Err ==> (r matches Err(PdfError::Unsupported(m)) && m@ == "only RSA keys can sign, and this is not one"@),
    {
        match private_key_of(self.key.as_slice()) {
            Some(k) => Ok(k),
            None => Err(PdfError::Unsupported("only RSA keys can sign, and this is not one")),
        }
    }

    /// What the signer's certificate says about who is signing: its subject.
    pub fn subject(&self) -> (r: Result<String>)
        ensures
            self.certificate_bytes().len() == 0 ==> (r matches Err(PdfError::InvalidArgument(m))
                && m@ == "that identity carries no certificate"@),
            self.certificate_bytes().len() > 0 ==> match crate::pdf::cms::certificate_facts(self.certificate_bytes()[0]) {
                None => r matches Err(PdfError::InvalidArgument(m)) && m@ == "that certificate cannot be read"@,
                Some(f) => r matches Ok(s) && s@ == f.2,
            },
    {
        if self.certificates.len() == 0 {
            return Err(PdfError::InvalidArgument(String::from_str("that identity carries no certificate")));
        }
        match crate::pdf::cms::read_certificate(self.certificates[0].as_slice()) {
            Some(f) => Ok(f.2),
            None => Err(PdfError::InvalidArgument(String::from_str("that certificate cannot be read"))),
        }
    }

    /// The detached CMS `SignedData` blob that goes in `/Contents`: the first
    /// certificate's holder signs `digest`, the digest of the file around the
    /// hole, with RSA PKCS#1 v1.5 over SHA-256.
    ///
    /// Detached: the signed content is the file itself, and only its digest
    /// goes in.
    pub fn detached_signature(&self, digest: &[u8]) -> (r: Result<Vec<u8>>)
        ensures
            self.certificate_bytes().len() == 0 ==> (r matches Err(PdfError::InvalidArgument(m))
                && m@ == "that identity carries no certificate"@),
            self.certificate_bytes().len() > 0 ==> {
                let certificate = self.certificate_bytes()[0];
                if crate::pdf::cms::certificate_facts(certificate) is None {
                    r matches Err(PdfError::InvalidArgument(m)) && m@ == "that certificate cannot be read"@
                } else if !private_key_reads(self.key_bytes()) {
                    r matches Err(PdfError::Unsupported(m)) && m@ == "only RSA keys can sign, and this is not one"@
                } else {
                    match issuer_serial_id(certificate) {
                        None => r matches Err(PdfError::InvalidArgument(m)) && m@ == "that certificate cannot be read"@,
                        Some(sid) => match detached_cms(certificate, sid, self.key_bytes(), digest@) {
                            Some(blob) => r matches Ok(v) && v@ == blob,
                            None => r matches Err(PdfError::Internal(m)) && m@ == "the signature could not be built"@,
                        },
                    }
                }
            },
    {
        if self.certificates.len() == 0 {
            return Err(PdfError::InvalidArgument(String::from_str("that identity carries no certificate")));
        }
        let certificate = self.certificates[0].as_slice();
        if crate::pdf::cms::read_certificate(certificate).is_none() {
            return Err(PdfError::InvalidArgument(String::from_str("that certificate cannot be read")));
        }
        if self.rsa_key().is_err() {
            return Err(PdfError::Unsupported("only RSA keys can sign, and this is not one"));
        }
        let sid = match signer_id(certificate) {
            Some(s) => s,
            None => { return Err(PdfError::InvalidArgument(String::from_str("that certificate cannot be read"))); },
        };
        match build_detached(certificate, sid.as_slice(), self.key.as_slice(), digest) {
            Some(blob) => Ok(blob),
            None => Err(PdfError::Internal(String::from_str("the signature could not be built"))),
        }
    }

    /// Why a PKCS#12 file yielded no certificate or no key: the password, or an
    /// encryption this cannot read — named both, since from here the two look
    /// the same.
    pub open spec fn did_not_open() -> Seq<char> {
        "that file did not open — either the password is wrong, or it uses AES encryption this cannot yet read. Re-exporting it with `-keypbe PBE-SHA1-3DES -certpbe PBE-SHA1-3DES -macalg sha1` produces a form it can."@
    }

    /// Read an identity from a PKCS#12 file.
    ///
    /// **Both halves or nothing.** A file with a certificate and no key signs
    /// nothing, and one with a key and no certificate produces a signature no
    /// reader can attribute.
    pub fn from_pkcs12(bytes: &[u8], password: &str) -> (r: Result<Identity>)
        ensures
            match pkcs12_certificates(bytes@, password@) {
                None => r matches Err(PdfError::InvalidArgument(m)) && m@ == "that is not a PKCS#12 file"@,
                Some(c) => match pkcs12_keys(bytes@, password@) {
                    Some(k) => if c.len() > 0 && k.len() > 0 {
                        r matches Ok(id) && id.certificate_bytes() == c && id.key_bytes() == k[0]
                    } else {
                        r matches Err(PdfError::InvalidArgument(m)) && m@ == Self::did_not_open()
                    },
                    None => r matches Err(PdfError::InvalidArgument(m)) && m@ == Self::did_not_open(),
                },
            },
    {
        let certificates = match certificate_bags(bytes, password) {
            Some(c) => c,
            None => {
                return Err(PdfError::InvalidArgument(String::from_str("that is not a PKCS#12 file")));
            },
        };
        let keys = match key_bags(bytes, password) {
            Some(k) => k,
            None => Vec::new(),
        };
        if certificates.len() == 0 || keys.len() == 0 {
            // **Two very different causes, one symptom.** A wrong password and
            // an encryption this cannot read both come back as empty bags.
            return Err(PdfError::InvalidArgument(String::from_str(
                "that file did not open — either the password is wrong, or it uses AES encryption this cannot yet read. Re-exporting it with `-keypbe PBE-SHA1-3DES -certpbe PBE-SHA1-3DES -macalg sha1` produces a form it can.")));
        }
        let key = vstd::slice::slice_to_vec(keys[0].as_slice());
        proof {
            assert(byte_strings(keys@)[0] == keys@[0]@);
        }
        Ok(Identity { certificates, key })
    }
}

// ---------------------------------------------------------------------------
// Which object number the first page is.

pub open spec fn word_page() -> Seq<u8> { seq![80u8, 97u8, 103u8, 101u8] }
pub open spec fn word_type() -> Seq<u8> { seq![84u8, 121u8, 112u8, 101u8] }
pub open spec fn word_kids() -> Seq<u8> { seq![75u8, 105u8, 100u8, 115u8] }
pub open spec fn word_root() -> Seq<u8> { seq![82u8, 111u8, 111u8, 116u8] }
pub open spec fn word_pages() -> Seq<u8> { seq![80u8, 97u8, 103u8, 101u8, 115u8] }

/// A dictionary's entries, for a dictionary or a stream.
pub open spec fn entries_of(v: Value) -> Option<Seq<(Seq<u8>, Value)>> {
    match v {
        Value::Dict(e) => Some(e),
        Value::Stream(e, _, _) => Some(e),
        _ => None,
    }
}

/// A reference followed, or the value as it stands.
pub open spec fn resolved(s: Seq<u8>, rows: Seq<(u32, usize)>, v: Value) -> core::result::Result<Value, Failure> {
    match v {
        Value::Reference(n, _) => match object_at(s, rows, n) {
            Ok((x, _)) => Ok(x),
            Err(f) => Err(f),
        },
        other => Ok(other),
    }
}

/// Whether a value is a page: a dictionary whose `/Type` is `/Page`.
pub open spec fn is_page(v: Value) -> bool {
    match entries_of(v) {
        Some(e) => lookup(e, word_type()) == Some(Value::Name(word_page())),
        None => false,
    }
}

/// The pages under a node of the page tree, appended to `out` in order; the
/// walk goes no deeper than 64 levels.
pub open spec fn walk(s: Seq<u8>, rows: Seq<(u32, usize)>, node: Value, depth: int, out: Seq<u32>) -> Seq<u32>
    decreases 65 - depth, 1int, 0int,
{
    if depth < 0 || depth > 64 {
        out
    } else {
        match entries_of(node) {
            None => out,
            Some(e) => match lookup(e, word_kids()) {
                None => out,
                Some(kids) => match resolved(s, rows, kids) {
                    Ok(Value::Array(items)) => walk_kids(s, rows, items, 0, depth, out),
                    _ => out,
                },
            },
        }
    }
}

/// The pages under the kids from the `i`th on.
pub open spec fn walk_kids(s: Seq<u8>, rows: Seq<(u32, usize)>, items: Seq<Value>, i: int, depth: int, out: Seq<u32>) -> Seq<u32>
    decreases 65 - depth, 0int, items.len() - i,
{
    if depth < 0 || depth > 64 || i < 0 || i >= items.len() {
        out
    } else {
        match items[i] {
            Value::Reference(number, _) => match object_at(s, rows, number) {
                Ok((r, _)) => if is_page(r) {
                    walk_kids(s, rows, items, i + 1, depth, out.push(number))
                } else {
                    walk_kids(s, rows, items, i + 1, depth, walk(s, rows, r, depth + 1, out))
                },
                Err(_) => walk_kids(s, rows, items, i + 1, depth, out),
            },
            _ => walk_kids(s, rows, items, i + 1, depth, out),
        }
    }
}

/// The object number of page `index`.
pub open spec fn page_at(s: Seq<u8>, rows: Seq<(u32, usize)>, trailer: Seq<(Seq<u8>, Value)>, index: int)
    -> core::result::Result<u32, Failure>
{
    match lookup(trailer, word_root()) {
        None => Err(Failure::Malformed),
        Some(rv) => match resolved(s, rows, rv) {
            Err(f) => Err(f),
            Ok(root) => match entries_of(root) {
                None => Err(Failure::Malformed),
                Some(re) => match lookup(re, word_pages()) {
                    None => Err(Failure::Malformed),
                    Some(pv) => match resolved(s, rows, pv) {
                        Err(f) => Err(f),
                        Ok(pages) => {
                            let numbers = walk(s, rows, pages, 0, Seq::empty());
                            if 0 <= index < numbers.len() { Ok(numbers[index]) } else { Err(Failure::Malformed) }
                        },
                    },
                },
            },
        },
    }
}

fn bytes_word(w: &[u8]) -> (r: Vec<u8>)
    ensures
        r@ == w@,
{
    vstd::slice::slice_to_vec(w)
}

fn walk_tree(file: &File, node: &Object, out: &mut Vec<u32>, depth: usize)
    ensures
        final(out)@ == walk(file.source(), file.rows(), node.value(), depth as int, old(out)@),
    decreases 65 - depth,
{
    if depth > 64 {
        return;
    }
    let dict = match node.as_dict() {
        Some(d) => d,
        None => {
            return;
        },
    };
    proof {
        assert(entries_of(node.value()) == Some(dict.entries()));
    }
    let kids_word = vec![75u8, 105u8, 100u8, 115u8];
    let page_word = vec![80u8, 97u8, 103u8, 101u8];
    let type_word = vec![84u8, 121u8, 112u8, 101u8];
    proof {
        assert(kids_word@ =~= word_kids());
        assert(page_word@ =~= word_page());
        assert(type_word@ =~= word_type());
    }
    let kids = match dict.get(kids_word.as_slice()) {
        Some(k) => k,
        None => {
            return;
        },
    };
    let items = match file.resolve(kids) {
        Ok(Object::Array(items)) => items,
        _ => {
            return;
        },
    };
    let ghost values = crate::pdf::object::values_of(items@);
    let mut i: usize = 0;
    proof {
        assert(values =~= resolved(file.source(), file.rows(), kids.value())->Ok_0->Array_0);
    }
    while i < items.len()
        invariant
            i <= items@.len(),
            depth <= 64,
            values == crate::pdf::object::values_of(items@),
            type_word@ == word_type(),
            page_word@ == word_page(),
            walk_kids(file.source(), file.rows(), values, i as int, depth as int, out@)
                == walk(file.source(), file.rows(), node.value(), depth as int, old(out)@),
        decreases items.len() - i,
    {
        match &items[i] {
            Object::Reference(number, _) => {
                match file.object(*number) {
                    Ok(resolved_kid) => {
                        let is_a_page = match resolved_kid.as_dict() {
                            Some(d) => match d.get(type_word.as_slice()) {
                                Some(t) => match t.as_name() {
                                    Some(name) => crate::pdf::object::same_bytes(name, page_word.as_slice()),
                                    None => false,
                                },
                                None => false,
                            },
                            None => false,
                        };
                        proof {
                            assert(is_a_page == is_page(resolved_kid.value()));
                        }
                        if is_a_page {
                            out.push(*number);
                        } else {
                            walk_tree(file, &resolved_kid, out, depth + 1);
                        }
                    },
                    Err(_) => {},
                }
            },
            _ => {},
        }
        i = i + 1;
    }
}


// ---------------------------------------------------------------------------
// Writing the file with a hole in it.

pub open spec fn w_sig() -> Seq<u8> { seq![83u8, 105u8, 103u8] }
pub open spec fn w_filter() -> Seq<u8> { seq![70u8, 105u8, 108u8, 116u8, 101u8, 114u8] }
pub open spec fn w_ppklite() -> Seq<u8> { seq![65u8, 100u8, 111u8, 98u8, 101u8, 46u8, 80u8, 80u8, 75u8, 76u8, 105u8, 116u8, 101u8] }
pub open spec fn w_subfilter() -> Seq<u8> { seq![83u8, 117u8, 98u8, 70u8, 105u8, 108u8, 116u8, 101u8, 114u8] }
pub open spec fn w_detached() -> Seq<u8> { seq![97u8, 100u8, 98u8, 101u8, 46u8, 112u8, 107u8, 99u8, 115u8, 55u8, 46u8, 100u8, 101u8, 116u8, 97u8, 99u8, 104u8, 101u8, 100u8] }
pub open spec fn w_rfc3161() -> Seq<u8> { seq![69u8, 84u8, 83u8, 73u8, 46u8, 82u8, 70u8, 67u8, 51u8, 49u8, 54u8, 49u8] }
pub open spec fn w_name() -> Seq<u8> { seq![78u8, 97u8, 109u8, 101u8] }
pub open spec fn w_reason() -> Seq<u8> { seq![82u8, 101u8, 97u8, 115u8, 111u8, 110u8] }
pub open spec fn w_location() -> Seq<u8> { seq![76u8, 111u8, 99u8, 97u8, 116u8, 105u8, 111u8, 110u8] }
pub open spec fn w_m() -> Seq<u8> { seq![77u8] }
pub open spec fn w_byterange_key() -> Seq<u8> { seq![66u8, 121u8, 116u8, 101u8, 82u8, 97u8, 110u8, 103u8, 101u8] }
pub open spec fn w_contents() -> Seq<u8> { seq![67u8, 111u8, 110u8, 116u8, 101u8, 110u8, 116u8, 115u8] }
pub open spec fn w_annot() -> Seq<u8> { seq![65u8, 110u8, 110u8, 111u8, 116u8] }
pub open spec fn w_subtype() -> Seq<u8> { seq![83u8, 117u8, 98u8, 116u8, 121u8, 112u8, 101u8] }
pub open spec fn w_widget() -> Seq<u8> { seq![87u8, 105u8, 100u8, 103u8, 101u8, 116u8] }
pub open spec fn w_ft() -> Seq<u8> { seq![70u8, 84u8] }
pub open spec fn w_t() -> Seq<u8> { seq![84u8] }
pub open spec fn w_signature1() -> Seq<u8> { seq![83u8, 105u8, 103u8, 110u8, 97u8, 116u8, 117u8, 114u8, 101u8, 49u8] }
pub open spec fn w_timestamp1() -> Seq<u8> { seq![84u8, 105u8, 109u8, 101u8, 115u8, 116u8, 97u8, 109u8, 112u8, 49u8] }
pub open spec fn w_v() -> Seq<u8> { seq![86u8] }
pub open spec fn w_f() -> Seq<u8> { seq![70u8] }
pub open spec fn w_n132() -> Seq<u8> { seq![49u8, 51u8, 50u8] }
pub open spec fn w_rect() -> Seq<u8> { seq![82u8, 101u8, 99u8, 116u8] }
pub open spec fn w_p() -> Seq<u8> { seq![80u8] }
pub open spec fn w_acroform() -> Seq<u8> { seq![65u8, 99u8, 114u8, 111u8, 70u8, 111u8, 114u8, 109u8] }
pub open spec fn w_fields() -> Seq<u8> { seq![70u8, 105u8, 101u8, 108u8, 100u8, 115u8] }
pub open spec fn w_sigflags() -> Seq<u8> { seq![83u8, 105u8, 103u8, 70u8, 108u8, 97u8, 103u8, 115u8] }
pub open spec fn w_n3() -> Seq<u8> { seq![51u8] }
pub open spec fn w_annots() -> Seq<u8> { seq![65u8, 110u8, 110u8, 111u8, 116u8, 115u8] }
pub open spec fn w_n0() -> Seq<u8> { seq![48u8] }

fn b_sig() -> (r: Vec<u8>)
    ensures
        r@ == w_sig(),
{
    let r = vec![83u8, 105u8, 103u8];
    assert(r@ =~= w_sig());
    r
}

fn b_filter() -> (r: Vec<u8>)
    ensures
        r@ == w_filter(),
{
    let r = vec![70u8, 105u8, 108u8, 116u8, 101u8, 114u8];
    assert(r@ =~= w_filter());
    r
}

fn b_ppklite() -> (r: Vec<u8>)
    ensures
        r@ == w_ppklite(),
{
    let r = vec![65u8, 100u8, 111u8, 98u8, 101u8, 46u8, 80u8, 80u8, 75u8, 76u8, 105u8, 116u8, 101u8];
    assert(r@ =~= w_ppklite());
    r
}

fn b_subfilter() -> (r: Vec<u8>)
    ensures
        r@ == w_subfilter(),
{
    let r = vec![83u8, 117u8, 98u8, 70u8, 105u8, 108u8, 116u8, 101u8, 114u8];
    assert(r@ =~= w_subfilter());
    r
}

fn b_detached() -> (r: Vec<u8>)
    ensures
        r@ == w_detached(),
{
    let r = vec![97u8, 100u8, 98u8, 101u8, 46u8, 112u8, 107u8, 99u8, 115u8, 55u8, 46u8, 100u8, 101u8, 116u8, 97u8, 99u8, 104u8, 101u8, 100u8];
    assert(r@ =~= w_detached());
    r
}

fn b_rfc3161() -> (r: Vec<u8>)
    ensures
        r@ == w_rfc3161(),
{
    let r = vec![69u8, 84u8, 83u8, 73u8, 46u8, 82u8, 70u8, 67u8, 51u8, 49u8, 54u8, 49u8];
    assert(r@ =~= w_rfc3161());
    r
}

fn b_name() -> (r: Vec<u8>)
    ensures
        r@ == w_name(),
{
    let r = vec![78u8, 97u8, 109u8, 101u8];
    assert(r@ =~= w_name());
    r
}

fn b_reason() -> (r: Vec<u8>)
    ensures
        r@ == w_reason(),
{
    let r = vec![82u8, 101u8, 97u8, 115u8, 111u8, 110u8];
    assert(r@ =~= w_reason());
    r
}

fn b_location() -> (r: Vec<u8>)
    ensures
        r@ == w_location(),
{
    let r = vec![76u8, 111u8, 99u8, 97u8, 116u8, 105u8, 111u8, 110u8];
    assert(r@ =~= w_location());
    r
}

fn b_m() -> (r: Vec<u8>)
    ensures
        r@ == w_m(),
{
    let r = vec![77u8];
    assert(r@ =~= w_m());
    r
}

fn b_byterange_key() -> (r: Vec<u8>)
    ensures
        r@ == w_byterange_key(),
{
    let r = vec![66u8, 121u8, 116u8, 101u8, 82u8, 97u8, 110u8, 103u8, 101u8];
    assert(r@ =~= w_byterange_key());
    r
}

fn b_contents() -> (r: Vec<u8>)
    ensures
        r@ == w_contents(),
{
    let r = vec![67u8, 111u8, 110u8, 116u8, 101u8, 110u8, 116u8, 115u8];
    assert(r@ =~= w_contents());
    r
}

fn b_annot() -> (r: Vec<u8>)
    ensures
        r@ == w_annot(),
{
    let r = vec![65u8, 110u8, 110u8, 111u8, 116u8];
    assert(r@ =~= w_annot());
    r
}

fn b_subtype() -> (r: Vec<u8>)
    ensures
        r@ == w_subtype(),
{
    let r = vec![83u8, 117u8, 98u8, 116u8, 121u8, 112u8, 101u8];
    assert(r@ =~= w_subtype());
    r
}

fn b_widget() -> (r: Vec<u8>)
    ensures
        r@ == w_widget(),
{
    let r = vec![87u8, 105u8, 100u8, 103u8, 101u8, 116u8];
    assert(r@ =~= w_widget());
    r
}

fn b_ft() -> (r: Vec<u8>)
    ensures
        r@ == w_ft(),
{
    let r = vec![70u8, 84u8];
    assert(r@ =~= w_ft());
    r
}

fn b_t() -> (r: Vec<u8>)
    ensures
        r@ == w_t(),
{
    let r = vec![84u8];
    assert(r@ =~= w_t());
    r
}

fn b_signature1() -> (r: Vec<u8>)
    ensures
        r@ == w_signature1(),
{
    let r = vec![83u8, 105u8, 103u8, 110u8, 97u8, 116u8, 117u8, 114u8, 101u8, 49u8];
    assert(r@ =~= w_signature1());
    r
}

fn b_timestamp1() -> (r: Vec<u8>)
    ensures
        r@ == w_timestamp1(),
{
    let r = vec![84u8, 105u8, 109u8, 101u8, 115u8, 116u8, 97u8, 109u8, 112u8, 49u8];
    assert(r@ =~= w_timestamp1());
    r
}

fn b_v() -> (r: Vec<u8>)
    ensures
        r@ == w_v(),
{
    let r = vec![86u8];
    assert(r@ =~= w_v());
    r
}

fn b_f() -> (r: Vec<u8>)
    ensures
        r@ == w_f(),
{
    let r = vec![70u8];
    assert(r@ =~= w_f());
    r
}

fn b_n132() -> (r: Vec<u8>)
    ensures
        r@ == w_n132(),
{
    let r = vec![49u8, 51u8, 50u8];
    assert(r@ =~= w_n132());
    r
}

fn b_rect() -> (r: Vec<u8>)
    ensures
        r@ == w_rect(),
{
    let r = vec![82u8, 101u8, 99u8, 116u8];
    assert(r@ =~= w_rect());
    r
}

fn b_p() -> (r: Vec<u8>)
    ensures
        r@ == w_p(),
{
    let r = vec![80u8];
    assert(r@ =~= w_p());
    r
}

fn b_acroform() -> (r: Vec<u8>)
    ensures
        r@ == w_acroform(),
{
    let r = vec![65u8, 99u8, 114u8, 111u8, 70u8, 111u8, 114u8, 109u8];
    assert(r@ =~= w_acroform());
    r
}

fn b_fields() -> (r: Vec<u8>)
    ensures
        r@ == w_fields(),
{
    let r = vec![70u8, 105u8, 101u8, 108u8, 100u8, 115u8];
    assert(r@ =~= w_fields());
    r
}

fn b_sigflags() -> (r: Vec<u8>)
    ensures
        r@ == w_sigflags(),
{
    let r = vec![83u8, 105u8, 103u8, 70u8, 108u8, 97u8, 103u8, 115u8];
    assert(r@ =~= w_sigflags());
    r
}

fn b_n3() -> (r: Vec<u8>)
    ensures
        r@ == w_n3(),
{
    let r = vec![51u8];
    assert(r@ =~= w_n3());
    r
}

fn b_annots() -> (r: Vec<u8>)
    ensures
        r@ == w_annots(),
{
    let r = vec![65u8, 110u8, 110u8, 111u8, 116u8, 115u8];
    assert(r@ =~= w_annots());
    r
}

fn b_n0() -> (r: Vec<u8>)
    ensures
        r@ == w_n0(),
{
    let r = vec![48u8];
    assert(r@ =~= w_n0());
    r
}

/// Which kind of thing is being put in the file.
#[derive(Debug, Clone, Copy, PartialEq, Eq, Structural)]
pub enum Flavour {
    Signature,
    Timestamp,
}

/// What a signature says about itself.
#[derive(Debug, Clone, Default)]
pub struct Reason {
    /// Who signed, as they wish to be named. Empty takes it from the
    /// certificate.
    pub name: String,
    pub reason: String,
    pub location: String,
}

/// Ten zeros: a `/ByteRange` number written before its value is known.
pub open spec fn zeros(n: nat) -> Seq<u8> {
    Seq::new(n, |i: int| 48u8)
}

/// A literal string entry, present only when the text is not empty.
pub open spec fn said(key: Seq<u8>, text: Seq<u8>) -> Seq<(Seq<u8>, Value)> {
    if text.len() > 0 { seq![(key, Value::Literal(escaped_text(text)))] } else { Seq::empty() }
}

/// The signature dictionary, with room reserved for the range and the blob.
pub open spec fn signature_entries(flavour: Flavour, name: Seq<u8>, reason: Seq<u8>, location: Seq<u8>, when: Seq<u8>)
    -> Seq<(Seq<u8>, Value)>
{
    seq![
        (w_t_type(), Value::Name(w_sig())),
        (w_filter(), Value::Name(w_ppklite())),
        (w_subfilter(), Value::Name(if flavour is Signature { w_detached() } else { w_rfc3161() })),
    ] + said(w_name(), name) + said(w_reason(), reason) + said(w_location(), location) + seq![
        (w_m(), Value::Literal(when)),
        (w_byterange_key(), Value::Array(seq![Value::Number(zeros(10)), Value::Number(zeros(10)),
            Value::Number(zeros(10)), Value::Number(zeros(10))])),
        (w_contents(), Value::Hex(zeros(PLACEHOLDER as nat))),
    ]
}

pub open spec fn w_t_type() -> Seq<u8> { word_type() }

fn b_t_type() -> (r: Vec<u8>)
    ensures
        r@ == w_t_type(),
{
    let r = vec![84u8, 121u8, 112u8, 101u8];
    assert(r@ =~= w_t_type());
    r
}

/// The invisible widget that holds the signature: a zero-size rectangle on
/// the first page.
pub open spec fn field_entries(flavour: Flavour, signature: u32, page: u32) -> Seq<(Seq<u8>, Value)> {
    seq![
        (w_t_type(), Value::Name(w_annot())),
        (w_subtype(), Value::Name(w_widget())),
        (w_ft(), Value::Name(w_sig())),
        (w_t(), Value::Literal(if flavour is Signature { w_signature1() } else { w_timestamp1() })),
        (w_v(), Value::Reference(signature, 0)),
        (w_f(), Value::Number(w_n132())),
        (w_rect(), Value::Array(seq![Value::Number(w_n0()), Value::Number(w_n0()), Value::Number(w_n0()),
            Value::Number(w_n0())])),
        (w_p(), Value::Reference(page, 0)),
    ]
}

/// The form the catalogue gains: one field, and `/SigFlags 3`, which says the
/// file's appearance may not be regenerated.
pub open spec fn acroform(field: u32) -> Value {
    Value::Dict(seq![
        (w_fields(), Value::Array(seq![Value::Reference(field, 0)])),
        (w_sigflags(), Value::Number(w_n3())),
    ])
}

/// The highest object number the table names, or zero.
pub open spec fn top_number(rows: Seq<(u32, usize)>) -> nat {
    if rows.len() == 0 { 0 } else { rows.last().0 as nat }
}

/// What the catalogue and the first page become, and the two new objects,
/// each as its number and its written body.
pub open spec fn prepared_pieces(
    s: Seq<u8>,
    rows: Seq<(u32, usize)>,
    trailer: Seq<(Seq<u8>, Value)>,
    flavour: Flavour,
    name: Seq<u8>,
    reason: Seq<u8>,
    location: Seq<u8>,
    when: Seq<u8>,
) -> core::result::Result<(Seq<(u32, Seq<u8>)>, Seq<(u32, Seq<u8>)>), Failure> {
    if top_number(rows) + 2 > u32::MAX {
        Err(Failure::Malformed)
    } else {
        let signature = (top_number(rows) + 1) as u32;
        let field = (top_number(rows) + 2) as u32;
        match page_at(s, rows, trailer, 0) {
            Err(f) => Err(f),
            Ok(first_page) => match lookup(trailer, word_root()) {
                Some(Value::Reference(root_number, _)) => match object_at(s, rows, root_number) {
                    Ok((Value::Dict(root), _)) => match object_at(s, rows, first_page) {
                        Ok((Value::Dict(page), _)) => Ok((
                            seq![
                                (root_number, catalogue_written(root, field)),
                                (first_page, page_written(s, rows, page, field)),
                            ],
                            seq![
                                (signature, crate::pdf::reader::written(Value::Dict(
                                    signature_entries(flavour, name, reason, location, when)))),
                                (field, crate::pdf::reader::written(Value::Dict(
                                    field_entries(flavour, signature, first_page)))),
                            ],
                        )),
                        _ => Err(Failure::Malformed),
                    },
                    _ => Err(Failure::Malformed),
                },
                _ => Err(Failure::Malformed),
            },
        }
    }
}

/// The catalogue with the form added, written out.
pub open spec fn catalogue_written(root: Seq<(Seq<u8>, Value)>, field: u32) -> Seq<u8> {
    crate::pdf::reader::written(Value::Dict(crate::pdf::object::set_entry(root, w_acroform(), acroform(field))))
}

/// The annotations a page already has: its `/Annots` array, followed if it
/// is a reference, or nothing.
pub open spec fn annotations(s: Seq<u8>, rows: Seq<(u32, usize)>, page: Seq<(Seq<u8>, Value)>) -> Seq<Value> {
    match lookup(page, w_annots()) {
        Some(a) => match resolved(s, rows, a) {
            Ok(Value::Array(items)) => items,
            _ => Seq::empty(),
        },
        None => Seq::empty(),
    }
}

/// The page with the widget added to its annotations, written out.
pub open spec fn page_written(s: Seq<u8>, rows: Seq<(u32, usize)>, page: Seq<(Seq<u8>, Value)>, field: u32) -> Seq<u8> {
    crate::pdf::reader::written(Value::Dict(crate::pdf::object::set_entry(page, w_annots(),
        Value::Array(annotations(s, rows, page).push(Value::Reference(field, 0))))))
}

/// A prepared file is kept only if its placeholder is where the byte range
/// says the hole is.
pub open spec fn holed(out: Seq<u8>) -> core::result::Result<Seq<u8>, Failure> {
    match first_hole(out, 0) {
        None => Err(Failure::Malformed),
        Some(open) => {
            let range = ByteRange {
                hole_at: open as usize,
                hole_len: (zeros_from(out, open + 1) + 2) as usize,
                total: out.len() as usize,
            };
            if range.spans()[2] == range.spans()[1] + range.hole_len
                && range.spans()[2] + range.spans()[3] == range.total {
                Ok(out)
            } else {
                Err(Failure::Internal)
            }
        },
    }
}

/// The file with a hole in it, and everything a reader needs to find the
/// hole.
pub open spec fn prepared(
    s: Seq<u8>,
    rows: Seq<(u32, usize)>,
    trailer: Seq<(Seq<u8>, Value)>,
    flavour: Flavour,
    name: Seq<u8>,
    reason: Seq<u8>,
    location: Seq<u8>,
    when: Seq<u8>,
) -> core::result::Result<Seq<u8>, Failure> {
    match prepared_pieces(s, rows, trailer, flavour, name, reason, location, when) {
        Err(f) => Err(f),
        Ok((reps, extra)) => match crate::pdf::reader::rewritten(s, rows, trailer, reps, extra, Seq::empty(),
            Seq::empty()) {
            Err(f) => Err(f),
            Ok(out) => holed(out),
        },
    }
}


pub proof fn lemma_first_hole(s: Seq<u8>, at: int)
    ensures
        first_hole(s, at) matches Some(o) ==> hole_at(s, o) && at <= o,
    decreases s.len() - at,
{
    if 0 <= at < s.len() && !hole_at(s, at) {
        lemma_first_hole(s, at + 1);
    }
}

/// Which object number page `index` is.
fn page_number(file: &File, index: usize) -> (r: Result<u32>)
    ensures
        match page_at(file.source(), file.rows(), file.trailer_entries(), index as int) {
            Ok(n) => r == Ok::<u32, PdfError>(n),
            Err(f) => r matches Err(e) && crate::pdf::object::reports(f, e),
        },
{
    let root_word = vec![82u8, 111u8, 111u8, 116u8];
    let pages_word = vec![80u8, 97u8, 103u8, 101u8, 115u8];
    proof {
        assert(root_word@ =~= word_root());
        assert(pages_word@ =~= word_pages());
    }
    let root_ref = match file.trailer().get(root_word.as_slice()) {
        Some(o) => o,
        None => {
            return Err(PdfError::InvalidArgument(String::from_str("the file has no catalogue")));
        },
    };
    let root = match file.resolve(root_ref) {
        Ok(o) => o,
        Err(e) => {
            return Err(e);
        },
    };
    let pages_ref = match root.as_dict() {
        Some(d) => match d.get(pages_word.as_slice()) {
            Some(p) => p,
            None => {
                return Err(PdfError::InvalidArgument(String::from_str("the file has no page tree")));
            },
        },
        None => {
            return Err(PdfError::InvalidArgument(String::from_str("the file has no page tree")));
        },
    };
    let pages = match file.resolve(pages_ref) {
        Ok(o) => o,
        Err(e) => {
            return Err(e);
        },
    };
    let mut numbers: Vec<u32> = Vec::new();
    walk_tree(file, &pages, &mut numbers, 0);
    proof {
        assert(numbers@ == walk(file.source(), file.rows(), pages.value(), 0, Seq::empty()));
    }
    if index < numbers.len() {
        Ok(numbers[index])
    } else {
        Err(PdfError::InvalidArgument(String::from_str("the file has no pages")))
    }
}

fn name_object(v: Vec<u8>) -> (r: Object)
    ensures
        r.value() == Value::Name(v@),
{
    Object::Name(v)
}

/// `n` noughts.
fn zeros_vec(n: usize) -> (r: Vec<u8>)
    ensures
        r@ == zeros(n as nat),
{
    let r = vec![48u8; n];
    assert(r@ =~= zeros(n as nat));
    r
}

/// The signature dictionary, with room reserved for the range and the blob.
fn signature_dictionary(flavour: Flavour, name: &str, reason: &str, location: &str, when: &[u8]) -> (r: Dict)
    ensures
        r.entries() == signature_entries(flavour, name.spec_bytes(), reason.spec_bytes(), location.spec_bytes(), when@),
{
    let mut signature = Dict(Vec::new());
    signature.append(b_t_type(), name_object(b_sig()));
    signature.append(b_filter(), name_object(b_ppklite()));
    let sub = match flavour {
        Flavour::Signature => b_detached(),
        Flavour::Timestamp => b_rfc3161(),
    };
    signature.append(b_subfilter(), name_object(sub));
    let ghost first_three = signature.entries();
    proof {
        assert(first_three =~= seq![
            (w_t_type(), Value::Name(w_sig())),
            (w_filter(), Value::Name(w_ppklite())),
            (w_subfilter(), Value::Name(if flavour is Signature { w_detached() } else { w_rfc3161() })),
        ]);
    }
    if name.as_bytes().len() > 0 {
        signature.append(b_name(), Object::LiteralString(escaped(name)));
    }
    let ghost with_name = signature.entries();
    proof {
        assert(with_name =~= first_three + said(w_name(), name.spec_bytes()));
    }
    if reason.as_bytes().len() > 0 {
        signature.append(b_reason(), Object::LiteralString(escaped(reason)));
    }
    let ghost with_reason = signature.entries();
    proof {
        assert(with_reason =~= with_name + said(w_reason(), reason.spec_bytes()));
    }
    if location.as_bytes().len() > 0 {
        signature.append(b_location(), Object::LiteralString(escaped(location)));
    }
    let ghost with_location = signature.entries();
    proof {
        assert(with_location =~= with_reason + said(w_location(), location.spec_bytes()));
    }
    signature.append(b_m(), Object::LiteralString(vstd::slice::slice_to_vec(when)));
    // **Fixed width, both of them.** These are written before their real
    // values are known and patched in place afterwards.
    let range_numbers = vec![
        Object::Number(zeros_vec(10)),
        Object::Number(zeros_vec(10)),
        Object::Number(zeros_vec(10)),
        Object::Number(zeros_vec(10)),
    ];
    proof {
        crate::pdf::object::lemma_array_value(range_numbers);
        assert(crate::pdf::object::values_of(range_numbers@) =~= seq![Value::Number(zeros(10)),
            Value::Number(zeros(10)), Value::Number(zeros(10)), Value::Number(zeros(10))]);
    }
    signature.append(b_byterange_key(), Object::Array(range_numbers));
    signature.append(b_contents(), Object::HexString(zeros_vec(PLACEHOLDER)));
    proof {
        assert(signature.entries() =~= signature_entries(flavour, name.spec_bytes(), reason.spec_bytes(),
            location.spec_bytes(), when@));
    }
    signature
}

/// The invisible widget that holds the signature.
fn field_dictionary(flavour: Flavour, signature_number: u32, first_page: u32) -> (r: Dict)
    ensures
        r.entries() == field_entries(flavour, signature_number, first_page),
{
    let mut field = Dict(Vec::new());
    field.append(b_t_type(), name_object(b_annot()));
    field.append(b_subtype(), name_object(b_widget()));
    field.append(b_ft(), name_object(b_sig()));
    let title = match flavour {
        Flavour::Signature => b_signature1(),
        Flavour::Timestamp => b_timestamp1(),
    };
    field.append(b_t(), Object::LiteralString(title));
    field.append(b_v(), Object::Reference(signature_number, 0));
    field.append(b_f(), Object::Number(b_n132()));
    let rect = vec![Object::Number(b_n0()), Object::Number(b_n0()), Object::Number(b_n0()), Object::Number(b_n0())];
    proof {
        crate::pdf::object::lemma_array_value(rect);
        assert(crate::pdf::object::values_of(rect@) =~= seq![Value::Number(w_n0()), Value::Number(w_n0()),
            Value::Number(w_n0()), Value::Number(w_n0())]);
    }
    field.append(b_rect(), Object::Array(rect));
    field.append(b_p(), Object::Reference(first_page, 0));
    proof {
        assert(field.entries() =~= field_entries(flavour, signature_number, first_page));
    }
    field
}

/// The catalogue with the form added, written out.
fn catalogue_body(root: Dict, field_number: u32) -> (r: Vec<u8>)
    ensures
        r@ == catalogue_written(root.entries(), field_number),
{
    let mut root = root;
    let mut form = Dict(Vec::new());
    let fields = vec![Object::Reference(field_number, 0)];
    proof {
        crate::pdf::object::lemma_array_value(fields);
        assert(crate::pdf::object::values_of(fields@) =~= seq![Value::Reference(field_number, 0)]);
    }
    form.append(b_fields(), Object::Array(fields));
    form.append(b_sigflags(), Object::Number(b_n3()));
    proof {
        assert(form.entries() =~= acroform(field_number)->Dict_0);
    }
    let aw = b_acroform();
    root.set(aw.as_slice(), Object::Dict(form));
    let mut body: Vec<u8> = Vec::new();
    let whole = Object::Dict(root);
    crate::pdf::reader::write_object(&mut body, &whole);
    body
}

/// The page with the widget added to its annotations, written out.
fn page_body(file: &File, page: Dict, field_number: u32) -> (r: Vec<u8>)
    ensures
        r@ == page_written(file.source(), file.rows(), page.entries(), field_number),
{
    let mut page = page;
    let annots_word = b_annots();
    let ghost expected = annotations(file.source(), file.rows(), page.entries());
    let mut annots: Vec<Object> = match page.get(annots_word.as_slice()) {
        Some(a) => match file.resolve(a) {
            Ok(Object::Array(items)) => {
                proof {
                    crate::pdf::object::lemma_array_value(items);
                }
                items
            },
            Ok(other) => {
                proof {
                    assert(!(other.value() is Array));
                }
                Vec::new()
            },
            Err(_) => Vec::new(),
        },
        None => Vec::new(),
    };
    let ghost before_annots = crate::pdf::object::values_of(annots@);
    proof {
        assert(before_annots =~= expected);
    }
    annots.push(Object::Reference(field_number, 0));
    proof {
        crate::pdf::object::lemma_array_value(annots);
        assert(crate::pdf::object::values_of(annots@) =~= before_annots.push(Value::Reference(field_number, 0)));
    }
    let new_annots = Object::Array(annots);
    page.set(annots_word.as_slice(), new_annots);
    let mut body: Vec<u8> = Vec::new();
    let whole = Object::Dict(page);
    crate::pdf::reader::write_object(&mut body, &whole);
    body
}

/// The numbers the two new objects take: the next two after the highest.
fn new_numbers(file: &File) -> (r: Result<(u32, u32)>)
    ensures
        top_number(file.rows()) + 2 > u32::MAX ==> r matches Err(PdfError::InvalidArgument(_)),
        top_number(file.rows()) + 2 <= u32::MAX ==> r == Ok::<(u32, u32), PdfError>(
            ((top_number(file.rows()) + 1) as u32, (top_number(file.rows()) + 2) as u32)),
{
    let numbers = file.numbers();
    let top: u64 = if numbers.len() == 0 { 0 } else { numbers[numbers.len() - 1] as u64 };
    proof {
        let rows = file.rows();
        if rows.len() > 0 {
            assert(numbers@[numbers@.len() - 1] == rows.last().0);
        }
    }
    if top + 2 > 4294967295u64 {
        return Err(PdfError::InvalidArgument(String::from_str("the file has no room for another object")));
    }
    Ok(((top + 1) as u32, (top + 2) as u32))
}

/// The catalogue's number and its dictionary.
fn catalogue(file: &File) -> (r: Result<(u32, Dict)>)
    ensures
        match lookup(file.trailer_entries(), word_root()) {
            Some(Value::Reference(n, _)) => match object_at(file.source(), file.rows(), n) {
                Ok((Value::Dict(d), _)) => r matches Ok((m, e)) && m == n && e.entries() == d,
                _ => r matches Err(PdfError::InvalidArgument(_)),
            },
            _ => r matches Err(PdfError::InvalidArgument(_)),
        },
{
    let root_word = vec![82u8, 111u8, 111u8, 116u8];
    proof {
        assert(root_word@ =~= word_root());
    }
    let root_number: u32 = match file.trailer().get(root_word.as_slice()) {
        Some(Object::Reference(n, _)) => *n,
        _ => {
            return Err(PdfError::InvalidArgument(String::from_str("the file has no catalogue")));
        },
    };
    match file.object(root_number) {
        Ok(Object::Dict(d)) => Ok((root_number, d)),
        _ => Err(PdfError::InvalidArgument(String::from_str("the catalogue cannot be read"))),
    }
}

/// A page's dictionary.
fn page_dictionary(file: &File, number: u32) -> (r: Result<Dict>)
    ensures
        match object_at(file.source(), file.rows(), number) {
            Ok((Value::Dict(d), _)) => r matches Ok(e) && e.entries() == d,
            _ => r matches Err(PdfError::InvalidArgument(_)),
        },
{
    match file.object(number) {
        Ok(Object::Dict(d)) => Ok(d),
        _ => Err(PdfError::InvalidArgument(String::from_str("that page cannot be read"))),
    }
}

/// Everything that changes and everything that is added, each object as its
/// number and its written body.
fn pieces(file: &File, flavour: Flavour, name: &str, reason: &str, location: &str, when: &[u8])
    -> (r: Result<(Vec<(u32, Vec<u8>)>, Vec<(u32, Vec<u8>)>)>)
    ensures
        match prepared_pieces(file.source(), file.rows(), file.trailer_entries(), flavour, name.spec_bytes(),
            reason.spec_bytes(), location.spec_bytes(), when@) {
            Ok((reps, extra)) => r matches Ok((a, b)) && crate::pdf::reader::bodies(a@) == reps
                && crate::pdf::reader::bodies(b@) == extra,
            Err(f) => r matches Err(e) && crate::pdf::object::reports(f, e),
        },
{
    reveal(prepared_pieces);
    let (signature_number, field_number) = match new_numbers(file) {
        Ok(p) => p,
        Err(e) => {
            return Err(e);
        },
    };
    let first_page = match page_number(file, 0) {
        Ok(p) => p,
        Err(e) => {
            return Err(e);
        },
    };
    let (root_number, root) = match catalogue(file) {
        Ok(c) => c,
        Err(e) => {
            return Err(e);
        },
    };
    let page = match page_dictionary(file, first_page) {
        Ok(p) => p,
        Err(e) => {
            return Err(e);
        },
    };
    let root_bytes = catalogue_body(root, field_number);
    let page_bytes = page_body(file, page, field_number);

    let signature = signature_dictionary(flavour, name, reason, location, when);
    let mut signature_body: Vec<u8> = Vec::new();
    let signature_object = Object::Dict(signature);
    crate::pdf::reader::write_object(&mut signature_body, &signature_object);

    let field = field_dictionary(flavour, signature_number, first_page);
    let mut field_body: Vec<u8> = Vec::new();
    let field_object = Object::Dict(field);
    crate::pdf::reader::write_object(&mut field_body, &field_object);

    let replacements = vec![(root_number, root_bytes), (first_page, page_bytes)];
    let extra = vec![(signature_number, signature_body), (field_number, field_body)];
    proof {
        assert(crate::pdf::reader::bodies(replacements@) =~= seq![(root_number, root_bytes@),
            (first_page, page_bytes@)]);
        assert(crate::pdf::reader::bodies(extra@) =~= seq![(signature_number, signature_body@),
            (field_number, field_body@)]);
    }
    Ok((replacements, extra))
}

/// Write the file with a hole in it, and everything a reader needs to find
/// the hole: a signature dictionary with room reserved, the invisible field
/// that holds it, the catalogue's form and the first page's widget.
pub fn prepare(file: &File, flavour: Flavour, name: &str, reason: &str, location: &str, when: &[u8]) -> (r: Result<Vec<u8>>)
    ensures
        match prepared(file.source(), file.rows(), file.trailer_entries(), flavour, name.spec_bytes(),
            reason.spec_bytes(), location.spec_bytes(), when@) {
            Ok(b) => r matches Ok(v) && v@ == b,
            Err(f) => r matches Err(e) && crate::pdf::object::reports(f, e),
        },
{
    let (replacements, extra) = match pieces(file, flavour, name, reason, location, when) {
        Ok(p) => p,
        Err(e) => {
            return Err(e);
        },
    };
    let no_edits = Dict(Vec::new());
    proof {
        assert(no_edits.entries() =~= Seq::<(Seq<u8>, Value)>::empty());
    }
    let prepared = match file.rewrite_adding(replacements.as_slice(), extra.as_slice(), &no_edits) {
        Ok(p) => p,
        Err(e) => {
            return Err(e);
        },
    };
    checked(prepared)
}

/// The prepared file, kept only if the range its placeholder gives covers it.
fn checked(prepared: Vec<u8>) -> (r: Result<Vec<u8>>)
    ensures
        match holed(prepared@) {
            Ok(b) => r matches Ok(v) && v@ == b,
            Err(f) => r matches Err(e) && crate::pdf::object::reports(f, e),
        },
{
    let range = match find_placeholder(prepared.as_slice()) {
        Ok(r) => r,
        Err(e) => {
            return Err(e);
        },
    };
    let n = prepared.len();
    proof {
        lemma_first_hole(prepared@, 0);
        assert(n == prepared@.len());
    }
    if !range.covers_everything() {
        return Err(PdfError::Internal(String::from_str("the prepared file's byte range does not cover it")));
    }
    Ok(prepared)
}


/// The placeholder a prepared file holds, as the range around it.
pub open spec fn placeholder_in(b: Seq<u8>) -> Option<ByteRange> {
    match first_hole(b, 0) {
        Some(open) => Some(ByteRange {
            hole_at: open as usize,
            hole_len: (zeros_from(b, open + 1) + 2) as usize,
            total: b.len() as usize,
        }),
        None => None,
    }
}

/// What a signature over `w` covers: everything before the hole and after it.
pub open spec fn covered_digest(w: Seq<u8>, range: ByteRange) -> Seq<u8> {
    sha256(w.subrange(0, range.hole_at as int) + w.subrange(range.spans()[2], range.spans()[2] + range.spans()[3]))
}

/// Whether the digest of `w` around the hole can be taken at all.
pub open spec fn digest_in_bounds(w: Seq<u8>, range: ByteRange) -> bool {
    range.hole_at <= w.len() && range.spans()[2] + range.spans()[3] <= w.len()
}

/// The largest file whose `/ByteRange` numbers fit the ten digits written
/// for them, plus one.
pub open spec fn range_limit() -> int { 10_000_000_000 }

/// Patching the ten-digit runs keeps the file's length.
proof fn lemma_patched_len(s: Seq<u8>, cursor: int, values: Seq<int>, k: int)
    requires
        0 <= cursor <= s.len(),
        forall|i: int| 0 <= i < values.len() ==> 0 <= #[trigger] values[i] < 10_000_000_000,
    ensures
        patched(s, cursor, values, k).0.len() == s.len(),
    decreases values.len() - k,
{
    if 0 <= k < values.len() {
        lemma_past_bounds(s, cursor);
        let start = past_non_digits(s, cursor);
        let end = past_digits(s, start);
        if end - start == 10 {
            assert(pow10(10) == 10_000_000_000) by {
                reveal_with_fuel(pow10, 11);
            }
            lemma_decimal_len(values[k] as nat, 10);
            let next = s.subrange(0, start) + ten_digits(values[k] as nat) + s.subrange(end, s.len() as int);
            assert(next.len() == s.len());
            lemma_patched_len(next, end, values, k + 1);
        }
    }
}

/// A byte found is one at or after where the search began, inside the file.
proof fn lemma_byte_from_bounds(s: Seq<u8>, b: u8, from: int)
    ensures
        crate::pdf::object::byte_from(s, b, from) matches Some(o) ==> from <= o < s.len(),
    decreases s.len() - from,
{
    if 0 <= from < s.len() && s[from] != b {
        lemma_byte_from_bounds(s, b, from + 1);
    }
}

/// Writing the byte range keeps the file's length.
proof fn lemma_byte_range_written_len(s: Seq<u8>, range: ByteRange)
    requires
        forall|i: int| 0 <= i < 4 ==> #[trigger] range.spans()[i] < 10_000_000_000,
    ensures
        byte_range_written(s, range).0.len() == s.len(),
{
    match first_occurrence(s, word_byterange(), 0) {
        None => {},
        Some(at) => match crate::pdf::object::byte_from(s, 91, at) {
            None => {},
            Some(open) => {
                lemma_byte_from_bounds(s, 91, at);
                assert forall|i: int| 0 <= i < range.spans().len() implies 0 <= #[trigger] range.spans()[i] < 10_000_000_000 by {
                    assert(range.spans().len() == 4);
                }
                lemma_patched_len(s, open + 1, range.spans(), 0);
            },
        },
    }
}

/// What sealing a prepared file `b` answers, given what `produce` made of its
/// digest.
pub open spec fn sealed_outcome<F: Fn(&[u8]) -> Result<Vec<u8>>>(b: Seq<u8>, produce: F, r: Result<Vec<u8>>) -> bool {
    if b.len() >= range_limit() {
        r matches Err(PdfError::Internal(_))
    } else {
        match placeholder_in(b) {
            None => r matches Err(PdfError::InvalidArgument(_)),
            Some(range) => {
                let w = byte_range_written(b, range);
                if !w.1 {
                    r matches Err(PdfError::Internal(_))
                } else if !digest_in_bounds(w.0, range) {
                    r matches Err(PdfError::InvalidArgument(_))
                } else {
                    exists|d: &[u8], answer: Result<Vec<u8>>| {
                        &&& d@ == covered_digest(w.0, range)
                        &&& #[trigger] produce.ensures((d,), answer)
                        &&& match answer {
                            Err(e) => r == Err::<Vec<u8>, PdfError>(e),
                            Ok(blob) => if fits(range, blob@.len()) {
                                r matches Ok(out) && out@ == filled(w.0, range, blob@)
                            } else {
                                r matches Err(PdfError::Unsupported(_))
                            },
                        }
                    }
                }
            },
        }
    }
}

/// Write the byte range of a prepared file, digest it, and fill the hole with
/// whatever `produce` makes of the digest.
pub fn seal_prepared<F: Fn(&[u8]) -> Result<Vec<u8>>>(sealed: Vec<u8>, produce: F) -> (r: Result<Vec<u8>>)
    requires
        forall|d: &[u8]| produce.requires((d,)),
    ensures
        sealed_outcome(sealed@, produce, r),
{
    let mut sealed = sealed;
    let ghost b = sealed@;
    if sealed.len() as u64 >= 10_000_000_000u64 {
        return Err(PdfError::Internal(String::from_str("the file is too large for its byte range to be written")));
    }
    let range = match find_placeholder(sealed.as_slice()) {
        Ok(range) => range,
        Err(e) => { return Err(e); },
    };
    proof {
        lemma_first_hole(b, 0);
        assert(range.hole_at + range.hole_len <= b.len());
        assert forall|i: int| 0 <= i < 4 implies #[trigger] range.spans()[i] < 10_000_000_000 by {}
    }
    match write_byte_range(sealed.as_mut_slice(), &range) {
        Ok(()) => {},
        Err(e) => { return Err(e); },
    }
    let ghost w = sealed@;
    let digest = match digest_of(sealed.as_slice(), &range) {
        Ok(d) => d,
        Err(e) => { return Err(e); },
    };
    let d = digest.as_slice();
    let answer = produce(d);
    proof {
        assert(produce.ensures((d,), answer));
    }
    let blob = match answer {
        Ok(blob) => blob,
        Err(e) => { return Err(e); },
    };
    proof {
        lemma_byte_range_written_len(b, range);
        assert(w.len() == b.len());
    }
    match fill_placeholder(sealed.as_mut_slice(), &range, blob.as_slice()) {
        Ok(()) => {},
        Err(e) => { return Err(e); },
    }
    Ok(sealed)
}

/// Prepare the file, write its byte range, digest it, and fill the hole with
/// whatever `produce` makes of the digest: a signature, or a timestamp token.
///
/// Every step but `produce` is this library's; what `produce` answers is put
/// in as it came, and an error from it is the answer.
pub fn seal_with<F: Fn(&[u8]) -> Result<Vec<u8>>>(
    file: &File,
    flavour: Flavour,
    name: &str,
    reason: &str,
    location: &str,
    when: &[u8],
    produce: F,
) -> (r: Result<Vec<u8>>)
    requires
        forall|d: &[u8]| produce.requires((d,)),
    ensures
        match prepared(file.source(), file.rows(), file.trailer_entries(), flavour, name.spec_bytes(),
            reason.spec_bytes(), location.spec_bytes(), when@) {
            Err(f) => r matches Err(e) && crate::pdf::object::reports(f, e),
            Ok(b) => sealed_outcome(b, produce, r),
        },
{
    let sealed = prepare(file, flavour, name, reason, location, when)?;
    seal_prepared(sealed, produce)
}

/// The name a signature is made under: the one asked for, or else the
/// certificate's subject, or else nothing.
pub open spec fn signer_name(about: Reason, subject: Option<Seq<char>>) -> Seq<char> {
    if about.name@.len() > 0 {
        about.name@
    } else {
        match subject {
            Some(s) => s,
            None => Seq::empty(),
        }
    }
}

/// Sign a file: a signature dictionary over everything but its own
/// contents, filled with what `signer` makes of the digest.
///
/// `subject` is the signing certificate's subject, used when `about` names
/// nobody; `when` is the signing time as a PDF date.
pub fn sign<F: Fn(&[u8]) -> Result<Vec<u8>>>(
    file: &File,
    subject: Option<&str>,
    about: &Reason,
    when: &[u8],
    signer: F,
) -> (r: Result<Vec<u8>>)
    requires
        forall|d: &[u8]| signer.requires((d,)),
    ensures
        match prepared(file.source(), file.rows(), file.trailer_entries(), Flavour::Signature,
            vstd::utf8::encode_utf8(signer_name(*about, match subject { Some(s) => Some(s@), None => None })),
            vstd::utf8::encode_utf8(about.reason@), vstd::utf8::encode_utf8(about.location@), when@) {
            Err(f) => r matches Err(e) && crate::pdf::object::reports(f, e),
            Ok(b) => sealed_outcome(b, signer, r),
        },
{
    let asked = about.name.as_str();
    let name: &str = if !asked.is_empty() {
        asked
    } else {
        match subject {
            Some(s) => s,
            None => "",
        }
    };
    proof {
        reveal_strlit("");
    }
    seal_with(file, Flavour::Signature, name, about.reason.as_str(), about.location.as_str(), when, signer)
}

/// A document timestamp: the same shape as a signature, filled by an
/// authority — `ask` sends it the digest and returns its token.
pub fn timestamp<F: Fn(&[u8]) -> Result<Vec<u8>>>(file: &File, when: &[u8], ask: F) -> (r: Result<Vec<u8>>)
    requires
        forall|d: &[u8]| ask.requires((d,)),
    ensures
        match prepared(file.source(), file.rows(), file.trailer_entries(), Flavour::Timestamp,
            Seq::empty(), Seq::empty(), Seq::empty(), when@) {
            Err(f) => r matches Err(e) && crate::pdf::object::reports(f, e),
            Ok(b) => sealed_outcome(b, ask, r),
        },
{
    proof {
        reveal_strlit("");
    }
    seal_with(file, Flavour::Timestamp, "", "", "", when, ask)
}

} // verus!
