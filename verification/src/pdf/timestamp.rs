//! A timestamp from an authority that is not us (RFC 3161).
//!
//! What leaves the machine is a SHA-256 digest of the document — thirty-two
//! bytes — and only to an address somebody typed. This module frames the
//! request, reads the answer, and takes apart the address; the socket itself
//! is opened by the application.

use vstd::prelude::*;
use crate::error::{PdfError, Result};
use crate::text::{extend, chars_of, first_char_from, last_char_before, find_char, rfind_char, occurs_at, bytes_at};
use crate::pdf::sign::first_occurrence;
use crate::pdf::object::byte_from;

verus! {

/// The minimal big-endian bytes of a number: none for zero.
pub open spec fn be_bytes(n: nat) -> Seq<u8>
    decreases n,
{
    if n == 0 { seq![] } else { be_bytes(n / 256).push((n % 256) as u8) }
}

/// The value of big-endian bytes.
pub open spec fn be_value(s: Seq<u8>) -> nat
    decreases s.len(),
{
    if s.len() == 0 { 0 } else { be_value(s.drop_last()) * 256 + s.last() as nat }
}

/// DER length: short form under 128, long form above.
pub open spec fn der_length(n: nat) -> Seq<u8> {
    if n < 128 { seq![n as u8] } else { seq![(0x80 + be_bytes(n).len()) as u8] + be_bytes(n) }
}

/// One DER tag-length-value.
pub open spec fn der_tlv(tag: u8, body: Seq<u8>) -> Seq<u8> {
    seq![tag] + der_length(body.len()) + body
}

/// 2.16.840.1.101.3.4.2.1 — SHA-256, as DER.
pub open spec fn sha256_oid() -> Seq<u8> {
    seq![0x60u8, 0x86, 0x48, 0x01, 0x65, 0x03, 0x04, 0x02, 0x01]
}

/// `TimeStampReq ::= SEQUENCE { version 1, messageImprint, certReq TRUE }`.
pub open spec fn timestamp_request(digest: Seq<u8>) -> Seq<u8> {
    let algorithm = der_tlv(0x30, der_tlv(0x06, sha256_oid()) + der_tlv(0x05, seq![]));
    let imprint = der_tlv(0x30, algorithm + der_tlv(0x04, digest));
    der_tlv(0x30, der_tlv(0x02, seq![1u8]) + imprint + der_tlv(0x01, seq![0xFFu8]))
}

proof fn lemma_be_bytes_len(n: nat)
    ensures
        n < 0x1_0000_0000_0000_0000 ==> be_bytes(n).len() <= 8,
        n > 0 ==> be_bytes(n).len() >= 1,
    decreases n,
{
    if n > 0 {
        lemma_be_bytes_len(n / 256);
        if n / 256 > 0 {
            assert(n < 0x1_0000_0000_0000_0000 ==> n / 256 < 0x1_0000_0000_0000_00);
            lemma_be_bytes_short(n / 256);
        }
    }
}

proof fn lemma_be_bytes_short(n: nat)
    ensures
        n < 0x1_0000_0000_0000_00 ==> be_bytes(n).len() <= 7,
    decreases n,
{
    if n > 0 {
        lemma_be_bytes_short_k(n, 7);
        assert(pow256(7) == 0x1_0000_0000_0000_00) by {
            reveal_with_fuel(pow256, 8);
        }
    }
}

/// Fewer than 256^k needs at most k bytes.
proof fn lemma_be_bytes_short_k(n: nat, k: nat)
    ensures
        n < pow256(k) ==> be_bytes(n).len() <= k,
    decreases n,
{
    if n > 0 && k > 0 {
        lemma_be_bytes_short_k(n / 256, (k - 1) as nat);
        assert(n < pow256(k) ==> n / 256 < pow256((k - 1) as nat)) by {
            assert(pow256(k) == pow256((k - 1) as nat) * 256);
        }
    }
    if n > 0 && k == 0 {
        assert(pow256(0) == 1);
    }
}

pub open spec fn pow256(k: nat) -> nat
    decreases k,
{
    if k == 0 { 1 } else { pow256((k - 1) as nat) * 256 }
}

fn push_be(out: &mut Vec<u8>, n: usize)
    ensures
        final(out)@ == old(out)@ + be_bytes(n as nat),
    decreases n,
{
    if n == 0 {
        assert(old(out)@ + be_bytes(0) =~= old(out)@);
        return;
    }
    push_be(out, n / 256);
    out.push((n % 256) as u8);
    proof {
        assert(final_out_is(out@, old(out)@, n));
    }
}

spec fn final_out_is(now: Seq<u8>, before: Seq<u8>, n: usize) -> bool {
    now =~= before + be_bytes(n as nat)
}

/// DER length: short form under 128, long form above.
fn length(n: usize) -> (r: Vec<u8>)
    ensures
        r@ == der_length(n as nat),
{
    let mut out: Vec<u8> = Vec::new();
    if n < 0x80 {
        out.push(n as u8);
        assert(out@ =~= der_length(n as nat));
        return out;
    }
    let mut significant: Vec<u8> = Vec::new();
    push_be(&mut significant, n);
    proof {
        assert(significant@ =~= be_bytes(n as nat));
        lemma_be_bytes_short_k(n as nat, 8);
        assert(pow256(8) == 0x1_0000_0000_0000_0000) by {
            reveal_with_fuel(pow256, 9);
        }
    }
    out.push(0x80 | significant.len() as u8);
    proof {
        let k = significant.len() as u8;
        assert(k <= 8);
        assert(0x80u8 | k == 0x80u8 + k) by (bit_vector) requires k <= 8;
    }
    extend(&mut out, significant.as_slice());
    assert(out@ =~= der_length(n as nat));
    out
}

/// One DER tag-length-value.
pub fn tlv(tag: u8, body: &[u8]) -> (r: Vec<u8>)
    ensures
        r@ == der_tlv(tag, body@),
{
    let mut out: Vec<u8> = Vec::new();
    out.push(tag);
    let len = length(body.len());
    extend(&mut out, len.as_slice());
    extend(&mut out, body);
    assert(out@ =~= der_tlv(tag, body@));
    out
}

pub fn sequence(body: &[u8]) -> (r: Vec<u8>)
    ensures
        r@ == der_tlv(0x30, body@),
{
    tlv(0x30, body)
}

/// The DER of an RFC 3161 request for a SHA-256 digest.
pub fn request(digest: &[u8]) -> (r: Result<Vec<u8>>)
    ensures
        digest@.len() != 32 ==> (r matches Err(PdfError::InvalidArgument(m))
            && m@ == "a timestamp is asked for over a SHA-256 digest"@),
        digest@.len() == 32 ==> (r matches Ok(v) && v@ == timestamp_request(digest@)),
{
    if digest.len() != 32 {
        return Err(PdfError::InvalidArgument(String::from_str("a timestamp is asked for over a SHA-256 digest")));
    }
    let oid: [u8; 9] = [0x60, 0x86, 0x48, 0x01, 0x65, 0x03, 0x04, 0x02, 0x01];
    let empty: [u8; 0] = [];
    let mut inner = tlv(0x06, oid.as_slice());
    assert(oid@ =~= sha256_oid());
    let null = tlv(0x05, empty.as_slice());
    extend(&mut inner, null.as_slice());
    let algorithm = sequence(inner.as_slice());
    let mut imprint_body = algorithm;
    let octets = tlv(0x04, digest);
    extend(&mut imprint_body, octets.as_slice());
    let imprint = sequence(imprint_body.as_slice());
    let version_value: [u8; 1] = [1];
    let mut body = tlv(0x02, version_value.as_slice());
    extend(&mut body, imprint.as_slice());
    let truth: [u8; 1] = [0xFF];
    let cert_req = tlv(0x01, truth.as_slice());
    extend(&mut body, cert_req.as_slice());
    let out = sequence(body.as_slice());
    proof {
        assert(empty@ =~= Seq::<u8>::empty());
        assert(version_value@ =~= seq![1u8]);
        assert(truth@ =~= seq![0xFFu8]);
    }
    Ok(out)
}

/// A DER length at the front of `bytes`, and how many bytes encoded it.
pub open spec fn der_length_at(bytes: Seq<u8>) -> Option<(nat, nat)> {
    if bytes.len() == 0 {
        None
    } else if bytes[0] < 0x80 {
        Some((bytes[0] as nat, 1nat))
    } else {
        let count = (bytes[0] - 0x80) as nat;
        if count == 0 || count > 8 || bytes.len() < 1 + count {
            None
        } else if be_value(bytes.subrange(1, 1 + count as int)) > usize::MAX {
            None
        } else {
            Some((be_value(bytes.subrange(1, 1 + count as int)), 1 + count))
        }
    }
}

/// A DER length, and how many bytes encoded it.
pub fn read_length(bytes: &[u8]) -> (r: Option<(usize, usize)>)
    ensures
        match der_length_at(bytes@) {
            Some((v, n)) => r == Some((v as usize, n as usize)),
            None => r is None,
        },
{
    if bytes.len() == 0 {
        return None;
    }
    let first = bytes[0];
    if first < 0x80 {
        return Some((first as usize, 1));
    }
    let count: usize = (first & 0x7F) as usize;
    assert(first & 0x7F == first - 0x80) by (bit_vector) requires first >= 0x80;
    if count == 0 || count > 8 || bytes.len() < 1 + count {
        return None;
    }
    let mut value: usize = 0;
    let mut i: usize = 1;
    while i < 1 + count
        invariant
            1 <= i <= 1 + count,
            1 <= count <= 8,
            count == bytes@[0] - 0x80,
            1 + count <= bytes@.len(),
            value == be_value(bytes@.subrange(1, i as int)),
        decreases 1 + count - i,
    {
        proof {
            assert(bytes@.subrange(1, i + 1).drop_last() =~= bytes@.subrange(1, i as int));
            lemma_be_value_grows(bytes@.subrange(1, 1 + count as int), (i - 1) as int);
            assert(bytes@.subrange(1, 1 + count as int).subrange(0, i - 1) =~= bytes@.subrange(1, i as int));
            assert(bytes@.subrange(1, 1 + count as int).subrange(0, i as int) =~= bytes@.subrange(1, i + 1));
        }
        let times = match value.checked_mul(256) {
            Some(t) => t,
            None => return None,
        };
        let next = match times.checked_add(bytes[i] as usize) {
            Some(n) => n,
            None => return None,
        };
        value = next;
        i = i + 1;
    }
    Some((value, 1 + count))
}

/// A prefix's value never exceeds the whole's.
proof fn lemma_be_value_grows(s: Seq<u8>, k: int)
    requires
        0 <= k < s.len(),
    ensures
        be_value(s.subrange(0, k)) * 256 + s[k] <= be_value(s),
    decreases s.len(),
{
    if k == s.len() - 1 {
        assert(s.subrange(0, k) =~= s.drop_last());
    } else {
        lemma_be_value_grows(s.drop_last(), k);
        assert(s.drop_last().subrange(0, k) =~= s.subrange(0, k));
        assert(be_value(s) >= be_value(s.drop_last())) by (nonlinear_arith)
            requires be_value(s) == be_value(s.drop_last()) * 256 + s.last();
    }
}

/// The body of the field at the front of `bytes` with this tag, and how many
/// bytes it occupied whole.
pub open spec fn der_field(bytes: Seq<u8>, tag: u8) -> Option<(Seq<u8>, nat)> {
    if bytes.len() == 0 || bytes[0] != tag {
        None
    } else {
        match der_length_at(bytes.subrange(1, bytes.len() as int)) {
            None => None,
            Some((len, header)) => {
                let start = 1 + header;
                let end = start + len;
                if end > usize::MAX || end > bytes.len() { None } else { Some((bytes.subrange(start as int, end as int), end)) }
            },
        }
    }
}

/// The body of the first field, and how many bytes it occupied whole.
pub fn field(bytes: &[u8], tag: u8) -> (r: Option<(&[u8], usize)>)
    ensures
        match der_field(bytes@, tag) {
            Some((body, whole)) => r matches Some((b, w)) && b@ == body && w == whole,
            None => r is None,
        },
{
    if bytes.len() == 0 || bytes[0] != tag {
        return None;
    }
    let (len, header) = match read_length(&bytes[1..bytes.len()]) {
        Some(found) => found,
        None => return None,
    };
    let start: usize = 1 + header;
    let end = match start.checked_add(len) {
        Some(e) => e,
        None => return None,
    };
    if end > bytes.len() {
        return None;
    }
    Some((&bytes[start..end], end))
}

pub fn contents_of(bytes: &[u8], tag: u8) -> (r: Option<&[u8]>)
    ensures
        match der_field(bytes@, tag) {
            Some((body, _)) => r matches Some(b) && b@ == body,
            None => r is None,
        },
{
    match field(bytes, tag) {
        Some((body, _)) => Some(body),
        None => None,
    }
}

/// What an authority's answer yields: the token, or which step refused it
/// (0 not an answer, 1 no status, 2 no status value, 3 refused, 4 no token).
pub open spec fn token_of(response: Seq<u8>) -> core::result::Result<Seq<u8>, int> {
    match der_field(response, 0x30) {
        None => Err(0),
        Some((outer, _)) => match der_field(outer, 0x30) {
            None => Err(1),
            Some((status_body, status_len)) => match der_field(status_body, 0x02) {
                None => Err(2),
                Some((granted, _)) => {
                    let status: int = if granted.len() == 0 { 255 } else { granted[0] as int };
                    if status > 1 {
                        Err(3)
                    } else {
                        let rest = outer.subrange(status_len as int, outer.len() as int);
                        match der_field(rest, 0x30) {
                            None => Err(4),
                            Some((_, token_len)) => Ok(rest.subrange(0, token_len as int)),
                        }
                    }
                },
            },
        },
    }
}

/// The error each refusal is reported as.
pub open spec fn token_error(step: int, e: PdfError) -> bool {
    if step == 3 {
        e == PdfError::Unsupported("the timestamping authority refused to issue one")
    } else {
        e matches PdfError::InvalidArgument(m) && m@ == (if step == 0 { "that is not a timestamp answer"@ }
            else if step == 1 { "the answer carries no status"@ }
            else if step == 2 { "the status has no value"@ }
            else { "the answer carries no token"@ })
    }
}

/// The token out of an authority's answer. **The status is read before the
/// token**: a refusal is reported as a refusal, not as a malformed reply.
pub fn token_in(response: &[u8]) -> (r: Result<Vec<u8>>)
    ensures
        match token_of(response@) {
            Ok(token) => r matches Ok(v) && v@ == token,
            Err(step) => r matches Err(e) && token_error(step, e),
        },
{
    let outer = match contents_of(response, 0x30) {
        Some(o) => o,
        None => return Err(PdfError::InvalidArgument(String::from_str("that is not a timestamp answer"))),
    };
    let (status_body, status_len) = match field(outer, 0x30) {
        Some(f) => f,
        None => return Err(PdfError::InvalidArgument(String::from_str("the answer carries no status"))),
    };
    let granted = match field(status_body, 0x02) {
        Some((g, _)) => g,
        None => return Err(PdfError::InvalidArgument(String::from_str("the status has no value"))),
    };
    let status: u8 = if granted.len() == 0 { 255 } else { granted[0] };
    if status > 1 {
        return Err(PdfError::Unsupported("the timestamping authority refused to issue one"));
    }
    let rest = &outer[status_len..outer.len()];
    let token_len = match field(rest, 0x30) {
        Some((_, n)) => n,
        None => return Err(PdfError::InvalidArgument(String::from_str("the answer carries no token"))),
    };
    let token = &rest[0..token_len];
    Ok(vstd::slice::slice_to_vec(token))
}

/// A port number as Rust reads one: an optional `+`, then decimal digits,
/// at most 65535.
pub open spec fn digits_value(s: Seq<char>) -> nat
    decreases s.len(),
{
    if s.len() == 0 { 0 } else { digits_value(s.drop_last()) * 10 + ((s.last() as u32) - ('0' as u32)) as nat }
}

pub open spec fn all_digits(s: Seq<char>) -> bool {
    forall|i: int| 0 <= i < s.len() ==> '0' <= #[trigger] s[i] <= '9'
}

pub open spec fn parse_port(s: Seq<char>) -> Option<u16> {
    let digits = if s.len() > 0 && s[0] == '+' { s.drop_first() } else { s };
    if digits.len() == 0 || !all_digits(digits) || digits_value(digits) > 65535 {
        None
    } else {
        Some(digits_value(digits) as u16)
    }
}

fn port_of(s: &Vec<char>, from: usize, to: usize) -> (r: Option<u16>)
    requires
        from <= to <= s@.len(),
    ensures
        r == parse_port(s@.subrange(from as int, to as int)),
{
    let ghost text = s@.subrange(from as int, to as int);
    let mut at = from;
    if at < to && s[at] == '+' {
        at = at + 1;
    }
    let ghost digits = s@.subrange(at as int, to as int);
    proof {
        if from < to && s@[from as int] == '+' {
            assert(digits =~= text.drop_first());
        } else {
            assert(digits =~= text);
        }
    }
    if at == to {
        return None;
    }
    let mut value: u32 = 0;
    let mut i = at;
    while i < to
        invariant
            at <= i <= to <= s@.len(),
            from <= at,
            text == s@.subrange(from as int, to as int),
            digits == (if text.len() > 0 && text[0] == '+' { text.drop_first() } else { text }),
            digits == s@.subrange(at as int, to as int),
            all_digits(s@.subrange(at as int, i as int)),
            value == digits_value(s@.subrange(at as int, i as int)),
            value <= 65535,
        decreases to - i,
    {
        let c = s[i];
        proof { assert(s@.subrange(at as int, i + 1).drop_last() =~= s@.subrange(at as int, i as int)); }
        if c < '0' || c > '9' {
            proof {
                assert(digits[i - at] == c);
                assert(!('0' <= digits[i - at] <= '9'));
                assert(!all_digits(digits));
                assert(parse_port(text) is None);
            }
            return None;
        }
        let d = (c as u32) - ('0' as u32);
        let next = value * 10 + d;
        if next > 65535 {
            proof { lemma_digits_grow(digits, (i - at) as int); assert(digits.subrange(0, i - at + 1) =~= s@.subrange(at as int, i + 1)); }
            return None;
        }
        value = next;
        i = i + 1;
    }
    proof { assert(s@.subrange(at as int, to as int) =~= digits); }
    Some(value as u16)
}

/// A prefix of digits is never worth more than the whole.
proof fn lemma_digits_grow(s: Seq<char>, k: int)
    requires
        0 <= k < s.len(),
    ensures
        !all_digits(s) || digits_value(s.subrange(0, k + 1)) <= digits_value(s),
    decreases s.len(),
{
    if k + 1 == s.len() {
        assert(s.subrange(0, k + 1) =~= s);
    } else {
        lemma_digits_grow(s.drop_last(), k);
        assert(s.drop_last().subrange(0, k + 1) =~= s.subrange(0, k + 1));
        if all_digits(s) {
            assert(all_digits(s.drop_last()));
            assert(digits_value(s) >= digits_value(s.drop_last())) by (nonlinear_arith)
                requires digits_value(s) == digits_value(s.drop_last()) * 10 + ((s.last() as u32) - ('0' as u32)) as nat,
                    '0' <= s.last();
        }
    }
}

/// How an address splits, if it is plainly `http://host[:port][/path]`.
pub open spec fn address_parts(a: Seq<char>) -> Option<(Seq<char>, u16, Seq<char>)> {
    let prefix = "http://"@;
    if a.len() < prefix.len() || a.subrange(0, prefix.len() as int) != prefix {
        None
    } else {
        let rest = a.subrange(prefix.len() as int, a.len() as int);
        let (host_part, path) = match first_char_from(rest, '/', 0) {
            Some(at) => (rest.subrange(0, at), rest.subrange(at, rest.len() as int)),
            None => (rest, "/"@),
        };
        if host_part.len() == 0 {
            None
        } else {
            match last_char_before(host_part, ':', host_part.len() as int) {
                Some(colon) => match parse_port(host_part.subrange(colon + 1, host_part.len() as int)) {
                    Some(port) => Some((host_part.subrange(0, colon), port, path)),
                    None => None,
                },
                None => Some((host_part, 80u16, path)),
            }
        }
    }
}

/// Host, port and path from an address.
///
/// Deliberately strict: an address that is not plainly `http://host/path` is
/// refused rather than guessed at, because guessing here means connecting
/// somewhere nobody asked for.
pub fn split(authority: &str) -> (r: Result<(String, u16, String)>)
    ensures
        match address_parts(authority@) {
            Some((host, port, path)) => r matches Ok((h, p, q)) && h@ == host && p == port && q@ == path,
            None => r matches Err(PdfError::InvalidArgument(_)),
        },
{
    let a = chars_of(authority);
    let prefix = chars_of("http://");
    proof { reveal_strlit("http://"); }
    let n = a.len();
    if n < 7 || !crate::text::chars_at(&a, &prefix, 0) {
        proof {
            if n >= 7 {
                assert(a@.subrange(0, 7) != prefix@);
            }
        }
        return Err(PdfError::InvalidArgument(String::from_str(
            "a timestamping address must begin with http:// — see the note on why https is not needed here")));
    }
    let ghost rest = a@.subrange(7, n as int);
    let slash = find_char(&a, '/', 7);
    let host_end: usize = match slash { Some(at) => at, None => n };
    proof { lemma_first_char_shift(a@, '/', 7); }
    if host_end == 7 {
        return Err(PdfError::InvalidArgument(String::from_str("that address has no host")));
    }
    let path: String = match slash {
        Some(at) => String::from_str(authority.substring_char(at, n)),
        None => {
            proof { reveal_strlit("/"); }
            String::from_str("/")
        },
    };
    let colon = rfind_char(&a, ':', host_end);
    proof {
        lemma_last_char_shift(a@, ':', 7, host_end as int);
        lemma_last_char_below(a@, ':', host_end as int);
    }
    proof {
        assert(rest.subrange(0, host_end - 7) =~= a@.subrange(7, host_end as int));
        if slash is None {
            assert(rest =~= a@.subrange(7, host_end as int));
        }
    }
    match colon {
        Some(c) if c >= 7 => {
            assert(c < host_end);
            assert(last_char_before(a@.subrange(7, host_end as int), ':', host_end - 7) == Some(c - 7));
            match port_of(&a, c + 1, host_end) {
                Some(port) => {
                    let host = String::from_str(authority.substring_char(7, c));
                    proof {
                        assert(a@.subrange(c + 1, host_end as int) =~= rest.subrange(0, host_end - 7).subrange(c - 7 + 1, host_end - 7));
                        assert(a@.subrange(7, c as int) =~= rest.subrange(0, host_end - 7).subrange(0, c - 7));
                    }
                    Ok((host, port, path))
                },
                None => {
                    proof {
                        assert(a@.subrange(c + 1, host_end as int) =~= rest.subrange(0, host_end - 7).subrange(c - 7 + 1, host_end - 7));
                    }
                    Err(PdfError::InvalidArgument(String::from_str("that is not a port number")))
                },
            }
        },
        _ => {
            let host = String::from_str(authority.substring_char(7, host_end));
            proof { assert(a@.subrange(7, host_end as int) =~= rest.subrange(0, host_end - 7)); }
            Ok((host, 80, path))
        },
    }
}

proof fn lemma_first_char_shift(s: Seq<char>, c: char, k: int)
    requires
        0 <= k <= s.len(),
    ensures
        match first_char_from(s, c, k) {
            Some(i) => k <= i < s.len() && first_char_from(s.subrange(k, s.len() as int), c, 0) == Some(i - k),
            None => first_char_from(s.subrange(k, s.len() as int), c, 0) is None,
        },
{
    lemma_first_char_shift_from(s, c, k, k);
}

proof fn lemma_first_char_shift_from(s: Seq<char>, c: char, k: int, from: int)
    requires
        0 <= k <= from <= s.len(),
    ensures
        match first_char_from(s, c, from) {
            Some(i) => from <= i < s.len() && first_char_from(s.subrange(k, s.len() as int), c, from - k) == Some(i - k),
            None => first_char_from(s.subrange(k, s.len() as int), c, from - k) is None,
        },
    decreases s.len() - from,
{
    if from < s.len() && s[from] != c {
        lemma_first_char_shift_from(s, c, k, from + 1);
    }
}

proof fn lemma_last_char_shift(s: Seq<char>, c: char, k: int, end: int)
    requires
        0 <= k <= end <= s.len(),
    ensures
        match last_char_before(s, c, end) {
            Some(i) => i >= k ==> last_char_before(s.subrange(k, end), c, end - k) == Some(i - k),
            None => true,
        },
        (last_char_before(s, c, end) is None || last_char_before(s, c, end)->0 < k)
            ==> last_char_before(s.subrange(k, end), c, end - k) is None,
    decreases end,
{
    lemma_last_char_shift_to(s, c, k, end, end);
}

proof fn lemma_last_char_shift_to(s: Seq<char>, c: char, k: int, end: int, at: int)
    requires
        0 <= k <= at <= end <= s.len(),
    ensures
        match last_char_before(s, c, at) {
            Some(i) => i >= k ==> last_char_before(s.subrange(k, end), c, at - k) == Some(i - k),
            None => true,
        },
        (last_char_before(s, c, at) is None || last_char_before(s, c, at)->0 < k)
            ==> last_char_before(s.subrange(k, end), c, at - k) is None,
    decreases at,
{
    if at > k && s[at - 1] != c {
        lemma_last_char_shift_to(s, c, k, end, at - 1);
    }
    if at > 0 && at <= k {
        lemma_last_char_below(s, c, at);
    }
}

proof fn lemma_last_char_below(s: Seq<char>, c: char, at: int)
    requires
        0 <= at <= s.len(),
    ensures
        last_char_before(s, c, at) is Some ==> 0 <= last_char_before(s, c, at)->0 < at,
    decreases at,
{
    if at > 0 && s[at - 1] != c {
        lemma_last_char_below(s, c, at - 1);
    }
}

/// Where the first `needle` at or after `from` starts.
fn find_from(hay: &[u8], needle: &[u8], from: usize) -> (r: Option<usize>)
    ensures
        match first_occurrence(hay@, needle@, from as int) {
            Some(i) => r == Some(i as usize),
            None => r is None,
        },
{
    let mut at = from;
    while at < hay.len()
        invariant
            from <= at,
            first_occurrence(hay@, needle@, at as int) == first_occurrence(hay@, needle@, from as int),
        decreases hay.len() - at,
    {
        if bytes_at(hay, needle, at) {
            return Some(at);
        }
        at = at + 1;
    }
    None
}

/// The blank line that ends an HTTP head.
pub open spec fn head_end() -> Seq<u8> { seq![13u8, 10u8, 13u8, 10u8] }

/// What a success says in its status line.
pub open spec fn ok_status() -> Seq<u8> { seq![32u8, 50u8, 48u8, 48u8] }

/// An answer's status line: everything before its first carriage return, or
/// nothing when it has none.
pub open spec fn status_line(answer: Seq<u8>) -> Seq<u8> {
    match byte_from(answer, 13, 0) {
        Some(end) => answer.subrange(0, end),
        None => Seq::empty(),
    }
}

/// The token in an authority's HTTP answer: past the head, from a `200`.
///
/// An answer with no end to its head, or whose status is not a success, is
/// refused naming the host; otherwise the body is read as
/// [`token_in`] reads it.
pub fn token_from_answer(host: &str, answer: &[u8]) -> (r: Result<Vec<u8>>)
    ensures
        match first_occurrence(answer@, head_end(), 0) {
            None => r matches Err(PdfError::InvalidArgument(_)),
            Some(at) => if first_occurrence(status_line(answer@), ok_status(), 0) is None {
                r matches Err(PdfError::InvalidArgument(_))
            } else {
                match token_of(answer@.subrange(at + 4, answer@.len() as int)) {
                    Ok(token) => r matches Ok(v) && v@ == token,
                    Err(step) => r matches Err(e) && token_error(step, e),
                }
            },
        },
{
    let blank = vec![13u8, 10u8, 13u8, 10u8];
    assert(blank@ =~= head_end());
    let at = match find_from(answer, blank.as_slice(), 0) {
        Some(at) => at,
        None => {
            let mut m = String::from_str(host);
            m.append(" answered with nothing");
            return Err(PdfError::InvalidArgument(m));
        },
    };
    proof {
        crate::pdf::sign::lemma_first_occurrence_bounds(answer@, head_end(), 0);
    }
    // The status line, up to the first carriage return.
    let mut end: usize = 0;
    while end < answer.len() && answer[end] != 13
        invariant
            end <= answer@.len(),
            byte_from(answer@, 13, end as int) == byte_from(answer@, 13, 0),
        decreases answer.len() - end,
    {
        end = end + 1;
    }
    let mut status: Vec<u8> = Vec::new();
    if end < answer.len() {
        let mut i: usize = 0;
        while i < end
            invariant
                end < answer@.len(),
                i <= end,
                status@ == answer@.subrange(0, i as int),
            decreases end - i,
        {
            status.push(answer[i]);
            i = i + 1;
            proof { assert(status@ =~= answer@.subrange(0, i as int)); }
        }
    }
    proof {
        assert(status@ =~= status_line(answer@));
    }
    let success = vec![32u8, 50u8, 48u8, 48u8];
    assert(success@ =~= ok_status());
    if find_from(status.as_slice(), success.as_slice(), 0).is_none() {
        let mut m = String::from_str(host);
        m.append(" said: ");
        let said = crate::pdf::object::lossy_text(status.as_slice());
        m.append(said.as_str());
        return Err(PdfError::InvalidArgument(m));
    }
    let mut body: Vec<u8> = Vec::new();
    let mut i: usize = at + 4;
    while i < answer.len()
        invariant
            at + 4 <= i <= answer@.len(),
            body@ == answer@.subrange(at + 4, i as int),
        decreases answer.len() - i,
    {
        body.push(answer[i]);
        i = i + 1;
        proof { assert(body@ =~= answer@.subrange(at + 4, i as int)); }
    }
    token_in(body.as_slice())
}

} // verus!
