//! PDF's own encryption — a password another reader will ask for.
//!
//! Revision 6 only (`/V 5 /R 6`, AES-256): the handler PDF 2.0 defines and
//! every current reader supports.

use aes::cipher::{BlockEncrypt, BlockEncryptMut, KeyInit, KeyIvInit};
use vstd::prelude::*;
use crate::error::{PdfError, Result};
use crate::pdf::hashing::{sha256, sha256_of, sha384, sha384_of, sha512, sha512_of};
use crate::pdf::object::{lookup, Dict, Object, Value};
use crate::pdf::reader::{bodies, object_at, rewritten, stream_written, written, File};
use crate::pdf::sign::top_number;
use crate::pdf::strings::{from_hex, hex, hex_decoded, hex_text, unescape, unescaped};

verus! {

/// What a reader is allowed to do with a secured document.
///
/// The bits are ISO 32000-2 Table 22: a **set** bit permits. Bits 1-2 and 7-8
/// are reserved and must be 0, bits 13-32 must be 1.
#[derive(Debug, Clone, Copy, PartialEq, Eq, Structural)]
pub struct Permissions(pub u32);

/// Whether a permission bit is set, counting bits from 1 as the standard does.
pub open spec fn has_bit(p: u32, bit: u32) -> bool {
    p & (1u32 << ((bit - 1) as u32)) != 0
}

/// A permission word with one bit set or cleared.
pub open spec fn with_bit(p: u32, bit: u32, allowed: bool) -> u32 {
    if allowed { p | (1u32 << ((bit - 1) as u32)) } else { p & !(1u32 << ((bit - 1) as u32)) }
}

/// The words that say what is forbidden, in the order the tool names them.
pub open spec fn forbidden_words(p: u32) -> Seq<Seq<char>> {
    let a = if !has_bit(p, 3) { seq!["printing"@] } else { seq![] };
    let b = if !has_bit(p, 5) { seq!["copying"@] } else { seq![] };
    let c = if !has_bit(p, 4) { seq!["editing"@] } else { seq![] };
    let d = if !has_bit(p, 6) { seq!["annotating"@] } else { seq![] };
    a + b + c + d
}

/// `words` joined with `", no "` between them.
pub open spec fn joined_with_no(words: Seq<Seq<char>>) -> Seq<char>
    decreases words.len(),
{
    if words.len() == 0 {
        seq![]
    } else if words.len() == 1 {
        words[0]
    } else {
        joined_with_no(words.drop_last()) + ", no "@ + words.last()
    }
}

/// What a permission word allows, in words.
pub open spec fn permissions_description(p: u32) -> Seq<char> {
    let words = forbidden_words(p);
    if words.len() == 0 {
        "everything permitted"@
    } else if words.len() == 4 {
        "reading only"@
    } else {
        "no "@ + joined_with_no(words)
    }
}

impl Permissions {
    /// Everything permitted.
    pub fn all() -> (r: Self)
        ensures
            r.0 == 0xFFFF_FFFCu32,
    {
        Permissions(0xFFFF_FFFC)
    }

    /// Nothing but reading it on screen.
    pub fn read_only() -> (r: Self)
        ensures
            r.0 == 0xFFFF_F0C0u32,
    {
        Permissions(0xFFFF_F0C0)
    }

    fn has(self, bit: u32) -> (r: bool)
        requires
            1 <= bit <= 32,
        ensures
            r == has_bit(self.0, bit),
    {
        self.0 & (1u32 << (bit - 1)) != 0
    }

    pub fn may_print(self) -> (r: bool)
        ensures
            r == has_bit(self.0, 3),
    {
        self.has(3)
    }

    pub fn may_edit(self) -> (r: bool)
        ensures
            r == has_bit(self.0, 4),
    {
        self.has(4)
    }

    pub fn may_copy(self) -> (r: bool)
        ensures
            r == has_bit(self.0, 5),
    {
        self.has(5)
    }

    pub fn may_annotate(self) -> (r: bool)
        ensures
            r == has_bit(self.0, 6),
    {
        self.has(6)
    }

    /// What is allowed, in words — the same sentences the tool that sets
    /// them uses.
    pub fn describe(self) -> (r: String)
        ensures
            r@ == permissions_description(self.0),
    {
        let mut words: Vec<&'static str> = Vec::new();
        proof {
            reveal_strlit("printing");
            reveal_strlit("copying");
            reveal_strlit("editing");
            reveal_strlit("annotating");
        }
        let ghost mut spec_words: Seq<Seq<char>> = seq![];
        if !self.may_print() {
            words.push("printing");
        }
        if !self.may_copy() {
            words.push("copying");
        }
        if !self.may_edit() {
            words.push("editing");
        }
        if !self.may_annotate() {
            words.push("annotating");
        }
        let ghost expected = forbidden_words(self.0);
        assert(words@.len() == expected.len());
        assert(forall|i: int| 0 <= i < words@.len() ==> #[trigger] words@[i]@ == expected[i]);
        if words.len() == 0 {
            return String::from_str("everything permitted");
        }
        if words.len() == 4 {
            return String::from_str("reading only");
        }
        let mut out = String::from_str("no ");
        out.append(words[0]);
        let mut i: usize = 1;
        while i < words.len()
            invariant
                1 <= i <= words@.len(),
                words@.len() == expected.len(),
                forall|j: int| 0 <= j < words@.len() ==> #[trigger] words@[j]@ == expected[j],
                out@ == "no "@ + joined_with_no(expected.subrange(0, i as int)),
            decreases words.len() - i,
        {
            out.append(", no ");
            out.append(words[i]);
            proof {
                let next = expected.subrange(0, i + 1);
                assert(next.drop_last() =~= expected.subrange(0, i as int));
                assert(next.last() == expected[i as int]);
            }
            i = i + 1;
        }
        assert(expected.subrange(0, words@.len() as int) =~= expected);
        out
    }

    fn with(self, bit: u32, allowed: bool) -> (r: Self)
        requires
            1 <= bit <= 32,
        ensures
            r.0 == with_bit(self.0, bit, allowed),
    {
        let mask: u32 = 1u32 << (bit - 1);
        Permissions(if allowed { self.0 | mask } else { self.0 & !mask })
    }

    pub fn allow_printing(self, yes: bool) -> (r: Self)
        ensures
            r.0 == with_bit(self.0, 3, yes),
    {
        self.with(3, yes)
    }

    pub fn allow_editing(self, yes: bool) -> (r: Self)
        ensures
            r.0 == with_bit(self.0, 4, yes),
    {
        self.with(4, yes)
    }

    pub fn allow_copying(self, yes: bool) -> (r: Self)
        ensures
            r.0 == with_bit(self.0, 5, yes),
    {
        self.with(5, yes)
    }

    pub fn allow_annotating(self, yes: bool) -> (r: Self)
        ensures
            r.0 == with_bit(self.0, 6, yes),
    {
        self.with(6, yes)
    }
}

/// Setting a permission reads back as what was asked, and leaves every other
/// bit — the reserved ones included — as it was.
pub proof fn law_permission_reads_back(p: u32, bit: u32, allowed: bool, other: u32)
    requires
        1 <= bit <= 32,
        1 <= other <= 32,
        other != bit,
    ensures
        has_bit(with_bit(p, bit, allowed), bit) == allowed,
        has_bit(with_bit(p, bit, allowed), other) == has_bit(p, other),
{
    let b = (bit - 1) as u32;
    let o = (other - 1) as u32;
    assert(b < 32 && o < 32 && b != o ==> (
        ((p | (1u32 << b)) & (1u32 << b) != 0)
        && ((p & !(1u32 << b)) & (1u32 << b) == 0)
        && (((p | (1u32 << b)) & (1u32 << o) != 0) == (p & (1u32 << o) != 0))
        && (((p & !(1u32 << b)) & (1u32 << o) != 0) == (p & (1u32 << o) != 0))
    )) by (bit_vector);
}


// ---------------------------------------------------------------------------
// The block cipher, as the `aes` and `cbc` crates compute it.

/// AES-128 in CBC mode, over whole blocks, with no padding.
pub uninterp spec fn aes128_cbc(key: Seq<u8>, iv: Seq<u8>, data: Seq<u8>) -> Seq<u8>;

/// AES-256 in CBC mode, over whole blocks, with no padding.
pub uninterp spec fn aes256_cbc(key: Seq<u8>, iv: Seq<u8>, data: Seq<u8>) -> Seq<u8>;

/// One block encrypted with AES-256 on its own.
pub uninterp spec fn aes256_block(key: Seq<u8>, block: Seq<u8>) -> Seq<u8>;

/// `cbc::Encryptor::<aes::Aes128>::new`, then `encrypt_padded_mut` with no
/// padding: the data encrypted in CBC mode under the key and the
/// initialisation vector, named as a function of the three. CBC over whole
/// blocks leaves the length as it was.
#[verifier::external_body]
fn aes128_cbc_encrypt(key: &[u8], iv: &[u8], data: &[u8]) -> (r: Vec<u8>)
    requires
        key@.len() == 16,
        iv@.len() == 16,
        data@.len() % 16 == 0,
    ensures
        r@ == aes128_cbc(key@, iv@, data@),
        r@.len() == data@.len(),
{
    let mut out = data.to_vec();
    let n = out.len();
    let encryptor = cbc::Encryptor::<aes::Aes128>::new(key.into(), iv.into());
    let _ = encryptor.encrypt_padded_mut::<aes::cipher::block_padding::NoPadding>(&mut out, n);
    out
}

/// `cbc::Encryptor::<aes::Aes256>::new`, then `encrypt_padded_mut` with no
/// padding, as above with a 32-byte key.
#[verifier::external_body]
fn aes256_cbc_encrypt(key: &[u8], iv: &[u8], data: &[u8]) -> (r: Vec<u8>)
    requires
        key@.len() == 32,
        iv@.len() == 16,
        data@.len() % 16 == 0,
    ensures
        r@ == aes256_cbc(key@, iv@, data@),
        r@.len() == data@.len(),
{
    let mut out = data.to_vec();
    let n = out.len();
    let encryptor = cbc::Encryptor::<aes::Aes256>::new(key.into(), iv.into());
    let _ = encryptor.encrypt_padded_mut::<aes::cipher::block_padding::NoPadding>(&mut out, n);
    out
}

/// `aes::Aes256::new`, then `encrypt_block`: one 16-byte block encrypted on
/// its own, named as a function of the key and the block.
#[verifier::external_body]
fn aes256_encrypt_block(key: &[u8], block: &[u8]) -> (r: Vec<u8>)
    requires
        key@.len() == 32,
        block@.len() == 16,
    ensures
        r@ == aes256_block(key@, block@),
        r@.len() == 16,
{
    let mut out = aes::Block::clone_from_slice(block);
    aes::Aes256::new(key.into()).encrypt_block(&mut out);
    out.to_vec()
}

// ---------------------------------------------------------------------------
// Algorithm 2.B, revision 6's password hash.

/// `s`, `n` times over.
pub open spec fn repeated(s: Seq<u8>, n: nat) -> Seq<u8>
    decreases n,
{
    if n == 0 { Seq::empty() } else { repeated(s, (n - 1) as nat) + s }
}

/// The sum of some bytes.
pub open spec fn byte_sum(s: Seq<u8>) -> nat
    decreases s.len(),
{
    if s.len() == 0 { 0 } else { byte_sum(s.drop_last()) + s.last() as nat }
}

/// A round's ciphertext: the password, the running hash and the extra,
/// sixty-four times, under AES-128-CBC keyed by the hash's first half with its
/// second half as the vector.
pub open spec fn round_cipher(password: Seq<u8>, k: Seq<u8>, extra: Seq<u8>) -> Seq<u8> {
    aes128_cbc(k.subrange(0, 16), k.subrange(16, 32), repeated(password + k + extra, 64))
}

/// The next running hash: SHA-256, -384 or -512 of the ciphertext, chosen by
/// the sum of its first sixteen bytes modulo three.
pub open spec fn round_digest(e: Seq<u8>) -> Seq<u8> {
    let sum = byte_sum(e.subrange(0, 16));
    if sum % 3 == 0 {
        sha256(e)
    } else if sum % 3 == 1 {
        sha384(e)
    } else {
        sha512(e)
    }
}

proof fn lemma_sum_of_sixteen(e: Seq<u8>)
    requires
        e.len() >= 16,
    ensures
        byte_sum(e.subrange(0, 16)) == e[0] as nat + e[1] as nat + e[2] as nat + e[3] as nat + e[4] as nat
            + e[5] as nat + e[6] as nat + e[7] as nat + e[8] as nat + e[9] as nat + e[10] as nat + e[11] as nat
            + e[12] as nat + e[13] as nat + e[14] as nat + e[15] as nat,
{
    lemma_prefix_sum(e, 16);
    reveal_with_fuel(partial_sum, 17);
}

proof fn lemma_prefix_sum(e: Seq<u8>, n: int)
    requires
        0 <= n <= e.len(),
    ensures
        byte_sum(e.subrange(0, n)) == partial_sum(e, n),
    decreases n,
{
    if n > 0 {
        assert(e.subrange(0, n).drop_last() =~= e.subrange(0, n - 1));
        lemma_prefix_sum(e, n - 1);
    }
}

/// The first `n` bytes of `e` added up, first to last.
pub open spec fn partial_sum(e: Seq<u8>, n: int) -> nat
    decreases n,
{
    if n <= 0 { 0 } else { partial_sum(e, n - 1) + e[n - 1] as nat }
}

/// **Algorithm 2.B's choice of hash**, as ISO 32000-2 gives it: the
/// sixteen first bytes of a round's ciphertext, added up as unsigned numbers,
/// pick SHA-256 when the sum leaves 0 modulo 3, SHA-384 when it leaves 1 and
/// SHA-512 when it leaves 2.
pub proof fn law_each_round_hashes_as_algorithm_2b_says(e: Seq<u8>)
    requires
        e.len() >= 16,
    ensures
        ({
            let sum = e[0] as nat + e[1] as nat + e[2] as nat + e[3] as nat + e[4] as nat + e[5] as nat
                + e[6] as nat + e[7] as nat + e[8] as nat + e[9] as nat + e[10] as nat + e[11] as nat
                + e[12] as nat + e[13] as nat + e[14] as nat + e[15] as nat;
            &&& sum % 3 == 0 ==> round_digest(e) == sha256(e)
            &&& sum % 3 == 1 ==> round_digest(e) == sha384(e)
            &&& sum % 3 == 2 ==> round_digest(e) == sha512(e)
        }),
{
    lemma_sum_of_sixteen(e);
}

/// The last byte of a ciphertext, or zero for none.
pub open spec fn last_byte(e: Seq<u8>) -> int {
    if e.len() > 0 { e.last() as int } else { 0 }
}

/// The rounds from `done` on: at least sixty-four, then until the last byte
/// of the round's ciphertext is at most the round number less thirty-two;
/// `None` when a running hash is short or the rounds pass 4096.
pub open spec fn hash_rounds(password: Seq<u8>, extra: Seq<u8>, k: Seq<u8>, done: nat) -> Option<Seq<u8>>
    decreases 4097 - done,
{
    if k.len() < 32 {
        None
    } else {
        let e = round_cipher(password, k, extra);
        let next = round_digest(e);
        let round = done + 1;
        if round >= 64 && last_byte(e) <= round - 32 {
            Some(next)
        } else if round > 4096 {
            None
        } else {
            hash_rounds(password, extra, next, round)
        }
    }
}

/// The 32-byte hash of a password with a salt, and with the 48-byte `/U`
/// value as `extra` for the owner's entries.
pub open spec fn password_hash(password: Seq<u8>, salt: Seq<u8>, extra: Seq<u8>) -> Option<Seq<u8>> {
    match hash_rounds(password, extra, sha256(password + salt + extra), 0) {
        Some(k) => if k.len() >= 32 { Some(k.subrange(0, 32)) } else { None },
        None => None,
    }
}

pub proof fn lemma_repeated_len(s: Seq<u8>, n: nat)
    ensures
        repeated(s, n).len() == n * s.len(),
    decreases n,
{
    if n == 0 {
        assert(repeated(s, n) =~= Seq::<u8>::empty());
    } else {
        let m = (n - 1) as nat;
        lemma_repeated_len(s, m);
        assert(repeated(s, n) == repeated(s, m) + s);
        assert(repeated(s, n).len() == repeated(s, m).len() + s.len());
        assert(n * s.len() == m * s.len() + s.len()) by (nonlinear_arith)
            requires n == m + 1;
    }
}

fn concat3(a: &[u8], b: &[u8], c: &[u8]) -> (r: Vec<u8>)
    ensures
        r@ == a@ + b@ + c@,
{
    let mut out: Vec<u8> = Vec::new();
    crate::text::extend(&mut out, a);
    crate::text::extend(&mut out, b);
    crate::text::extend(&mut out, c);
    proof {
        assert(out@ =~= a@ + b@ + c@);
    }
    out
}

fn sixty_four_times(one: &[u8]) -> (r: Vec<u8>)
    ensures
        r@ == repeated(one@, 64),
{
    let mut out: Vec<u8> = Vec::new();
    let mut i: usize = 0;
    while i < 64
        invariant
            i <= 64,
            out@ == repeated(one@, i as nat),
        decreases 64 - i,
    {
        crate::text::extend(&mut out, one);
        proof {
            assert(repeated(one@, (i + 1) as nat) == repeated(one@, i as nat) + one@);
        }
        i = i + 1;
    }
    out
}

fn first_sixteen_sum(e: &[u8]) -> (r: u32)
    requires
        e@.len() >= 16,
    ensures
        r == byte_sum(e@.subrange(0, 16)),
{
    let mut sum: u32 = 0;
    let mut i: usize = 0;
    while i < 16
        invariant
            i <= 16,
            e@.len() >= 16,
            sum == byte_sum(e@.subrange(0, i as int)),
            sum <= 255 * i,
        decreases 16 - i,
    {
        proof {
            assert(e@.subrange(0, i + 1).drop_last() =~= e@.subrange(0, i as int));
        }
        sum = sum + e[i] as u32;
        i = i + 1;
    }
    sum
}

/// One round: the ciphertext and the next running hash.
fn hash_round(password: &[u8], k: &[u8], extra: &[u8]) -> (r: (Vec<u8>, Vec<u8>))
    requires
        k@.len() >= 32,
    ensures
        r.0@ == round_cipher(password@, k@, extra@),
        r.1@ == round_digest(r.0@),
        r.0@.len() >= 64 * 32,
        r.1@.len() >= 32,
{
    let one = concat3(password, k, extra);
    let k1 = sixty_four_times(one.as_slice());
    proof {
        lemma_repeated_len(one@, 64);
        assert((64 * one@.len()) % 16 == 0) by (nonlinear_arith);
        assert(64 * one@.len() >= 64 * 32) by (nonlinear_arith)
            requires one@.len() >= 32;
    }
    let key = vstd::slice::slice_subrange(k, 0, 16);
    let iv = vstd::slice::slice_subrange(k, 16, 32);
    let e = aes128_cbc_encrypt(key, iv, k1.as_slice());
    let sum = first_sixteen_sum(e.as_slice());
    let next = if sum % 3 == 0 {
        sha256_of(e.as_slice())
    } else if sum % 3 == 1 {
        sha384_of(e.as_slice())
    } else {
        sha512_of(e.as_slice())
    };
    (e, next)
}

/// **Algorithm 2.B**: revision 6's hardened password hash. Sixty-four rounds
/// at least, each encrypting a block built from the password, the running
/// hash and the extra, then choosing the next digest by the arithmetic of the
/// result.
fn hash(password: &[u8], salt: &[u8], extra: &[u8]) -> (r: Result<Vec<u8>>)
    ensures
        match password_hash(password@, salt@, extra@) {
            Some(h) => r matches Ok(v) && v@ == h && v@.len() == 32,
            None => r matches Err(PdfError::Pdfium(_)),
        },
{
    let start = concat3(password, salt, extra);
    let mut k = sha256_of(start.as_slice());
    let ghost target = hash_rounds(password@, extra@, k@, 0);
    let mut round: usize = 0;
    loop
        invariant_except_break
            round <= 4096,
            hash_rounds(password@, extra@, k@, round as nat) == target,
        invariant
            target == hash_rounds(password@, extra@, sha256(password@ + salt@ + extra@), 0),
        ensures
            match target {
                Some(h) => k@ == h && k@.len() >= 32,
                None => false,
            },
        decreases 4096 - round,
    {
        if k.len() < 32 {
            return Err(PdfError::Pdfium(String::from_str("the password hash went wrong")));
        }
        let (e, next) = hash_round(password, k.as_slice(), extra);
        round = round + 1;
        k = next;
        if round >= 64 && (e[e.len() - 1] as usize) <= round - 32 {
            break;
        }
        if round > 4096 {
            return Err(PdfError::Pdfium(String::from_str("the password hash did not settle")));
        }
    }
    let out = vstd::slice::slice_to_vec(vstd::slice::slice_subrange(k.as_slice(), 0, 32));
    Ok(out)
}


// ---------------------------------------------------------------------------
// The `/Encrypt` entries.

/// Everything a secured file needs written into its `/Encrypt` dictionary,
/// plus the key its contents are encrypted with.
pub struct Security {
    /// 48 bytes: the user password's hash, then its two salts.
    pub u: [u8; 48],
    /// The file key wrapped under the user password.
    pub ue: [u8; 32],
    pub o: [u8; 48],
    pub oe: [u8; 32],
    pub perms: [u8; 16],
    pub permissions: Permissions,
    /// The key every stream and string in the file is encrypted with.
    file_key: [u8; 32],
}

/// Sixteen zero bytes: the vector the file key is wrapped with.
pub open spec fn zero_block() -> Seq<u8> {
    Seq::new(16, |i: int| 0u8)
}

/// A permission word's four bytes, least significant first.
pub open spec fn le_bytes(p: u32) -> Seq<u8> {
    seq![(p % 256) as u8, ((p / 256) % 256) as u8, ((p / 65536) % 256) as u8, (p / 16777216) as u8]
}

/// The block `/Perms` encrypts: the permissions, four bytes of `0xFF`, `T`
/// for encrypted metadata, `adb`, and four random bytes.
pub open spec fn perms_block(p: u32, tail: Seq<u8>) -> Seq<u8> {
    le_bytes(p) + seq![255u8, 255u8, 255u8, 255u8, 84u8, 97u8, 100u8, 98u8] + tail
}

/// Whether the passwords are ones a document can be secured with: a user
/// password of 1 to 127 bytes and an owner password of at most 127.
pub open spec fn usable_passwords(user: Seq<u8>, owner: Option<Seq<u8>>) -> bool {
    &&& 0 < user.len() <= 127
    &&& owner matches Some(o) ==> o.len() <= 127
}

/// A password that may be absent, as bytes.
pub open spec fn bytes_of(owner: Option<&[u8]>) -> Option<Seq<u8>> {
    match owner {
        Some(o) => Some(o@),
        None => None,
    }
}

/// The owner password, or the user's when none is given.
pub open spec fn owner_or_user(user: Seq<u8>, owner: Option<Seq<u8>>) -> Seq<u8> {
    match owner {
        Some(o) => o,
        None => user,
    }
}

/// `/U`, `/UE`, `/O`, `/OE` and `/Perms` for these passwords, this file key,
/// these two pairs of salts and these four bytes of padding; `None` when a
/// password hash does not settle.
pub open spec fn security_entries(
    user: Seq<u8>,
    owner: Seq<u8>,
    permissions: u32,
    file_key: Seq<u8>,
    user_salts: Seq<u8>,
    owner_salts: Seq<u8>,
    tail: Seq<u8>,
) -> Option<(Seq<u8>, Seq<u8>, Seq<u8>, Seq<u8>, Seq<u8>)> {
    let uv = user_salts.subrange(0, 8);
    let uk = user_salts.subrange(8, 16);
    let ov = owner_salts.subrange(0, 8);
    let ok = owner_salts.subrange(8, 16);
    match (password_hash(user, uv, Seq::empty()), password_hash(user, uk, Seq::empty())) {
        (Some(hu), Some(hue)) => {
            let u = hu + uv + uk;
            match (password_hash(owner, ov, u), password_hash(owner, ok, u)) {
                (Some(ho), Some(hoe)) => Some((
                    u,
                    aes256_cbc(hue, zero_block(), file_key),
                    ho + ov + ok,
                    aes256_cbc(hoe, zero_block(), file_key),
                    aes256_block(file_key, perms_block(permissions, tail)),
                )),
                _ => None,
            }
        },
        _ => None,
    }
}

fn into_array<const N: usize>(v: &[u8]) -> (r: [u8; N])
    requires
        v@.len() == N,
    ensures
        r@ == v@,
{
    let mut a = [0u8; N];
    let mut i: usize = 0;
    while i < N
        invariant
            i <= N,
            v@.len() == N,
            a@.len() == N,
            forall|j: int| 0 <= j < i ==> a@[j] == v@[j],
        decreases N - i,
    {
        a[i] = v[i];
        i = i + 1;
    }
    assert(a@ =~= v@);
    a
}

fn le_bytes_of(p: u32) -> (r: Vec<u8>)
    ensures
        r@ == le_bytes(p),
{
    let r = vec![(p % 256) as u8, ((p / 256) % 256) as u8, ((p / 65536) % 256) as u8, (p / 16777216) as u8];
    assert(r@ =~= le_bytes(p));
    r
}

/// Wrap the file key under a password-derived key: AES-256-CBC, zero IV, no
/// padding.
fn wrap(key: &[u8], file_key: &[u8; 32]) -> (r: [u8; 32])
    requires
        key@.len() == 32,
    ensures
        r@ == aes256_cbc(key@, zero_block(), file_key@),
{
    let iv = [0u8; 16];
    assert(iv@ =~= zero_block());
    let out = aes256_cbc_encrypt(key, iv.as_slice(), file_key.as_slice());
    into_array(out.as_slice())
}

impl Security {
    /// The key every stream and string is encrypted with.
    pub closed spec fn key(&self) -> Seq<u8> {
        self.file_key@
    }

    /// `/U`, `/UE`, `/O`, `/OE` and `/Perms`, as written.
    pub closed spec fn entries(&self) -> (Seq<u8>, Seq<u8>, Seq<u8>, Seq<u8>, Seq<u8>) {
        (self.u@, self.ue@, self.o@, self.oe@, self.perms@)
    }

    /// What is permitted.
    pub closed spec fn permitted(&self) -> Permissions {
        self.permissions
    }

    /// Set up encryption from random bytes already drawn: the file key, the
    /// user entry's salts, the owner entry's salts, and the four bytes that
    /// pad `/Perms`.
    pub fn with_random_bytes(
        user: &[u8],
        owner: Option<&[u8]>,
        permissions: Permissions,
        file_key: &[u8; 32],
        user_salts: &[u8; 16],
        owner_salts: &[u8; 16],
        tail: &[u8; 4],
    ) -> (r: Result<Security>)
        ensures
            !usable_passwords(user@, bytes_of(owner)) ==> r matches Err(PdfError::InvalidArgument(_)),
            usable_passwords(user@, bytes_of(owner)) ==> match security_entries(user@,
                owner_or_user(user@, bytes_of(owner)), permissions.0, file_key@, user_salts@,
                owner_salts@, tail@) {
                Some(entries) => r matches Ok(s) && s.entries() == entries && s.permitted() == permissions
                    && s.key() == file_key@,
                None => r matches Err(PdfError::Pdfium(_)),
            },
    {
        if user.len() == 0 {
            return Err(PdfError::InvalidArgument(String::from_str(
                "a document cannot be secured with an empty password")));
        }
        let owner_too_long = match owner {
            Some(o) => o.len() > 127,
            None => false,
        };
        if user.len() > 127 || owner_too_long {
            return Err(PdfError::InvalidArgument(String::from_str("a password may be at most 127 bytes long")));
        }
        let owner: &[u8] = match owner {
            Some(o) => o,
            None => user,
        };
        let no_extra: Vec<u8> = Vec::new();

        // -- /U and /UE, from the user password -------------------------------
        let u_validation = vstd::slice::slice_subrange(user_salts.as_slice(), 0, 8);
        let u_key = vstd::slice::slice_subrange(user_salts.as_slice(), 8, 16);
        let hu = match hash(user, u_validation, no_extra.as_slice()) {
            Ok(h) => h,
            Err(e) => {
                return Err(e);
            },
        };
        let u_bytes = concat3(hu.as_slice(), u_validation, u_key);
        let u: [u8; 48] = into_array(u_bytes.as_slice());
        let hue = match hash(user, u_key, no_extra.as_slice()) {
            Ok(h) => h,
            Err(e) => {
                return Err(e);
            },
        };
        let ue = wrap(hue.as_slice(), file_key);

        // -- /O and /OE, from the owner password ------------------------------
        //
        // These hash the *user* entry as well, which is what ties the two
        // together: changing /U invalidates /O.
        let o_validation = vstd::slice::slice_subrange(owner_salts.as_slice(), 0, 8);
        let o_key = vstd::slice::slice_subrange(owner_salts.as_slice(), 8, 16);
        let ho = match hash(owner, o_validation, u.as_slice()) {
            Ok(h) => h,
            Err(e) => {
                return Err(e);
            },
        };
        let o_bytes = concat3(ho.as_slice(), o_validation, o_key);
        let o: [u8; 48] = into_array(o_bytes.as_slice());
        let hoe = match hash(owner, o_key, u.as_slice()) {
            Ok(h) => h,
            Err(e) => {
                return Err(e);
            },
        };
        let oe = wrap(hoe.as_slice(), file_key);

        // -- /Perms, so a reader can tell the permissions were not edited -----
        let mut block = le_bytes_of(permissions.0);
        let marks = vec![255u8, 255u8, 255u8, 255u8, 84u8, 97u8, 100u8, 98u8];
        crate::text::extend(&mut block, marks.as_slice());
        crate::text::extend(&mut block, tail.as_slice());
        proof {
            assert(marks@ =~= seq![255u8, 255u8, 255u8, 255u8, 84u8, 97u8, 100u8, 98u8]);
        }
        // One AES block, no chaining and no padding: the only place the
        // specification asks for raw ECB.
        let sealed = aes256_encrypt_block(file_key.as_slice(), block.as_slice());
        let perms: [u8; 16] = into_array(sealed.as_slice());
        let key: [u8; 32] = *file_key;
        Ok(Security { u, ue, o, oe, perms, permissions, file_key: key })
    }

    /// Set up encryption for a document.
    ///
    /// `user` is the password a reader is asked for. `owner`, when given,
    /// opens the document with the restrictions lifted; when not, the user
    /// password serves as both. `random` fills the file key, the two pairs
    /// of salts and the padding of `/Perms`, in that order.
    pub fn new(user: &[u8], owner: Option<&[u8]>, permissions: Permissions, random: impl Fn(&mut [u8])) -> (r: Result<Security>)
        requires
            forall|b: &mut [u8]| random.requires((b,)),
        ensures
            !usable_passwords(user@, bytes_of(owner)) ==> r matches Err(PdfError::InvalidArgument(_)),
            r matches Err(e) ==> e is InvalidArgument || e is Pdfium,
            usable_passwords(user@, bytes_of(owner)) ==> (r matches Err(e) ==> e is Pdfium
                && exists|k: Seq<u8>, us: Seq<u8>, os: Seq<u8>, t: Seq<u8>| k.len() == 32 && us.len() == 16
                    && os.len() == 16 && t.len() == 4 && #[trigger] security_entries(user@,
                    owner_or_user(user@, bytes_of(owner)), permissions.0, k, us, os, t) is None),
            r matches Ok(s) ==> exists|b: &mut [u8]| #[trigger] random.ensures((b,), ())
                && final(b)@ == s.entries().0.subrange(32, 48),
            r matches Ok(s) ==> s.permitted() == permissions && exists|tail: Seq<u8>| tail.len() == 4
                && security_entries(user@, owner_or_user(user@, bytes_of(owner)), permissions.0,
                s.key(), s.entries().0.subrange(32, 48), s.entries().2.subrange(32, 48), tail) == Some(
                s.entries()),
    {
        if !(user.len() > 0 && user.len() <= 127 && match owner {
            Some(o) => o.len() <= 127,
            None => true,
        }) {
            return Security::with_random_bytes(user, owner, permissions, &[0u8; 32], &[0u8; 16], &[0u8; 16],
                &[0u8; 4]);
        }
        let mut file_key = [0u8; 32];
        random(&mut file_key);
        let mut user_salts = [0u8; 16];
        random(&mut user_salts);
        let ghost drawn = user_salts@;
        proof {
            assert(exists|b: &mut [u8]| #[trigger] random.ensures((b,), ()) && final(b)@ == drawn);
        }
        let mut owner_salts = [0u8; 16];
        random(&mut owner_salts);
        let mut tail = [0u8; 4];
        random(&mut tail);
        let r = Security::with_random_bytes(user, owner, permissions, &file_key, &user_salts, &owner_salts, &tail);
        proof {
            if r is Err {
                assert(security_entries(user@, owner_or_user(user@, bytes_of(owner)), permissions.0,
                    file_key@, user_salts@, owner_salts@, tail@) is None);
            }
            if r is Ok {
                let s = r->Ok_0;
                let e = security_entries(user@, owner_or_user(user@, bytes_of(owner)), permissions.0,
                    file_key@, user_salts@, owner_salts@, tail@);
                assert(e is Some);
                assert(s.u@.subrange(32, 48) =~= user_salts@);
                assert(drawn == user_salts@);
                assert(s.o@.subrange(32, 48) =~= owner_salts@);
            }
        }
        r
    }
}


/// PKCS#7: as many bytes as are missing from the last block, each holding
/// that count, and a whole block when none is missing.
pub open spec fn padded(plain: Seq<u8>) -> Seq<u8> {
    let pad = (16 - plain.len() % 16) as nat;
    plain + Seq::new(pad, |i: int| pad as u8)
}

/// A string or stream as it is written into a secured file: the vector, then
/// the padded bytes encrypted under the file key in CBC mode.
pub open spec fn sealed_with(key: Seq<u8>, iv: Seq<u8>, plain: Seq<u8>) -> Seq<u8> {
    iv + aes256_cbc(key, iv, padded(plain))
}

impl Security {
    /// Encrypt one stream or string with the vector given.
    pub fn encrypt_with(&self, plain: &[u8], iv: &[u8; 16]) -> (r: Vec<u8>)
        requires
            plain@.len() + 16 <= usize::MAX,
        ensures
            r@ == sealed_with(self.key(), iv@, plain@),
            r@.len() == 16 + padded(plain@).len(),
    {
        // PKCS#7, and a whole block of padding when the length already
        // divides evenly, so there is always padding to strip.
        let pad: usize = 16 - (plain.len() % 16);
        let mut body = vstd::slice::slice_to_vec(plain);
        let mut i: usize = 0;
        while i < pad
            invariant
                i <= pad,
                pad == 16 - plain@.len() % 16,
                body@ == plain@ + Seq::new(i as nat, |j: int| pad as u8),
            decreases pad - i,
        {
            body.push(pad as u8);
            proof {
                assert(body@ =~= plain@ + Seq::new((i + 1) as nat, |j: int| pad as u8));
            }
            i = i + 1;
        }
        proof {
            assert(body@ =~= padded(plain@));
            assert((plain@.len() + (16 - plain@.len() % 16)) % 16 == 0);
        }
        let sealed = aes256_cbc_encrypt(self.file_key.as_slice(), iv.as_slice(), body.as_slice());
        let mut out = vstd::slice::slice_to_vec(iv.as_slice());
        crate::text::extend(&mut out, sealed.as_slice());
        out
    }

    /// Encrypt one stream or string, as it will be written into the file:
    /// a vector that `random` fills, then the ciphertext.
    pub fn encrypt(&self, plain: &[u8], random: impl Fn(&mut [u8])) -> (r: Vec<u8>)
        requires
            plain@.len() + 16 <= usize::MAX,
            forall|b: &mut [u8]| random.requires((b,)),
        ensures
            r@.len() == 16 + padded(plain@).len(),
            r@ == sealed_with(self.key(), r@.subrange(0, 16), plain@),
    {
        let mut iv = [0u8; 16];
        random(&mut iv);
        let r = self.encrypt_with(plain, &iv);
        proof {
            assert(r@.subrange(0, 16) =~= iv@);
        }
        r
    }
}


// ---------------------------------------------------------------------------
// Strings, sealed.

/// Whether a string of `n` bytes can be sealed and written as hex within the
/// machine's address space.
pub open spec fn sealable(n: nat) -> bool {
    2 * (n + 32) <= usize::MAX
}

/// Whether every string in a value can be sealed.
pub open spec fn strings_fit(v: Value) -> bool
    decreases v,
{
    match v {
        Value::Literal(raw) => sealable(raw.len()),
        Value::Hex(raw) => sealable(raw.len()),
        Value::Array(items) => forall|i: int| 0 <= i < items.len() ==> strings_fit(#[trigger] items[i]),
        Value::Dict(entries) => forall|i: int| 0 <= i < entries.len() ==> strings_fit(#[trigger] entries[i].1),
        _ => true,
    }
}

/// Whether `h` is `plain` sealed under `key` with some vector, as hex.
pub open spec fn sealed_hex(key: Seq<u8>, plain: Seq<u8>, h: Seq<u8>) -> bool {
    exists|iv: Seq<u8>| iv.len() == 16 && h == #[trigger] hex_text(sealed_with(key, iv, plain))
}

/// Whether `after` is `before` with every string sealed under `key`: a
/// literal string by its real bytes, a hex string by the bytes it spells,
/// each written back as a hex string; arrays and dictionaries keep their
/// shape and their keys, and everything else is as it was.
pub open spec fn sealed_value(before: Value, after: Value, key: Seq<u8>) -> bool
    decreases before,
{
    match before {
        Value::Literal(raw) => after matches Value::Hex(h) && sealed_hex(key, unescaped(raw), h),
        Value::Hex(raw) => after matches Value::Hex(h) && sealed_hex(key, hex_decoded(raw), h),
        Value::Array(items) => after matches Value::Array(sealed) && sealed.len() == items.len()
            && forall|i: int| 0 <= i < items.len() ==> sealed_value(#[trigger] items[i], sealed[i], key),
        Value::Dict(entries) => after matches Value::Dict(sealed) && sealed.len() == entries.len()
            && forall|i: int| 0 <= i < entries.len() ==> sealed[i].0 == #[trigger] entries[i].0
                && sealed_value(entries[i].1, sealed[i].1, key),
        _ => after == before,
    }
}

/// A sealed body's length is bounded by the plain bytes'.
proof fn lemma_unescaped_len(raw: Seq<u8>, at: int)
    requires
        0 <= at,
    ensures
        unescaped_from_len_fits(raw, at),
    decreases raw.len() - at,
{
    if at < raw.len() {
        if raw[at] != 92 {
            lemma_unescaped_len(raw, at + 1);
        } else if at + 1 < raw.len() {
            let next = raw[at + 1];
            if next == 13 && at + 2 < raw.len() && raw[at + 2] == 10 {
                lemma_unescaped_len(raw, at + 3);
            } else if crate::pdf::strings::is_octal(next) && !(next == 110 || next == 114 || next == 116
                || next == 98 || next == 102 || next == 10 || next == 13) {
                crate::pdf::strings::lemma_octal_run(raw, at + 1, 0, 0);
                let end = crate::pdf::strings::octal_run(raw, at + 1, 0, 0).1;
                if end > at + 1 {
                    lemma_unescaped_len(raw, end);
                }
            } else {
                lemma_unescaped_len(raw, at + 2);
            }
        }
    }
}

/// The real bytes from `at` on are no more than the raw bytes left.
pub open spec fn unescaped_from_len_fits(raw: Seq<u8>, at: int) -> bool {
    crate::pdf::strings::unescaped_from(raw, at).len() <= if at <= raw.len() { raw.len() - at } else { 0 }
}

proof fn lemma_hex_decoded_len(raw: Seq<u8>)
    ensures
        hex_decoded(raw).len() <= raw.len(),
{
    lemma_hex_only_len(raw);
}

proof fn lemma_hex_only_len(raw: Seq<u8>)
    ensures
        crate::pdf::cmap::hex_only(raw).len() <= raw.len(),
    decreases raw.len(),
{
    if raw.len() > 0 {
        lemma_hex_only_len(raw.drop_last());
    }
}

/// Whether every string in an object can be sealed.
fn strings_fit_in(object: &Object) -> (r: bool)
    ensures
        r == strings_fit(object.value()),
    decreases object,
{
    match object {
        Object::LiteralString(raw) => raw.len() <= (usize::MAX - 64) / 2,
        Object::HexString(raw) => raw.len() <= (usize::MAX - 64) / 2,
        Object::Array(items) => {
            let mut i: usize = 0;
            while i < items.len()
                invariant
                    *object == Object::Array(*items),
                    i <= items@.len(),
                    forall|j: int| 0 <= j < i ==> strings_fit(#[trigger] items@[j].value()),
                decreases items.len() - i,
            {
                proof {
                    assert(decreases_to!(*object => object->Array_0));
                    assert(decreases_to!(object->Array_0 => object->Array_0[i as int])) by {
                        broadcast use vstd::std_specs::vec::axiom_vec_index_decreases;
                    }
                }
                if !strings_fit_in(&items[i]) {
                    proof {
                        assert(object.value()->Array_0[i as int] == items@[i as int].value());
                    }
                    return false;
                }
                i = i + 1;
            }
            proof {
                assert forall|j: int| 0 <= j < object.value()->Array_0.len() implies
                    strings_fit(#[trigger] object.value()->Array_0[j]) by {
                    assert(object.value()->Array_0[j] == items@[j].value());
                }
            }
            true
        },
        Object::Dict(d) => {
            let mut i: usize = 0;
            while i < d.0.len()
                invariant
                    *object == Object::Dict(*d),
                    i <= d.0@.len(),
                    forall|j: int| 0 <= j < i ==> strings_fit(#[trigger] d.0@[j].1.value()),
                decreases d.0.len() - i,
            {
                proof {
                    assert(decreases_to!(*object => *d));
                    assert(decreases_to!(*d => d.0@[i as int].1));
                }
                if !strings_fit_in(&d.0[i].1) {
                    proof {
                        assert(object.value() == Value::Dict(d.entries()));
                        assert(object.value()->Dict_0[i as int].1 == d.0@[i as int].1.value());
                    }
                    return false;
                }
                i = i + 1;
            }
            proof {
                assert(object.value() == Value::Dict(d.entries()));
                assert forall|j: int| 0 <= j < d.entries().len() implies
                    strings_fit(#[trigger] d.entries()[j].1) by {
                    assert(d.entries()[j].1 == d.0@[j].1.value());
                }
            }
            true
        },
        _ => true,
    }
}

/// Seal some plain bytes and write them as a hex string.
fn sealed_string(plain: &[u8], security: &Security, random: impl Fn(&mut [u8])) -> (r: Object)
    requires
        sealable(plain@.len()),
        forall|b: &mut [u8]| random.requires((b,)),
    ensures
        r matches Object::HexString(h) && sealed_hex(security.key(), plain@, h@),
{
    let sealed = security.encrypt(plain, random);
    let h = hex(sealed.as_slice());
    proof {
        let iv = sealed@.subrange(0, 16);
        assert(h@ == hex_text(sealed_with(security.key(), iv, plain@)));
    }
    Object::HexString(h)
}

/// Every string inside an object, encrypted, with the structure kept.
fn encrypt_strings(object: &Object, security: &Security, random: impl Fn(&mut [u8]) + Copy) -> (r: Object)
    requires
        strings_fit(object.value()),
        forall|b: &mut [u8]| random.requires((b,)),
    ensures
        sealed_value(object.value(), r.value(), security.key()),
    decreases object,
{
    match object {
        Object::LiteralString(raw) => {
            let plain = unescape(raw.as_slice());
            proof {
                lemma_unescaped_len(raw@, 0);
            }
            sealed_string(plain.as_slice(), security, random)
        },
        Object::HexString(raw) => {
            let plain = from_hex(raw);
            proof {
                lemma_hex_decoded_len(raw@);
            }
            sealed_string(plain.as_slice(), security, random)
        },
        Object::Array(items) => {
            let mut out: Vec<Object> = Vec::new();
            let mut i: usize = 0;
            while i < items.len()
                invariant
                    *object == Object::Array(*items),
                    strings_fit(object.value()),
                    forall|b: &mut [u8]| random.requires((b,)),
                    i <= items@.len(),
                    out@.len() == i,
                    forall|j: int| 0 <= j < i ==> sealed_value(items@[j].value(), #[trigger] out@[j].value(),
                        security.key()),
                decreases items.len() - i,
            {
                proof {
                    assert(decreases_to!(*object => object->Array_0));
                    assert(decreases_to!(object->Array_0 => object->Array_0[i as int])) by {
                        broadcast use vstd::std_specs::vec::axiom_vec_index_decreases;
                    }
                    assert(object.value()->Array_0[i as int] == items@[i as int].value());
                }
                out.push(encrypt_strings(&items[i], security, random));
                i = i + 1;
            }
            let r = Object::Array(out);
            proof {
                crate::pdf::object::lemma_array_value(out);
                assert forall|j: int| 0 <= j < items@.len() implies sealed_value(
                    #[trigger] object.value()->Array_0[j], r.value()->Array_0[j], security.key()) by {
                    assert(object.value()->Array_0[j] == items@[j].value());
                    assert(r.value()->Array_0[j] == out@[j].value());
                }
            }
            r
        },
        Object::Dict(d) => {
            let mut out: Vec<(Vec<u8>, Object)> = Vec::new();
            let mut i: usize = 0;
            while i < d.0.len()
                invariant
                    *object == Object::Dict(*d),
                    strings_fit(object.value()),
                    forall|b: &mut [u8]| random.requires((b,)),
                    i <= d.0@.len(),
                    out@.len() == i,
                    forall|j: int| 0 <= j < i ==> (#[trigger] out@[j]).0@ == d.0@[j].0@
                        && sealed_value(d.0@[j].1.value(), out@[j].1.value(), security.key()),
                decreases d.0.len() - i,
            {
                proof {
                    assert(decreases_to!(*object => *d));
                    assert(decreases_to!(*d => d.0@[i as int].1));
                    assert(object.value() == Value::Dict(d.entries()));
                    assert(object.value()->Dict_0[i as int].1 == d.0@[i as int].1.value());
                }
                let key = vstd::slice::slice_to_vec(d.0[i].0.as_slice());
                let value = encrypt_strings(&d.0[i].1, security, random);
                out.push((key, value));
                i = i + 1;
            }
            let r = Object::Dict(Dict(out));
            proof {
                assert(r.value() == Value::Dict(Dict(out).entries()));
                assert(object.value() == Value::Dict(d.entries()));
                assert forall|j: int| 0 <= j < d.entries().len() implies
                    r.value()->Dict_0[j].0 == #[trigger] d.entries()[j].0
                    && sealed_value(d.entries()[j].1, r.value()->Dict_0[j].1, security.key()) by {
                    assert(d.entries()[j] == (d.0@[j].0@, d.0@[j].1.value()));
                    assert(r.value()->Dict_0[j] == (out@[j].0@, out@[j].1.value()));
                }
            }
            r
        },
        other => {
            let r = other.duplicate();
            r
        },
    }
}


// ---------------------------------------------------------------------------
// The file.

pub open spec fn k_encrypt() -> Seq<u8> { seq![69u8, 110u8, 99u8, 114u8, 121u8, 112u8, 116u8] }

fn kb_encrypt() -> (r: Vec<u8>)
    ensures
        r@ == k_encrypt(),
{
    let r = vec![69u8, 110u8, 99u8, 114u8, 121u8, 112u8, 116u8];
    assert(r@ =~= k_encrypt());
    r
}

pub open spec fn k_id() -> Seq<u8> { seq![73u8, 68u8] }

fn kb_id() -> (r: Vec<u8>)
    ensures
        r@ == k_id(),
{
    let r = vec![73u8, 68u8];
    assert(r@ =~= k_id());
    r
}

pub open spec fn k_filter() -> Seq<u8> { seq![70u8, 105u8, 108u8, 116u8, 101u8, 114u8] }

fn kb_filter() -> (r: Vec<u8>)
    ensures
        r@ == k_filter(),
{
    let r = vec![70u8, 105u8, 108u8, 116u8, 101u8, 114u8];
    assert(r@ =~= k_filter());
    r
}

pub open spec fn k_standard() -> Seq<u8> { seq![83u8, 116u8, 97u8, 110u8, 100u8, 97u8, 114u8, 100u8] }

fn kb_standard() -> (r: Vec<u8>)
    ensures
        r@ == k_standard(),
{
    let r = vec![83u8, 116u8, 97u8, 110u8, 100u8, 97u8, 114u8, 100u8];
    assert(r@ =~= k_standard());
    r
}

pub open spec fn k_v() -> Seq<u8> { seq![86u8] }

fn kb_v() -> (r: Vec<u8>)
    ensures
        r@ == k_v(),
{
    let r = vec![86u8];
    assert(r@ =~= k_v());
    r
}

pub open spec fn k_r() -> Seq<u8> { seq![82u8] }

fn kb_r() -> (r: Vec<u8>)
    ensures
        r@ == k_r(),
{
    let r = vec![82u8];
    assert(r@ =~= k_r());
    r
}

pub open spec fn k_u() -> Seq<u8> { seq![85u8] }

fn kb_u() -> (r: Vec<u8>)
    ensures
        r@ == k_u(),
{
    let r = vec![85u8];
    assert(r@ =~= k_u());
    r
}

pub open spec fn k_ue() -> Seq<u8> { seq![85u8, 69u8] }

fn kb_ue() -> (r: Vec<u8>)
    ensures
        r@ == k_ue(),
{
    let r = vec![85u8, 69u8];
    assert(r@ =~= k_ue());
    r
}

pub open spec fn k_o() -> Seq<u8> { seq![79u8] }

fn kb_o() -> (r: Vec<u8>)
    ensures
        r@ == k_o(),
{
    let r = vec![79u8];
    assert(r@ =~= k_o());
    r
}

pub open spec fn k_oe() -> Seq<u8> { seq![79u8, 69u8] }

fn kb_oe() -> (r: Vec<u8>)
    ensures
        r@ == k_oe(),
{
    let r = vec![79u8, 69u8];
    assert(r@ =~= k_oe());
    r
}

pub open spec fn k_perms() -> Seq<u8> { seq![80u8, 101u8, 114u8, 109u8, 115u8] }

fn kb_perms() -> (r: Vec<u8>)
    ensures
        r@ == k_perms(),
{
    let r = vec![80u8, 101u8, 114u8, 109u8, 115u8];
    assert(r@ =~= k_perms());
    r
}

pub open spec fn k_p() -> Seq<u8> { seq![80u8] }

fn kb_p() -> (r: Vec<u8>)
    ensures
        r@ == k_p(),
{
    let r = vec![80u8];
    assert(r@ =~= k_p());
    r
}

pub open spec fn k_encrypt_metadata() -> Seq<u8> { seq![69u8, 110u8, 99u8, 114u8, 121u8, 112u8, 116u8, 77u8, 101u8, 116u8, 97u8, 100u8, 97u8, 116u8, 97u8] }

fn kb_encrypt_metadata() -> (r: Vec<u8>)
    ensures
        r@ == k_encrypt_metadata(),
{
    let r = vec![69u8, 110u8, 99u8, 114u8, 121u8, 112u8, 116u8, 77u8, 101u8, 116u8, 97u8, 100u8, 97u8, 116u8, 97u8];
    assert(r@ =~= k_encrypt_metadata());
    r
}

pub open spec fn k_cf() -> Seq<u8> { seq![67u8, 70u8] }

fn kb_cf() -> (r: Vec<u8>)
    ensures
        r@ == k_cf(),
{
    let r = vec![67u8, 70u8];
    assert(r@ =~= k_cf());
    r
}

pub open spec fn k_std_cf() -> Seq<u8> { seq![83u8, 116u8, 100u8, 67u8, 70u8] }

fn kb_std_cf() -> (r: Vec<u8>)
    ensures
        r@ == k_std_cf(),
{
    let r = vec![83u8, 116u8, 100u8, 67u8, 70u8];
    assert(r@ =~= k_std_cf());
    r
}

pub open spec fn k_cfm() -> Seq<u8> { seq![67u8, 70u8, 77u8] }

fn kb_cfm() -> (r: Vec<u8>)
    ensures
        r@ == k_cfm(),
{
    let r = vec![67u8, 70u8, 77u8];
    assert(r@ =~= k_cfm());
    r
}

pub open spec fn k_aesv3() -> Seq<u8> { seq![65u8, 69u8, 83u8, 86u8, 51u8] }

fn kb_aesv3() -> (r: Vec<u8>)
    ensures
        r@ == k_aesv3(),
{
    let r = vec![65u8, 69u8, 83u8, 86u8, 51u8];
    assert(r@ =~= k_aesv3());
    r
}

pub open spec fn k_stm_f() -> Seq<u8> { seq![83u8, 116u8, 109u8, 70u8] }

fn kb_stm_f() -> (r: Vec<u8>)
    ensures
        r@ == k_stm_f(),
{
    let r = vec![83u8, 116u8, 109u8, 70u8];
    assert(r@ =~= k_stm_f());
    r
}

pub open spec fn k_str_f() -> Seq<u8> { seq![83u8, 116u8, 114u8, 70u8] }

fn kb_str_f() -> (r: Vec<u8>)
    ensures
        r@ == k_str_f(),
{
    let r = vec![83u8, 116u8, 114u8, 70u8];
    assert(r@ =~= k_str_f());
    r
}

pub open spec fn k_five() -> Seq<u8> { seq![53u8] }

fn kb_five() -> (r: Vec<u8>)
    ensures
        r@ == k_five(),
{
    let r = vec![53u8];
    assert(r@ =~= k_five());
    r
}

pub open spec fn k_six() -> Seq<u8> { seq![54u8] }

fn kb_six() -> (r: Vec<u8>)
    ensures
        r@ == k_six(),
{
    let r = vec![54u8];
    assert(r@ =~= k_six());
    r
}

pub open spec fn k_n256() -> Seq<u8> { seq![50u8, 53u8, 54u8] }

fn kb_n256() -> (r: Vec<u8>)
    ensures
        r@ == k_n256(),
{
    let r = vec![50u8, 53u8, 54u8];
    assert(r@ =~= k_n256());
    r
}

pub open spec fn k_n32() -> Seq<u8> { seq![51u8, 50u8] }

fn kb_n32() -> (r: Vec<u8>)
    ensures
        r@ == k_n32(),
{
    let r = vec![51u8, 50u8];
    assert(r@ =~= k_n32());
    r
}

/// A permission word as `/P` writes it: the same bits read as a signed
/// 32-bit number.
pub open spec fn signed_word(p: u32) -> Seq<u8> {
    if p >= 0x8000_0000 {
        seq![45u8] + crate::text::decimal_bytes((0x1_0000_0000 - p) as nat)
    } else {
        crate::text::decimal_bytes(p as nat)
    }
}

fn signed_word_of(p: u32) -> (r: Vec<u8>)
    ensures
        r@ == signed_word(p),
{
    let mut out: Vec<u8> = Vec::new();
    if p >= 0x8000_0000 {
        out.push(45u8);
        crate::text::push_decimal_bytes(&mut out, 4294967296u64 - p as u64);
        assert(out@ =~= signed_word(p));
    } else {
        crate::text::push_decimal_bytes(&mut out, p as u64);
        assert(out@ =~= signed_word(p));
    }
    out
}

/// The `/Encrypt` dictionary: the standard handler at revision 6, the five
/// entries as hex, the permissions, and one AES-256 crypt filter for
/// streams and strings alike.
pub open spec fn encrypt_entries(entries: (Seq<u8>, Seq<u8>, Seq<u8>, Seq<u8>, Seq<u8>), permissions: u32)
    -> Seq<(Seq<u8>, Value)>
{
    seq![
        (k_filter(), Value::Name(k_standard())),
        (k_v(), Value::Number(k_five())),
        (k_r(), Value::Number(k_six())),
        (crate::pdf::object::word_length(), Value::Number(k_n256())),
        (k_u(), Value::Hex(hex_text(entries.0))),
        (k_ue(), Value::Hex(hex_text(entries.1))),
        (k_o(), Value::Hex(hex_text(entries.2))),
        (k_oe(), Value::Hex(hex_text(entries.3))),
        (k_perms(), Value::Hex(hex_text(entries.4))),
        (k_p(), Value::Number(signed_word(permissions))),
        (k_encrypt_metadata(), Value::Bool(true)),
        (k_cf(), Value::Dict(seq![(k_std_cf(), Value::Dict(seq![
            (k_cfm(), Value::Name(k_aesv3())),
            (crate::pdf::object::word_length(), Value::Number(k_n32())),
        ]))])),
        (k_stm_f(), Value::Name(k_std_cf())),
        (k_str_f(), Value::Name(k_std_cf())),
    ]
}

/// What the trailer gains: `/Encrypt`, and an `/ID` of two copies of the
/// same random bytes when it has none.
pub open spec fn trailer_additions(trailer: Seq<(Seq<u8>, Value)>, encrypt_number: u32, id: Seq<u8>)
    -> Seq<(Seq<u8>, Value)>
{
    seq![(k_encrypt(), Value::Reference(encrypt_number, 0))] + if lookup(trailer, k_id()) is None {
        seq![(k_id(), Value::Array(seq![Value::Hex(hex_text(id)), Value::Hex(hex_text(id))]))]
    } else {
        Seq::empty()
    }
}

/// Whether `body` is an object with value `v`, from a file whose bytes are
/// `s`, with everything in it sealed under `key`: a stream's data with some
/// vector and its dictionary's strings, anything else by its strings.
pub open spec fn sealed_body(s: Seq<u8>, v: Value, body: Seq<u8>, key: Seq<u8>) -> bool {
    match v {
        Value::Stream(d, start, end) => 0 <= start <= end <= s.len() && exists|d2: Seq<(Seq<u8>, Value)>, iv: Seq<u8>|
            iv.len() == 16 && sealed_value(Value::Dict(d), Value::Dict(d2), key)
                && body == #[trigger] stream_written(d2, sealed_with(key, iv, s.subrange(start, end))),
        _ => exists|v2: Value| sealed_value(v, v2, key) && body == #[trigger] written(v2),
    }
}

/// Whether `reps` holds every object of the file, in the table's order,
/// sealed.
pub open spec fn all_sealed(s: Seq<u8>, rows: Seq<(u32, usize)>, reps: Seq<(u32, Seq<u8>)>, key: Seq<u8>) -> bool {
    &&& reps.len() == rows.len()
    &&& forall|i: int| 0 <= i < rows.len() ==> (#[trigger] reps[i]).0 == rows[i].0
        && (object_at(s, rows, rows[i].0) matches Ok((v, _)) && sealed_body(s, v, reps[i].1, key))
}

proof fn lemma_bodies_sealed(s: Seq<u8>, rows: Seq<(u32, usize)>, reps: Seq<(u32, Vec<u8>)>, key: Seq<u8>)
    requires
        reps.len() == rows.len(),
        forall|j: int| 0 <= j < reps.len() ==> (#[trigger] reps[j]).0 == rows[j].0
            && (object_at(s, rows, rows[j].0) matches Ok((v, _)) && sealed_body(s, v, reps[j].1@, key)),
    ensures
        all_sealed(s, rows, bodies(reps), key),
{
    assert forall|j: int| 0 <= j < rows.len() implies (#[trigger] bodies(reps)[j]).0 == rows[j].0
        && (object_at(s, rows, rows[j].0) matches Ok((v, _)) && sealed_body(s, v, bodies(reps)[j].1, key)) by {
        assert(bodies(reps)[j] == (reps[j].0, reps[j].1@));
        assert(reps[j].0 == rows[j].0);
    }
}

fn encrypt_dictionary(security: &Security) -> (r: Vec<u8>)
    ensures
        r@ == written(Value::Dict(encrypt_entries(security.entries(), security.permitted().0))),
{
    let mut dict = Dict(Vec::new());
    dict.append(kb_filter(), Object::Name(kb_standard()));
    dict.append(kb_v(), Object::Number(kb_five()));
    dict.append(kb_r(), Object::Number(kb_six()));
    dict.append(crate::pdf::object::bytes_length(), Object::Number(kb_n256()));
    dict.append(kb_u(), Object::HexString(hex(security.u.as_slice())));
    dict.append(kb_ue(), Object::HexString(hex(security.ue.as_slice())));
    dict.append(kb_o(), Object::HexString(hex(security.o.as_slice())));
    dict.append(kb_oe(), Object::HexString(hex(security.oe.as_slice())));
    dict.append(kb_perms(), Object::HexString(hex(security.perms.as_slice())));
    dict.append(kb_p(), Object::Number(signed_word_of(security.permissions.0)));
    dict.append(kb_encrypt_metadata(), Object::Bool(true));

    // Both streams and strings use the same AES-256 crypt filter.
    let mut aes = Dict(Vec::new());
    aes.append(kb_cfm(), Object::Name(kb_aesv3()));
    aes.append(crate::pdf::object::bytes_length(), Object::Number(kb_n32()));
    let ghost aes_entries = aes.entries();
    proof {
        assert(aes_entries =~= seq![
            (k_cfm(), Value::Name(k_aesv3())),
            (crate::pdf::object::word_length(), Value::Number(k_n32())),
        ]);
    }
    let mut filters = Dict(Vec::new());
    filters.append(kb_std_cf(), Object::Dict(aes));
    proof {
        assert(filters.entries() =~= seq![(k_std_cf(), Value::Dict(aes_entries))]);
    }
    dict.append(kb_cf(), Object::Dict(filters));
    dict.append(kb_stm_f(), Object::Name(kb_std_cf()));
    dict.append(kb_str_f(), Object::Name(kb_std_cf()));
    proof {
        assert(dict.entries() =~= encrypt_entries(security.entries(), security.permitted().0));
    }
    let mut body: Vec<u8> = Vec::new();
    let whole = Object::Dict(dict);
    crate::pdf::reader::write_object(&mut body, &whole);
    body
}

/// One object of the file, sealed.
fn sealed_object(file: &File, object: &Object, security: &Security, random: impl Fn(&mut [u8]) + Copy)
    -> (r: Result<Vec<u8>>)
    requires
        forall|b: &mut [u8]| random.requires((b,)),
    ensures
        r matches Ok(body) ==> sealed_body(file.source(), object.value(), body@, security.key()),
        r is Err ==> match object.value() {
            Value::Stream(d, start, end) => !(0 <= start <= end <= file.source().len())
                || !sealable((end - start) as nat) || !strings_fit(Value::Dict(d)),
            v => !strings_fit(v),
        },
{
    match object {
        Object::Stream(dict, range) => {
            let bytes = file.bytes();
            if !(range.start <= range.end && range.end <= bytes.len()) {
                return Err(PdfError::InvalidArgument(String::from_str("an object runs past the file")));
            }
            let plain = vstd::slice::slice_subrange(bytes, range.start, range.end);
            let whole = Object::Dict(dict.duplicate());
            if !(plain.len() <= (usize::MAX - 64) / 2) || !strings_fit_in(&whole) {
                return Err(PdfError::InvalidArgument(String::from_str("an object is too large to secure")));
            }
            let sealed = security.encrypt(plain, random);
            // The length is now the ciphertext's, vector and padding
            // included; `write_stream` writes it from the data.
            let sealed_dict = encrypt_strings(&whole, security, random);
            proof {
                assert(whole.value() == Value::Dict(dict.entries()));
                assert(sealed_dict.value() is Dict);
                assert(sealed_dict is Dict);
            }
            let dict2 = match sealed_dict {
                Object::Dict(d) => d,
                _ => Dict(Vec::new()),
            };
            proof {
                assert(sealed_value(Value::Dict(dict.entries()), Value::Dict(dict2.entries()), security.key()));
            }
            let body = crate::pdf::reader::write_stream(&dict2, sealed.as_slice());
            proof {
                let iv = sealed@.subrange(0, 16);
                assert(body@ == stream_written(dict2.entries(), sealed_with(security.key(), iv,
                    file.source().subrange(range.start as int, range.end as int))));
            }
            Ok(body)
        },
        other => {
            if !strings_fit_in(other) {
                return Err(PdfError::InvalidArgument(String::from_str("an object is too large to secure")));
            }
            let sealed = encrypt_strings(other, security, random);
            let mut body: Vec<u8> = Vec::new();
            crate::pdf::reader::write_object(&mut body, &sealed);
            proof {
                assert(body@ =~= written(sealed.value()));
            }
            Ok(body)
        },
    }
}

/// Whether an object can be sealed: a stream lies inside the file and is
/// small enough to encrypt, and its dictionary's strings, or the object's
/// own, fit the machine once encrypted.
pub open spec fn sealable_value(s: Seq<u8>, v: Value) -> bool {
    match v {
        Value::Stream(d, start, end) => 0 <= start <= end <= s.len() && sealable((end - start) as nat)
            && strings_fit(Value::Dict(d)),
        v => strings_fit(v),
    }
}

/// Write a secured copy of a file.
///
/// Every string and every stream is encrypted with the file key, a new
/// `/Encrypt` dictionary is added as the object after the highest, and the
/// trailer is pointed at it. What is **not** encrypted, because a reader has
/// to read it before it has a key: the `/Encrypt` dictionary itself, and the
/// `/ID` in the trailer.
#[verifier::spinoff_prover]
#[verifier::rlimit(40)]
pub fn secure(file: &File, security: &Security, random: impl Fn(&mut [u8]) + Copy) -> (r: Result<Vec<u8>>)
    requires
        forall|b: &mut [u8]| random.requires((b,)),
        top_number(file.rows()) < u32::MAX,
    ensures
        lookup(file.trailer_entries(), k_encrypt()) is Some ==> r matches Err(PdfError::Unsupported(_)),
        r matches Ok(out) ==> lookup(file.trailer_entries(), k_encrypt()) is None
            && exists|reps: Seq<(u32, Seq<u8>)>, id: Seq<u8>| id.len() == 16
            && all_sealed(file.source(), file.rows(), reps, security.key())
            && #[trigger] rewritten(file.source(), file.rows(), file.trailer_entries(), reps,
                seq![((top_number(file.rows()) + 1) as u32,
                    written(Value::Dict(encrypt_entries(security.entries(), security.permitted().0))))],
                trailer_additions(file.trailer_entries(), (top_number(file.rows()) + 1) as u32, id),
                Seq::empty()) == Ok::<Seq<u8>, crate::pdf::object::Failure>(out@),
        r is Err && lookup(file.trailer_entries(), k_encrypt()) is None ==> {
            ||| exists|j: int| 0 <= j < file.rows().len() && match #[trigger] object_at(file.source(), file.rows(), file.rows()[j].0) {
                    Err(_) => true,
                    Ok((v, _)) => !sealable_value(file.source(), v),
                }
            ||| exists|reps: Seq<(u32, Seq<u8>)>, id: Seq<u8>| id.len() == 16
                && all_sealed(file.source(), file.rows(), reps, security.key())
                && #[trigger] rewritten(file.source(), file.rows(), file.trailer_entries(), reps,
                    seq![((top_number(file.rows()) + 1) as u32,
                        written(Value::Dict(encrypt_entries(security.entries(), security.permitted().0))))],
                    trailer_additions(file.trailer_entries(), (top_number(file.rows()) + 1) as u32, id),
                    Seq::empty()) is Err
        },
{
    let ghost s = file.source();
    let ghost rows = file.rows();
    let ghost key = security.key();
    // A file that is already secured would have its ciphertext encrypted a
    // second time, and the result would open for nobody. Refused rather than
    // ruined.
    let encrypt_word = kb_encrypt();
    if file.trailer().get(encrypt_word.as_slice()).is_some() {
        return Err(PdfError::Unsupported("that document is already secured — remove its password first"));
    }

    let numbers = file.numbers();
    let mut replacements: Vec<(u32, Vec<u8>)> = Vec::new();
    let mut i: usize = 0;
    while i < numbers.len()
        invariant
            forall|b: &mut [u8]| random.requires((b,)),
            lookup(file.trailer_entries(), k_encrypt()) is None,
            s == file.source(),
            rows == file.rows(),
            key == security.key(),
            numbers@ == rows.map_values(|row: (u32, usize)| row.0),
            i <= numbers@.len(),
            replacements@.len() == i,
            forall|j: int| 0 <= j < i ==> (#[trigger] replacements@[j]).0 == rows[j].0
                && (object_at(s, rows, rows[j].0) matches Ok((v, _)) && sealed_body(s, v, replacements@[j].1@, key)),
        decreases numbers.len() - i,
    {
        let number = numbers[i];
        proof {
            assert(number == rows[i as int].0);
        }
        let object = match file.object(number) {
            Ok(o) => o,
            Err(e) => {
                proof {
                    assert(object_at(s, rows, rows[i as int].0) is Err);
                }
                return Err(e);
            },
        };
        let body = match sealed_object(file, &object, security, random) {
            Ok(b) => b,
            Err(e) => {
                proof {
                    assert(!sealable_value(s, object.value()));
                    assert(match object_at(s, rows, rows[i as int].0) {
                        Err(_) => true,
                        Ok((v, _)) => !sealable_value(s, v),
                    });
                }
                return Err(e);
            },
        };
        replacements.push((number, body));
        i = i + 1;
    }

    // The `/Encrypt` dictionary, as a new object at the end.
    let top: u32 = if numbers.len() == 0 { 0 } else { numbers[numbers.len() - 1] };
    proof {
        if rows.len() > 0 {
            assert(numbers@[numbers@.len() - 1] == rows.last().0);
        }
    }
    let encrypt_number = top + 1;
    let encrypt_body = encrypt_dictionary(security);

    // The trailer points at it, and carries an `/ID`, which revision 6 does
    // not use in its key derivation but which readers still expect a secured
    // file to have.
    let mut trailer = Dict(Vec::new());
    trailer.append(kb_encrypt(), Object::Reference(encrypt_number, 0));
    let id_word = kb_id();
    let mut id = [0u8; 16];
    if file.trailer().get(id_word.as_slice()).is_none() {
        random(&mut id);
        let first = Object::HexString(hex(id.as_slice()));
        let second = Object::HexString(hex(id.as_slice()));
        let pair = vec![first, second];
        proof {
            crate::pdf::object::lemma_array_value(pair);
            assert(crate::pdf::object::values_of(pair@) =~= seq![Value::Hex(hex_text(id@)), Value::Hex(hex_text(id@))]);
        }
        trailer.append(kb_id(), Object::Array(pair));
    }
    proof {
        assert(trailer.entries() =~= trailer_additions(file.trailer_entries(), encrypt_number, id@));
    }
    let extra = vec![(encrypt_number, encrypt_body)];
    proof {
        assert(bodies(extra@) =~= seq![(encrypt_number, encrypt_body@)]);
        assert(numbers@.len() == rows.len());
        assert(replacements@.len() == rows.len());
        assert forall|j: int| 0 <= j < replacements@.len() implies (#[trigger] replacements@[j]).0 == rows[j].0
            && (object_at(s, rows, rows[j].0) matches Ok((v, _)) && sealed_body(s, v, replacements@[j].1@, key)) by {
            assert(j < i);
        }
        lemma_bodies_sealed(s, rows, replacements@, key);
    }
    let r = file.rewrite_adding(replacements.as_slice(), extra.as_slice(), &trailer);
    proof {
        assert(encrypt_number == (top_number(rows) + 1) as u32);
        if r is Ok {
            let out = r->Ok_0;
            assert(all_sealed(s, rows, bodies(replacements@), key));
            assert(rewritten(s, rows, file.trailer_entries(), bodies(replacements@),
                seq![((top_number(rows) + 1) as u32,
                    written(Value::Dict(encrypt_entries(security.entries(), security.permitted().0))))],
                trailer_additions(file.trailer_entries(), (top_number(rows) + 1) as u32, id@),
                Seq::empty()) == Ok::<Seq<u8>, crate::pdf::object::Failure>(out@));
        } else {
            assert(rewritten(s, rows, file.trailer_entries(), bodies(replacements@),
                seq![((top_number(rows) + 1) as u32,
                    written(Value::Dict(encrypt_entries(security.entries(), security.permitted().0))))],
                trailer_additions(file.trailer_entries(), (top_number(rows) + 1) as u32, id@),
                Seq::empty()) is Err);
        }
    }
    r
}

} // verus!
