//! The two ways a PDF writes a string, read back into the bytes they stand
//! for, and bytes written out as hex.

use vstd::prelude::*;
use crate::pdf::cmap::{hex_digits, hex_only, hex_val, is_hex};
use crate::pdf::sign::{hex_digit, hex_digit_of};

verus! {

/// Some bytes as upper-case hex, two digits a byte.
pub open spec fn hex_text(bytes: Seq<u8>) -> Seq<u8> {
    Seq::new(2 * bytes.len(), |k: int|
        if k % 2 == 0 { hex_digit((bytes[k / 2] / 16) as int) } else { hex_digit((bytes[k / 2] % 16) as int) })
}

/// Write bytes as upper-case hex.
pub fn hex(bytes: &[u8]) -> (r: Vec<u8>)
    requires
        2 * bytes@.len() <= usize::MAX,
    ensures
        r@ == hex_text(bytes@),
{
    let mut out: Vec<u8> = Vec::new();
    let mut i: usize = 0;
    while i < bytes.len()
        invariant
            i <= bytes@.len(),
            out@ == hex_text(bytes@.subrange(0, i as int)),
        decreases bytes.len() - i,
    {
        let b = bytes[i];
        out.push(hex_digit_of(b / 16));
        out.push(hex_digit_of(b % 16));
        proof {
            assert(out@ =~= hex_text(bytes@.subrange(0, i + 1)));
        }
        i = i + 1;
    }
    proof {
        assert(bytes@.subrange(0, i as int) =~= bytes@);
    }
    out
}

/// Hex digits as bytes, two to a byte; an odd trailing digit is padded with
/// a zero, as the specification says.
pub open spec fn from_hex_digits(d: Seq<u8>) -> Seq<u8> {
    Seq::new((d.len() + 1) / 2, |i: int|
        (hex_val(d[2 * i]) * 16 + if 2 * i + 1 < d.len() { hex_val(d[2 * i + 1]) } else { 0 }) as u8)
}

/// The bytes a hex string spells; whatever is not a hex digit is skipped.
pub open spec fn hex_decoded(raw: Seq<u8>) -> Seq<u8> {
    from_hex_digits(hex_only(raw))
}

fn hex_byte(b: u8) -> (r: u8)
    requires
        is_hex(b),
    ensures
        r == hex_val(b),
{
    if b <= 57 { b - 48 } else if b <= 70 { b - 55 } else { b - 87 }
}

/// The bytes a hex string spells.
pub fn from_hex(raw: &Vec<u8>) -> (r: Vec<u8>)
    ensures
        r@ == hex_decoded(raw@),
{
    let digits = hex_digits(raw);
    proof {
        crate::pdf::cmap::lemma_hex_only_is_hex(raw@);
    }
    let n = digits.len();
    let pairs = n / 2 + n % 2;
    let mut out: Vec<u8> = Vec::new();
    let mut i: usize = 0;
    while i < pairs
        invariant
            n == digits@.len(),
            pairs == (n + 1) / 2,
            digits@ == hex_only(raw@),
            forall|j: int| 0 <= j < digits@.len() ==> is_hex(#[trigger] digits@[j]),
            i <= pairs,
            out@ == from_hex_digits(digits@).subrange(0, i as int),
        decreases pairs - i,
    {
        let high = hex_byte(digits[2 * i]);
        let low = if 2 * i + 1 < n { hex_byte(digits[2 * i + 1]) } else { 0 };
        out.push(high * 16 + low);
        proof {
            assert(out@ =~= from_hex_digits(digits@).subrange(0, i + 1));
        }
        i = i + 1;
    }
    proof {
        assert(from_hex_digits(digits@).subrange(0, i as int) =~= from_hex_digits(digits@));
    }
    out
}

/// An octal digit.
pub open spec fn is_octal(b: u8) -> bool {
    48 <= b <= 55
}

/// Up to three octal digits from `at`, with `digits` already read into
/// `value`: the value and where the digits end.
pub open spec fn octal_run(raw: Seq<u8>, at: int, digits: nat, value: nat) -> (nat, int)
    decreases 3 - digits,
{
    if digits < 3 && 0 <= at < raw.len() && is_octal(raw[at]) {
        octal_run(raw, at + 1, digits + 1, value * 8 + (raw[at] - 48) as nat)
    } else {
        (value, at)
    }
}

/// A literal string's real bytes from `at` on, escapes resolved: `\n`, `\r`,
/// `\t`, `\b` and `\f` are the control characters they name, a backslash
/// before a line break continues the line, up to three octal digits are one
/// byte, and any other escaped byte is itself. A backslash at the very end
/// ends the string.
pub open spec fn unescaped_from(raw: Seq<u8>, at: int) -> Seq<u8>
    decreases raw.len() - at,
{
    if at < 0 || at >= raw.len() {
        Seq::empty()
    } else if raw[at] != 92 {
        seq![raw[at]] + unescaped_from(raw, at + 1)
    } else if at + 1 >= raw.len() {
        Seq::empty()
    } else {
        let next = raw[at + 1];
        if next == 110 {
            seq![10u8] + unescaped_from(raw, at + 2)
        } else if next == 114 {
            seq![13u8] + unescaped_from(raw, at + 2)
        } else if next == 116 {
            seq![9u8] + unescaped_from(raw, at + 2)
        } else if next == 98 {
            seq![8u8] + unescaped_from(raw, at + 2)
        } else if next == 102 {
            seq![12u8] + unescaped_from(raw, at + 2)
        } else if next == 10 {
            unescaped_from(raw, at + 2)
        } else if next == 13 {
            if at + 2 < raw.len() && raw[at + 2] == 10 {
                unescaped_from(raw, at + 3)
            } else {
                unescaped_from(raw, at + 2)
            }
        } else if is_octal(next) {
            proof {
                lemma_octal_run(raw, at + 1, 0, 0);
            }
            let (value, end) = octal_run(raw, at + 1, 0, 0);
            if end > at + 1 {
                seq![(value % 256) as u8] + unescaped_from(raw, end)
            } else {
                Seq::empty()
            }
        } else {
            seq![next] + unescaped_from(raw, at + 2)
        }
    }
}

/// A literal string's real bytes.
pub open spec fn unescaped(raw: Seq<u8>) -> Seq<u8> {
    unescaped_from(raw, 0)
}

pub proof fn lemma_octal_run(raw: Seq<u8>, at: int, digits: nat, value: nat)
    requires
        digits <= 3,
        value < pow8(digits),
    ensures
        octal_run(raw, at, digits, value).1 >= at,
        octal_run(raw, at, digits, value).1 - at <= 3 - digits,
        octal_run(raw, at, digits, value).0 < 512,
        0 <= at <= raw.len() ==> octal_run(raw, at, digits, value).1 <= raw.len(),
    decreases 3 - digits,
{
    if digits < 3 && 0 <= at < raw.len() && is_octal(raw[at]) {
        let d = (raw[at] - 48) as nat;
        assert(value * 8 + d < pow8(digits + 1)) by (nonlinear_arith)
            requires value < pow8(digits), d < 8, pow8(digits + 1) == pow8(digits) * 8;
        lemma_octal_run(raw, at + 1, digits + 1, value * 8 + d);
    } else {
        assert(pow8(digits) <= 512) by {
            reveal_with_fuel(pow8, 4);
        }
    }
}

/// Eight to the power `n`.
pub open spec fn pow8(n: nat) -> nat
    decreases n,
{
    if n == 0 { 1 } else { 8 * pow8((n - 1) as nat) }
}

/// A literal string's real bytes, escapes resolved.
pub fn unescape(raw: &[u8]) -> (r: Vec<u8>)
    ensures
        r@ == unescaped(raw@),
{
    let n = raw.len();
    let mut out: Vec<u8> = Vec::new();
    let mut at: usize = 0;
    while at < n
        invariant
            n == raw@.len(),
            at <= n,
            out@ + unescaped_from(raw@, at as int) == unescaped(raw@),
        decreases n - at,
    {
        let ghost before = at as int;
        if raw[at] != 92 {
            out.push(raw[at]);
            at = at + 1;
            proof {
                assert(out@ + unescaped_from(raw@, at as int) =~= unescaped(raw@));
            }
        } else if at + 1 >= n {
            proof {
                assert(unescaped_from(raw@, before) =~= Seq::<u8>::empty());
                assert(out@ =~= unescaped(raw@));
            }
            return out;
        } else {
            let next = raw[at + 1];
            if next == 110 || next == 114 || next == 116 || next == 98 || next == 102 {
                let c: u8 = if next == 110 { 10 } else if next == 114 { 13 } else if next == 116 { 9 }
                    else if next == 98 { 8 } else { 12 };
                out.push(c);
                at = at + 2;
                proof {
                    assert(out@ + unescaped_from(raw@, at as int) =~= unescaped(raw@));
                }
            } else if next == 10 {
                at = at + 2;
            } else if next == 13 {
                at = at + 2;
                if at < n && raw[at] == 10 {
                    at = at + 1;
                }
            } else if 48 <= next && next <= 55 {
                let mut value: u16 = 0;
                let mut digits: usize = 0;
                let mut cursor: usize = at + 1;
                proof {
                    lemma_octal_run(raw@, cursor as int, 0, 0);
                }
                while digits < 3 && cursor < n && 48 <= raw[cursor] && raw[cursor] <= 55
                    invariant
                        n == raw@.len(),
                        at + 1 <= cursor <= n,
                        digits <= 3,
                        cursor == at + 1 + digits,
                        value < pow8(digits as nat),
                        octal_run(raw@, cursor as int, digits as nat, value as nat)
                            == octal_run(raw@, at + 1, 0, 0),
                    decreases 3 - digits,
                {
                    let d = raw[cursor] - 48;
                    proof {
                        assert(value * 8 + d < pow8((digits + 1) as nat)) by (nonlinear_arith)
                            requires value < pow8(digits as nat), d < 8,
                                pow8((digits + 1) as nat) == pow8(digits as nat) * 8;
                        assert(pow8(3) == 512) by {
                            reveal_with_fuel(pow8, 4);
                        }
                        if digits + 1 <= 3 {
                            lemma_pow8_grows((digits + 1) as nat);
                        }
                    }
                    value = value * 8 + d as u16;
                    cursor = cursor + 1;
                    digits = digits + 1;
                }
                proof {
                    assert(digits >= 1);
                }
                out.push((value % 256) as u8);
                at = cursor;
                proof {
                    assert(out@ + unescaped_from(raw@, at as int) =~= unescaped(raw@));
                }
            } else {
                out.push(next);
                at = at + 2;
                proof {
                    assert(out@ + unescaped_from(raw@, at as int) =~= unescaped(raw@));
                }
            }
        }
    }
    proof {
        assert(unescaped_from(raw@, at as int) =~= Seq::<u8>::empty());
        assert(out@ =~= unescaped(raw@));
    }
    out
}

proof fn lemma_pow8_grows(k: nat)
    requires
        k <= 3,
    ensures
        pow8(k) <= 512,
{
    reveal_with_fuel(pow8, 4);
}

} // verus!
