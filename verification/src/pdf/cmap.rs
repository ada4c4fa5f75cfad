//! A font's `/ToUnicode` map: which characters each character code produces.
//!
//! Cutting text out of a content stream means turning "the reader selected
//! characters 14 to 22" into "codes 14 to 22 of this string". Those two are
//! the same number only when every code produces exactly one character, and
//! real files break that in both directions — a ligature code produces two,
//! and a soft hyphen produces one that PDFium leaves out of its extracted text
//! altogether.
//!
//! This reads the table that says so: only `bfchar` and `bfrange`, and
//! anything it does not understand comes back missing rather than guessed, so
//! the caller falls back rather than cutting at an invented offset.

use vstd::prelude::*;
use std::collections::BTreeMap;
use crate::pdf::object::{parse_object, run_end, skip, values_of, Lexer, Object, Value};

verus! {

/// What each character code spells.
pub type ToUnicode = BTreeMap<u32, String>;

/// A hexadecimal digit, as `u8::is_ascii_hexdigit` has it.
pub open spec fn is_hex(b: u8) -> bool {
    (48 <= b <= 57) || (65 <= b <= 70) || (97 <= b <= 102)
}

pub open spec fn hex_val(b: u8) -> nat {
    if b <= 57 { (b - 48) as nat } else if b <= 70 { (b - 55) as nat } else { (b - 87) as nat }
}

/// The hexadecimal digits among some bytes, in order.
pub open spec fn hex_only(raw: Seq<u8>) -> Seq<u8>
    decreases raw.len(),
{
    if raw.len() == 0 {
        Seq::empty()
    } else if is_hex(raw.last()) {
        hex_only(raw.drop_last()).push(raw.last())
    } else {
        hex_only(raw.drop_last())
    }
}

/// The value of some hexadecimal digits.
pub open spec fn hex_value(d: Seq<u8>) -> nat
    decreases d.len(),
{
    if d.len() == 0 { 0 } else { hex_value(d.drop_last()) * 16 + hex_val(d.last()) }
}

/// A source code: a hex string of one to eight digits.
pub open spec fn code_value(v: Value) -> Option<u32> {
    match v {
        Value::Hex(raw) => {
            let d = hex_only(raw);
            if d.len() == 0 || d.len() > 8 { None } else { Some(hex_value(d) as u32) }
        },
        _ => None,
    }
}

/// Hex digits read four at a time as UTF-16 units; a short chunk at the end
/// is left out.
pub open spec fn units_of(d: Seq<u8>) -> Seq<u16> {
    Seq::new(d.len() / 4, |i: int| hex_value(d.subrange(4 * i, 4 * i + 4)) as u16)
}

/// What a destination spells, as UTF-16BE units.
pub open spec fn text_units(v: Value) -> Option<Seq<u16>> {
    match v {
        Value::Hex(raw) => Some(units_of(hex_only(raw))),
        _ => None,
    }
}

/// UTF-16 decoded, or `None` at a lone surrogate.
pub open spec fn utf16_text(u: Seq<u16>) -> Option<Seq<char>>
    decreases u.len(),
{
    if u.len() == 0 {
        Some(Seq::empty())
    } else if u[0] < 0xD800 || u[0] > 0xDFFF {
        match utf16_text(u.drop_first()) {
            Some(t) => Some(seq![u[0] as char] + t),
            None => None,
        }
    } else if u[0] <= 0xDBFF && u.len() >= 2 && 0xDC00 <= u[1] <= 0xDFFF {
        match utf16_text(u.subrange(2, u.len() as int)) {
            Some(t) => Some(seq![(0x10000 + (u[0] - 0xD800) * 0x400 + (u[1] - 0xDC00)) as char] + t),
            None => None,
        }
    } else {
        None
    }
}

/// Text decoded from UTF-16, as `String::from_utf16` decodes it.
#[verifier::external_body]
fn from_utf16(units: &[u16]) -> (r: Option<String>)
    ensures
        match utf16_text(units@) {
            Some(t) => r matches Some(s) && s@ == t,
            None => r is None,
        },
{
    String::from_utf16(units).ok()
}

/// The map with `code` spelling the decoded units, when they decode.
pub open spec fn put_text(m: Map<u32, Seq<char>>, code: u32, units: Seq<u16>) -> Map<u32, Seq<char>> {
    match utf16_text(units) {
        Some(t) => m.insert(code, t),
        None => m,
    }
}

/// `bfchar` pairs from pair `k` on: source code, then what it spells.
pub open spec fn bf_chars(p: Seq<Value>, k: int, m: Map<u32, Seq<char>>) -> Map<u32, Seq<char>>
    decreases p.len() - k,
{
    if k < 0 || 2 * k + 1 >= p.len() {
        m
    } else {
        let next = match (code_value(p[2 * k]), text_units(p[2 * k + 1])) {
            (Some(c), Some(u)) => put_text(m, c, u),
            _ => m,
        };
        bf_chars(p, k + 1, next)
    }
}

/// A range given as a list: one entry per code from `low` to `high`; items
/// past `high` name no code and are left alone.
pub open spec fn list_range(items: Seq<Value>, low: u32, high: u32, i: int, m: Map<u32, Seq<char>>) -> Map<u32, Seq<char>>
    decreases items.len() - i,
{
    if i < 0 || i >= items.len() || low + i > high {
        m
    } else {
        let next = match text_units(items[i]) {
            Some(u) => put_text(m, (low + i) as u32, u),
            None => m,
        };
        list_range(items, low, high, i + 1, next)
    }
}

/// A range given by its first value: the *last* unit counts up across the
/// range, everything before it is a prefix shared by every code in it, and
/// the count stops where the unit would pass `0xFFFF`.
pub open spec fn step_range(prefix: Seq<u16>, last: u16, low: u32, span: nat, step: nat, m: Map<u32, Seq<char>>)
    -> Map<u32, Seq<char>>
    decreases span + 1 - step,
{
    if step > span || last + step > 0xFFFF {
        m
    } else {
        step_range(prefix, last, low, span, step + 1,
            put_text(m, (low + step) as u32, prefix.push((last + step) as u16)))
    }
}

/// `bfrange` triples from triple `k` on: low, high, and either a starting
/// value or a list. A range that runs backwards, or one long enough to be a
/// mistake, is skipped rather than expanded.
pub open spec fn bf_ranges(p: Seq<Value>, k: int, m: Map<u32, Seq<char>>) -> Map<u32, Seq<char>>
    decreases p.len() - k,
{
    if k < 0 || 3 * k + 2 >= p.len() {
        m
    } else {
        let next = match (code_value(p[3 * k]), code_value(p[3 * k + 1])) {
            (Some(low), Some(high)) => if high < low || high - low > 0xFFFF {
                m
            } else {
                match p[3 * k + 2] {
                    Value::Array(items) => list_range(items, low, high, 0, m),
                    other => match text_units(other) {
                        Some(u) => if utf16_text(u) is None || u.len() == 0 {
                            m
                        } else {
                            step_range(u.drop_last(), u.last(), low, (high - low) as nat, 0, m)
                        },
                        None => m,
                    },
                }
            },
            _ => m,
        };
        bf_ranges(p, k + 1, next)
    }
}

/// Whether a byte begins a value rather than a keyword.
pub open spec fn begins_value(b: u8) -> bool {
    b == 60 || b == 91 || b == 40 || b == 47 || crate::text::is_digit(b) || b == 43 || b == 45 || b == 46
}

pub open spec fn word_endbfchar() -> Seq<u8> {
    seq![101u8, 110u8, 100u8, 98u8, 102u8, 99u8, 104u8, 97u8, 114u8]
}

pub open spec fn word_endbfrange() -> Seq<u8> {
    seq![101u8, 110u8, 100u8, 98u8, 102u8, 114u8, 97u8, 110u8, 103u8, 101u8]
}

/// The map read from `at` on, given the values waiting for their keyword.
///
/// Operands accumulate before their operator, exactly as in a content stream.
/// A malformed value ends the read rather than derailing it; what was
/// gathered so far is still true.
pub open spec fn read_from(s: Seq<u8>, at: int, pending: Seq<Value>, m: Map<u32, Seq<char>>) -> Map<u32, Seq<char>>
    decreases s.len() - at,
{
    let p = skip(s, at);
    proof {
        crate::pdf::object::lemma_space_end_bounds(s, at, false);
        crate::pdf::object::lemma_run_end_bounds(s, p);
    }
    if at < 0 || p >= s.len() {
        m
    } else if begins_value(s[p]) {
        match parse_object(s, p) {
            Ok((v, e)) => if e <= at || e > s.len() { m } else { read_from(s, e, pending.push(v), m) },
            Err(_) => m,
        }
    } else {
        let e = run_end(s, p);
        let word = s.subrange(p, e);
        if e <= p {
            m
        } else if word == word_endbfchar() {
            read_from(s, e, Seq::empty(), bf_chars(pending, 0, m))
        } else if word == word_endbfrange() {
            read_from(s, e, Seq::empty(), bf_ranges(pending, 0, m))
        } else {
            read_from(s, e, Seq::empty(), m)
        }
    }
}

/// The map a `/ToUnicode` CMap's bytes give.
pub open spec fn to_unicode(s: Seq<u8>) -> Map<u32, Seq<char>> {
    read_from(s, 0, Seq::empty(), Map::empty())
}

/// Whether a map of strings says what a map of texts does.
pub open spec fn says(out: Map<u32, String>, m: Map<u32, Seq<char>>) -> bool {
    out.dom() == m.dom() && forall|k: u32| #[trigger] out.contains_key(k) ==> out[k]@ == m[k]
}


proof fn lemma_list_keeps(items: Seq<Value>, low: u32, high: u32, i: int, m: Map<u32, Seq<char>>)
    ensures
        m.dom().subset_of(list_range(items, low, high, i, m).dom()),
    decreases items.len() - i,
{
    if !(i < 0 || i >= items.len() || low + i > high) {
        let next = match text_units(items[i]) {
            Some(u) => put_text(m, (low + i) as u32, u),
            None => m,
        };
        lemma_list_keeps(items, low, high, i + 1, next);
    }
}

proof fn lemma_step_keeps(prefix: Seq<u16>, last: u16, low: u32, span: nat, step: nat, m: Map<u32, Seq<char>>)
    ensures
        m.dom().subset_of(step_range(prefix, last, low, span, step, m).dom()),
    decreases span + 1 - step,
{
    if !(step > span || last + step > 0xFFFF) {
        lemma_step_keeps(prefix, last, low, span, step + 1,
            put_text(m, (low + step) as u32, prefix.push((last + step) as u16)));
    }
}

proof fn lemma_ranges_keep(p: Seq<Value>, k: int, m: Map<u32, Seq<char>>)
    ensures
        m.dom().subset_of(bf_ranges(p, k, m).dom()),
    decreases p.len() - k,
{
    if !(k < 0 || 3 * k + 2 >= p.len()) {
        let next = match (code_value(p[3 * k]), code_value(p[3 * k + 1])) {
            (Some(low), Some(high)) => if high < low || high - low > 0xFFFF {
                m
            } else {
                match p[3 * k + 2] {
                    Value::Array(items) => {
                        lemma_list_keeps(items, low, high, 0, m);
                        list_range(items, low, high, 0, m)
                    },
                    other => match text_units(other) {
                        Some(u) => if utf16_text(u) is None || u.len() == 0 {
                            m
                        } else {
                            lemma_step_keeps(u.drop_last(), u.last(), low, (high - low) as nat, 0, m);
                            step_range(u.drop_last(), u.last(), low, (high - low) as nat, 0, m)
                        },
                        None => m,
                    },
                }
            },
            _ => m,
        };
        lemma_ranges_keep(p, k + 1, next);
    }
}

/// Whether code `low + i` of triple `k` of a `bfrange` section has text:
/// the triple's two codes read, run forwards and not absurdly far, `i` is
/// within the range, and the text for it decodes — the `i`th entry of a
/// list, or the starting string with its last unit counted up by `i`.
pub open spec fn ranged_code(p: Seq<Value>, k: int, i: nat) -> bool {
    &&& 0 <= k && 3 * k + 2 < p.len()
    &&& code_value(p[3 * k]) matches Some(low) && code_value(p[3 * k + 1]) matches Some(high)
        && low <= high && high - low <= 0xFFFF && low + i <= high
    &&& match p[3 * k + 2] {
        Value::Array(items) => i < items.len() && (text_units(items[i as int]) matches Some(u) && utf16_text(u) is Some),
        other => text_units(other) matches Some(u) && u.len() > 0 && utf16_text(u) is Some
            && u.last() + i <= 0xFFFF && utf16_text(u.drop_last().push((u.last() + i) as u16)) is Some,
    }
}

proof fn lemma_list_reaches(items: Seq<Value>, low: u32, high: u32, t: int, m: Map<u32, Seq<char>>, i: int)
    requires
        0 <= t <= i < items.len(),
        low + i <= high,
        text_units(items[i]) matches Some(u) && utf16_text(u) is Some,
    ensures
        list_range(items, low, high, t, m).contains_key((low + i) as u32),
    decreases items.len() - t,
{
    let next = match text_units(items[t]) {
        Some(u) => put_text(m, (low + t) as u32, u),
        None => m,
    };
    if t < i {
        lemma_list_reaches(items, low, high, t + 1, next, i);
    } else {
        lemma_list_keeps(items, low, high, t + 1, next);
    }
}

proof fn lemma_step_reaches(prefix: Seq<u16>, last: u16, low: u32, span: nat, t: nat, m: Map<u32, Seq<char>>, i: nat)
    requires
        t <= i <= span,
        last + i <= 0xFFFF,
        utf16_text(prefix.push((last + i) as u16)) is Some,
    ensures
        step_range(prefix, last, low, span, t, m).contains_key((low + i) as u32),
    decreases span + 1 - t,
{
    let next = put_text(m, (low + t) as u32, prefix.push((last + t) as u16));
    if t < i {
        lemma_step_reaches(prefix, last, low, span, t + 1, next, i);
    } else {
        lemma_step_keeps(prefix, last, low, span, t + 1, next);
    }
}

/// **Every range of a `bfrange` section is read, and every code of it**:
/// each code a triple gives text for is in the map the section gives,
/// whichever triple of the section it is; and so is every code the map held
/// before.
pub proof fn law_every_range_of_a_section_is_read(p: Seq<Value>, m: Map<u32, Seq<char>>, k: int, i: nat)
    requires
        ranged_code(p, k, i),
    ensures
        bf_ranges(p, 0, m).contains_key((code_value(p[3 * k])->Some_0 + i) as u32),
        m.dom().subset_of(bf_ranges(p, 0, m).dom()),
{
    lemma_ranges_keep(p, 0, m);
    lemma_range_reached(p, 0, m, k, i);
}

proof fn lemma_range_reached(p: Seq<Value>, j: int, m: Map<u32, Seq<char>>, k: int, i: nat)
    requires
        ranged_code(p, k, i),
        0 <= j <= k,
    ensures
        bf_ranges(p, j, m).contains_key((code_value(p[3 * k])->Some_0 + i) as u32),
    decreases k - j,
{
    let next = match (code_value(p[3 * j]), code_value(p[3 * j + 1])) {
        (Some(low), Some(high)) => if high < low || high - low > 0xFFFF {
            m
        } else {
            match p[3 * j + 2] {
                Value::Array(items) => list_range(items, low, high, 0, m),
                other => match text_units(other) {
                    Some(u) => if utf16_text(u) is None || u.len() == 0 {
                        m
                    } else {
                        step_range(u.drop_last(), u.last(), low, (high - low) as nat, 0, m)
                    },
                    None => m,
                },
            }
        },
        _ => m,
    };
    assert(bf_ranges(p, j, m) == bf_ranges(p, j + 1, next));
    if j < k {
        lemma_range_reached(p, j + 1, next, k, i);
    } else {
        let low = code_value(p[3 * k])->Some_0;
        let high = code_value(p[3 * k + 1])->Some_0;
        match p[3 * k + 2] {
            Value::Array(items) => {
                lemma_list_reaches(items, low, high, 0, m, i as int);
            },
            other => {
                let u = text_units(other)->Some_0;
                lemma_step_reaches(u.drop_last(), u.last(), low, (high - low) as nat, 0, m, i);
            },
        }
        lemma_ranges_keep(p, k + 1, next);
    }
}

pub open spec fn pow16(n: nat) -> nat
    decreases n,
{
    if n == 0 { 1 } else { pow16((n - 1) as nat) * 16 }
}

pub proof fn lemma_hex_value_bound(d: Seq<u8>)
    requires
        forall|i: int| 0 <= i < d.len() ==> is_hex(#[trigger] d[i]),
    ensures
        hex_value(d) < pow16(d.len()),
    decreases d.len(),
{
    if d.len() > 0 {
        assert(is_hex(d[d.len() - 1]));
        lemma_hex_value_bound(d.drop_last());
        let a = hex_value(d.drop_last());
        let b = pow16((d.len() - 1) as nat);
        let h = hex_val(d.last());
        assert(h < 16);
        assert(a * 16 + h < b * 16) by (nonlinear_arith)
            requires a < b, h < 16;
    }
}

pub proof fn lemma_hex_only_is_hex(raw: Seq<u8>)
    ensures
        forall|i: int| 0 <= i < hex_only(raw).len() ==> is_hex(#[trigger] hex_only(raw)[i]),
    decreases raw.len(),
{
    if raw.len() > 0 {
        lemma_hex_only_is_hex(raw.drop_last());
        let before = hex_only(raw.drop_last());
        if is_hex(raw.last()) {
            assert forall|i: int| 0 <= i < hex_only(raw).len() implies is_hex(#[trigger] hex_only(raw)[i]) by {
                if i < before.len() {
                    assert(hex_only(raw)[i] == before[i]);
                }
            }
        }
    }
}

pub(crate) fn is_hex_byte(b: u8) -> (r: bool)
    ensures
        r == is_hex(b),
{
    (48 <= b && b <= 57) || (65 <= b && b <= 70) || (97 <= b && b <= 102)
}

/// The hexadecimal digits among some bytes.
pub(crate) fn hex_digits(raw: &Vec<u8>) -> (r: Vec<u8>)
    ensures
        r@ == hex_only(raw@),
{
    let mut out: Vec<u8> = Vec::new();
    let mut i: usize = 0;
    while i < raw.len()
        invariant
            i <= raw@.len(),
            out@ == hex_only(raw@.subrange(0, i as int)),
        decreases raw.len() - i,
    {
        proof {
            assert(raw@.subrange(0, i + 1).drop_last() =~= raw@.subrange(0, i as int));
        }
        if is_hex_byte(raw[i]) {
            out.push(raw[i]);
        }
        i = i + 1;
    }
    proof {
        assert(raw@.subrange(0, i as int) =~= raw@);
    }
    out
}

/// The value of `d[from..to]`, eight digits at most.
fn hex_number(d: &Vec<u8>, from: usize, to: usize) -> (r: u32)
    requires
        from <= to <= d@.len(),
        to - from <= 8,
        forall|i: int| 0 <= i < d@.len() ==> is_hex(#[trigger] d@[i]),
    ensures
        r == hex_value(d@.subrange(from as int, to as int)),
{
    let mut acc: u64 = 0;
    let mut i: usize = from;
    while i < to
        invariant
            from <= i <= to <= d@.len(),
            to - from <= 8,
            forall|j: int| 0 <= j < d@.len() ==> is_hex(#[trigger] d@[j]),
            acc == hex_value(d@.subrange(from as int, i as int)),
            acc < pow16((i - from) as nat),
        decreases to - i,
    {
        let b = d[i];
        let v: u64 = if b <= 57 { (b - 48) as u64 } else if b <= 70 { (b - 55) as u64 } else { (b - 87) as u64 };
        proof {
            assert(is_hex(d@[i as int]));
            assert(d@.subrange(from as int, i + 1).drop_last() =~= d@.subrange(from as int, i as int));
            lemma_pow16_small((i - from) as nat);
        }
        acc = acc * 16 + v;
        i = i + 1;
        proof {
            let k = (i - from) as nat;
            assert(pow16(k) == pow16((k - 1) as nat) * 16);
        }
    }
    proof {
        lemma_pow16_small((to - from) as nat);
    }
    acc as u32
}

proof fn lemma_pow16_small(n: nat)
    requires
        n <= 8,
    ensures
        pow16(n) <= 0x1_0000_0000,
{
    reveal_with_fuel(pow16, 9);
    if n == 0 {} else if n == 1 {} else if n == 2 {} else if n == 3 {} else if n == 4 {}
    else if n == 5 {} else if n == 6 {} else if n == 7 {} else {}
}

/// A source code, as a hex string of one to eight digits.
fn code_of(object: &Object) -> (r: Option<u32>)
    ensures
        r == code_value(object.value()),
{
    match object {
        Object::HexString(raw) => {
            let digits = hex_digits(raw);
            proof {
                lemma_hex_only_is_hex(raw@);
            }
            if digits.len() == 0 || digits.len() > 8 {
                return None;
            }
            let v = hex_number(&digits, 0, digits.len());
            proof {
                assert(digits@.subrange(0, digits@.len() as int) =~= digits@);
            }
            Some(v)
        },
        _ => None,
    }
}

/// What a destination spells, as UTF-16BE units.
fn units_from(object: &Object) -> (r: Option<Vec<u16>>)
    ensures
        match text_units(object.value()) {
            Some(u) => r matches Some(v) && v@ == u,
            None => r is None,
        },
{
    match object {
        Object::HexString(raw) => {
            let digits = hex_digits(raw);
            proof {
                lemma_hex_only_is_hex(raw@);
            }
            let mut units: Vec<u16> = Vec::new();
            let mut k: usize = 0;
            while k < digits.len() / 4
                invariant
                    k <= digits@.len() / 4,
                    forall|j: int| 0 <= j < digits@.len() ==> is_hex(#[trigger] digits@[j]),
                    units@ == units_of(digits@).subrange(0, k as int),
                decreases digits.len() / 4 - k,
            {
                let v = hex_number(&digits, 4 * k, 4 * k + 4);
                proof {
                    lemma_hex_value_bound(digits@.subrange(4 * k, 4 * k + 4));
                    assert(pow16(4) == 65536) by {
                        reveal_with_fuel(pow16, 5);
                    }
                }
                units.push(v as u16);
                k = k + 1;
                proof {
                    assert(units@ =~= units_of(digits@).subrange(0, k as int));
                }
            }
            proof {
                assert(units_of(digits@).subrange(0, k as int) =~= units_of(digits@));
            }
            Some(units)
        },
        _ => None,
    }
}

/// Put what `units` spell at `code`, when they decode.
fn put(out: &mut ToUnicode, code: u32, units: &Vec<u16>, Ghost(m): Ghost<Map<u32, Seq<char>>>)
    requires
        says(old(out)@, m),
    ensures
        says(final(out)@, put_text(m, code, units@)),
{
    match from_utf16(units.as_slice()) {
        Some(text) => {
            out.insert(code, text);
            proof {
                assert(out@.dom() =~= put_text(m, code, units@).dom());
            }
        },
        None => {},
    }
}


/// `bfchar` pairs: source code, then what it spells.
fn apply_chars(pending: &Vec<Object>, out: &mut ToUnicode, Ghost(m): Ghost<Map<u32, Seq<char>>>)
    requires
        says(old(out)@, m),
    ensures
        says(final(out)@, bf_chars(values_of(pending@), 0, m)),
{
    let ghost p = values_of(pending@);
    let ghost mut mk = m;
    let mut k: usize = 0;
    while k < pending.len() / 2
        invariant
            p == values_of(pending@),
            k <= pending@.len() / 2,
            says(out@, mk),
            bf_chars(p, k as int, mk) == bf_chars(p, 0, m),
        decreases pending.len() / 2 - k,
    {
        let ghost next = match (code_value(p[2 * k]), text_units(p[2 * k + 1])) {
            (Some(c), Some(u)) => put_text(mk, c, u),
            _ => mk,
        };
        match (code_of(&pending[2 * k]), units_from(&pending[2 * k + 1])) {
            (Some(code), Some(units)) => {
                put(out, code, &units, Ghost(mk));
            },
            _ => {},
        }
        proof {
            mk = next;
        }
        k = k + 1;
    }
}

/// A range given as a list, one entry per code from `low` to `high`.
fn apply_list(items: &Vec<Object>, low: u32, high: u32, out: &mut ToUnicode, Ghost(m): Ghost<Map<u32, Seq<char>>>)
    requires
        says(old(out)@, m),
        low <= high,
    ensures
        says(final(out)@, list_range(values_of(items@), low, high, 0, m)),
{
    let ghost vs = values_of(items@);
    let ghost mut mi = m;
    let span: u32 = high - low;
    let mut i: usize = 0;
    while i < items.len() && (i as u64) <= (span as u64)
        invariant
            vs == values_of(items@),
            span == high - low,
            i <= items@.len(),
            says(out@, mi),
            list_range(vs, low, high, i as int, mi) == list_range(vs, low, high, 0, m),
        decreases items.len() - i,
    {
        let ghost next = match text_units(vs[i as int]) {
            Some(u) => put_text(mi, (low + i) as u32, u),
            None => mi,
        };
        match units_from(&items[i]) {
            Some(units) => {
                let code: u32 = low + i as u32;
                put(out, code, &units, Ghost(mi));
            },
            None => {},
        }
        proof {
            mi = next;
        }
        i = i + 1;
    }
}

/// A range given by its first value, counted up in its last unit.
fn apply_steps(prefix: &Vec<u16>, last: u16, low: u32, span: u32, out: &mut ToUnicode, Ghost(m): Ghost<Map<u32, Seq<char>>>)
    requires
        says(old(out)@, m),
        span <= 0xFFFF,
        low + span <= u32::MAX,
    ensures
        says(final(out)@, step_range(prefix@, last, low, span as nat, 0, m)),
{
    let ghost mut ms = m;
    let mut step: u32 = 0;
    while step <= span
        invariant
            span <= 0xFFFF,
            low + span <= u32::MAX,
            step <= span + 1,
            says(out@, ms),
            step_range(prefix@, last, low, span as nat, step as nat, ms) == step_range(prefix@, last, low, span as nat, 0, m),
        decreases span + 1 - step,
    {
        if last as u32 + step > 0xFFFF {
            return;
        }
        let unit: u16 = (last as u32 + step) as u16;
        let mut all = vstd::slice::slice_to_vec(prefix.as_slice());
        all.push(unit);
        let ghost next = put_text(ms, (low + step) as u32, prefix@.push((last + step) as u16));
        put(out, low + step, &all, Ghost(ms));
        proof {
            ms = next;
        }
        step = step + 1;
    }
}

/// `bfrange` triples: low, high, and either a starting value or a list.
fn apply_ranges(pending: &Vec<Object>, out: &mut ToUnicode, Ghost(m): Ghost<Map<u32, Seq<char>>>)
    requires
        says(old(out)@, m),
    ensures
        says(final(out)@, bf_ranges(values_of(pending@), 0, m)),
{
    let ghost p = values_of(pending@);
    let ghost mut mk = m;
    let mut k: usize = 0;
    while k < pending.len() / 3
        invariant
            p == values_of(pending@),
            k <= pending@.len() / 3,
            says(out@, mk),
            bf_ranges(p, k as int, mk) == bf_ranges(p, 0, m),
        decreases pending.len() / 3 - k,
    {
        let ghost before = mk;
        let low = code_of(&pending[3 * k]);
        let high = code_of(&pending[3 * k + 1]);
        match (low, high) {
            (Some(low), Some(high)) => {
                if !(high < low || high - low > 0xFFFF) {
                    match &pending[3 * k + 2] {
                        Object::Array(items) => {
                            apply_list(items, low, high, out, Ghost(mk));
                            proof {
                                assert(values_of(items@) == p[3 * k + 2]->Array_0) by {
                                    assert(values_of(items@) =~= p[3 * k + 2]->Array_0);
                                }
                                mk = list_range(values_of(items@), low, high, 0, before);
                            }
                        },
                        other => {
                            match units_from(other) {
                                Some(units) => {
                                    let decodes = from_utf16(units.as_slice()).is_some();
                                    if decodes && units.len() > 0 {
                                        let mut prefix = units;
                                        let last = match prefix.pop() {
                                            Some(u) => u,
                                            None => 0,
                                        };
                                        apply_steps(&prefix, last, low, high - low, out, Ghost(mk));
                                        proof {
                                            mk = step_range(prefix@, last, low, (high - low) as nat, 0, before);
                                        }
                                    }
                                },
                                None => {},
                            }
                        },
                    }
                }
            },
            _ => {},
        }
        proof {
            assert(bf_ranges(p, k as int, before) == bf_ranges(p, k + 1, mk));
        }
        k = k + 1;
    }
}


/// Read a `/ToUnicode` CMap.
///
/// Unmapped codes are simply absent — a caller must treat that as "unknown",
/// not as "produces nothing".
pub fn parse(bytes: &[u8]) -> (r: ToUnicode)
    ensures
        says(r@, to_unicode(bytes@)),
{
    let ghost s = bytes@;
    let n = bytes.len();
    let mut out: ToUnicode = BTreeMap::new();
    let mut lexer = Lexer::new(bytes, 0);
    let mut pending: Vec<Object> = Vec::new();
    let ghost mut m: Map<u32, Seq<char>> = Map::empty();
    let ghost target = to_unicode(s);
    proof {
        assert(values_of(pending@) =~= Seq::<Value>::empty());
        assert(out@.dom() =~= m.dom());
    }
    loop
        invariant
            lexer.bytes@ == s,
            s == bytes@,
            n == s.len(),
            lexer.at <= n,
            target == to_unicode(s),
            says(out@, m),
            read_from(s, lexer.at as int, values_of(pending@), m) == target,
        decreases n - lexer.at,
    {
        let ghost at0 = lexer.at as int;
        lexer.skip_space();
        proof {
            crate::pdf::object::lemma_space_end_bounds(s, at0, false);
            crate::pdf::object::lemma_skip_stops(s, at0, false);
        }
        if lexer.at >= n {
            return out;
        }
        let b = bytes[lexer.at];
        if b == 60 || b == 91 || b == 40 || b == 47 || (48 <= b && b <= 57) || b == 43 || b == 45 || b == 46 {
            match lexer.object() {
                Ok(object) => {
                    let ghost before = values_of(pending@);
                    pending.push(object);
                    proof {
                        assert(values_of(pending@) =~= before.push(object.value()));
                    }
                },
                // A malformed value ends the read rather than derailing it;
                // what was gathered so far is still true.
                Err(_) => {
                    return out;
                },
            }
        } else {
            let keyword = lexer.token();
            if keyword.len() == 0 {
                return out;
            }
            let endbfchar = vec![101u8, 110u8, 100u8, 98u8, 102u8, 99u8, 104u8, 97u8, 114u8];
            let endbfrange = vec![101u8, 110u8, 100u8, 98u8, 102u8, 114u8, 97u8, 110u8, 103u8, 101u8];
            proof {
                assert(endbfchar@ =~= word_endbfchar());
                assert(endbfrange@ =~= word_endbfrange());
            }
            if crate::pdf::object::same_bytes(keyword, endbfchar.as_slice()) {
                apply_chars(&pending, &mut out, Ghost(m));
                proof {
                    m = bf_chars(values_of(pending@), 0, m);
                }
            } else if crate::pdf::object::same_bytes(keyword, endbfrange.as_slice()) {
                apply_ranges(&pending, &mut out, Ghost(m));
                proof {
                    m = bf_ranges(values_of(pending@), 0, m);
                }
            }
            // `beginbfchar`, `endcodespacerange` and the rest carry values this
            // does not need; dropping them keeps the next section clean.
            pending.clear();
            proof {
                assert(values_of(pending@) =~= Seq::<Value>::empty());
            }
        }
    }
}

} // verus!
