//! Small pieces of text handling shared by the rest of the crate: decimal
//! numerals, ASCII case folding and substring search.

use vstd::prelude::*;

verus! {

/// The character for a decimal digit.
pub open spec fn digit_char(d: nat) -> char {
    if d == 0 { '0' } else if d == 1 { '1' } else if d == 2 { '2' } else if d == 3 { '3' }
    else if d == 4 { '4' } else if d == 5 { '5' } else if d == 6 { '6' } else if d == 7 { '7' }
    else if d == 8 { '8' } else { '9' }
}

/// The decimal numeral of a natural number, without leading zeros.
pub open spec fn decimal(n: nat) -> Seq<char>
    decreases n,
{
    if n < 10 {
        seq![digit_char(n)]
    } else {
        decimal(n / 10).push(digit_char(n % 10))
    }
}

/// The decimal numeral of an integer, with a leading `-` when negative.
pub open spec fn signed_decimal(n: int) -> Seq<char> {
    if n < 0 { seq!['-'] + decimal((-n) as nat) } else { decimal(n as nat) }
}

/// A one-character string literal for a digit.
fn digit_str(d: u64) -> (s: &'static str)
    requires
        d < 10,
    ensures
        s@ == seq![digit_char(d as nat)],
{
    proof {
        reveal_strlit("0");
        reveal_strlit("1");
        reveal_strlit("2");
        reveal_strlit("3");
        reveal_strlit("4");
        reveal_strlit("5");
        reveal_strlit("6");
        reveal_strlit("7");
        reveal_strlit("8");
        reveal_strlit("9");
    }
    if d == 0 { "0" } else if d == 1 { "1" } else if d == 2 { "2" } else if d == 3 { "3" }
    else if d == 4 { "4" } else if d == 5 { "5" } else if d == 6 { "6" } else if d == 7 { "7" }
    else if d == 8 { "8" } else { "9" }
}

/// Append the decimal numeral of `n`.
pub fn push_decimal(out: &mut String, n: u64)
    ensures
        final(out)@ == old(out)@ + decimal(n as nat),
    decreases n,
{
    if n < 10 {
        out.append(digit_str(n));
    } else {
        push_decimal(out, n / 10);
        out.append(digit_str(n % 10));
        assert(decimal(n as nat) == decimal((n / 10) as nat).push(digit_char((n % 10) as nat)));
    }
}

/// Append the decimal numeral of a signed number.
pub fn push_signed_decimal(out: &mut String, n: i64)
    ensures
        final(out)@ == old(out)@ + signed_decimal(n as int),
{
    if n < 0 {
        proof { reveal_strlit("-"); }
        out.append("-");
        let magnitude: u64 = if n == i64::MIN { 9223372036854775808u64 } else { (-n) as u64 };
        push_decimal(out, magnitude);
        assert(old(out)@ + signed_decimal(n as int) =~= old(out)@ + seq!['-'] + decimal(magnitude as nat));
    } else {
        push_decimal(out, n as u64);
    }
}

/// ASCII upper case folded to lower case; everything else unchanged.
pub open spec fn lower_char(c: char) -> char {
    if 'A' <= c <= 'Z' { ((c as u32) + 32) as char } else { c }
}

pub open spec fn lower(s: Seq<char>) -> Seq<char> {
    s.map_values(|c: char| lower_char(c))
}

/// Whether `needle` occurs in `hay` starting at `at`.
pub open spec fn occurs_at<T>(hay: Seq<T>, needle: Seq<T>, at: int) -> bool {
    0 <= at && at + needle.len() <= hay.len() && hay.subrange(at, at + needle.len()) == needle
}

/// Whether `needle` occurs anywhere in `hay`.
pub open spec fn occurs<T>(hay: Seq<T>, needle: Seq<T>) -> bool {
    exists|at: int| occurs_at(hay, needle, at)
}

fn lower_exec(c: char) -> (r: char)
    ensures
        r == lower_char(c),
{
    if 'A' <= c && c <= 'Z' {
        let code: u8 = (c as u8) + 32;
        code as char
    } else {
        c
    }
}

/// The characters of a string slice, ASCII-lower-cased.
pub fn lowered(s: &str) -> (r: Vec<char>)
    ensures
        r@ == lower(s@),
{
    let n = s.unicode_len();
    let mut out: Vec<char> = Vec::new();
    let mut i: usize = 0;
    while i < n
        invariant
            n == s@.len(),
            i <= n,
            out@ == lower(s@.subrange(0, i as int)),
        decreases n - i,
    {
        let c = s.get_char(i);
        out.push(lower_exec(c));
        assert(s@.subrange(0, (i + 1) as int) == s@.subrange(0, i as int).push(c));
        i = i + 1;
    }
    assert(s@.subrange(0, n as int) == s@);
    out
}

/// The characters of a string slice.
pub fn chars_of(s: &str) -> (r: Vec<char>)
    ensures
        r@ == s@,
{
    broadcast use vstd::string::axiom_spec_iter;
    let mut out: Vec<char> = Vec::new();
    for c in it: s.chars()
        invariant
            it.seq() == s@,
            out@ == it.seq().subrange(0, it.index() as int),
    {
        out.push(c);
    }
    out
}

/// Whether `needle` occurs in `hay` at `at`.
pub fn bytes_at(hay: &[u8], needle: &[u8], at: usize) -> (r: bool)
    ensures
        r == occurs_at(hay@, needle@, at as int),
{
    if at > hay.len() || needle.len() > hay.len() - at {
        return false;
    }
    let mut i: usize = 0;
    while i < needle.len()
        invariant
            at + needle@.len() <= hay@.len(),
            at + needle@.len() <= hay.len(),
            i <= needle@.len(),
            forall|j: int| 0 <= j < i ==> hay@[at + j] == needle@[j],
        decreases needle.len() - i,
    {
        if hay[at + i] != needle[i] {
            assert(hay@.subrange(at as int, at + needle@.len())[i as int] != needle@[i as int]);
            return false;
        }
        i = i + 1;
    }
    assert(hay@.subrange(at as int, at + needle@.len()) =~= needle@);
    true
}

/// Whether `needle` occurs in `hay` at `at`, for characters.
pub fn chars_at(hay: &Vec<char>, needle: &Vec<char>, at: usize) -> (r: bool)
    ensures
        r == occurs_at(hay@, needle@, at as int),
{
    if at > hay.len() || needle.len() > hay.len() - at {
        return false;
    }
    let mut i: usize = 0;
    while i < needle.len()
        invariant
            at + needle@.len() <= hay@.len(),
            at + needle@.len() <= hay.len(),
            i <= needle@.len(),
            forall|j: int| 0 <= j < i ==> hay@[at + j] == needle@[j],
        decreases needle.len() - i,
    {
        if hay[at + i] != needle[i] {
            assert(hay@.subrange(at as int, at + needle@.len())[i as int] != needle@[i as int]);
            return false;
        }
        i = i + 1;
    }
    assert(hay@.subrange(at as int, at + needle@.len()) =~= needle@);
    true
}

/// Whether `needle` occurs anywhere in `hay`, for characters.
pub fn chars_contain(hay: &Vec<char>, needle: &Vec<char>) -> (r: bool)
    ensures
        r == occurs(hay@, needle@),
{
    let mut at: usize = 0;
    loop
        invariant
            at <= hay@.len(),
            forall|j: int| 0 <= j < at ==> !occurs_at(hay@, needle@, j),
        decreases hay.len() - at,
    {
        if chars_at(hay, needle, at) {
            return true;
        }
        if at == hay.len() {
            assert forall|j: int| !occurs_at(hay@, needle@, j) by {
                if j == at as int {
                }
            }
            return false;
        }
        at = at + 1;
    }
}

/// Append the bytes of a slice.
pub fn extend(out: &mut Vec<u8>, s: &[u8])
    ensures
        final(out)@ == old(out)@ + s@,
{
    let mut i: usize = 0;
    while i < s.len()
        invariant
            i <= s@.len(),
            out@ == old(out)@ + s@.subrange(0, i as int),
        decreases s.len() - i,
    {
        out.push(s[i]);
        i = i + 1;
        proof { assert(out@ =~= old(out)@ + s@.subrange(0, i as int)); }
    }
    proof { assert(s@.subrange(0, i as int) =~= s@); }
}

/// The index of the first occurrence of `c` at or after `from`.
pub open spec fn first_char_from(s: Seq<char>, c: char, from: int) -> Option<int>
    decreases s.len() - from,
{
    if from < 0 || from >= s.len() { None } else if s[from] == c { Some(from) } else { first_char_from(s, c, from + 1) }
}

/// The index of the last occurrence of `c` before `end`.
pub open spec fn last_char_before(s: Seq<char>, c: char, end: int) -> Option<int>
    decreases end,
{
    if end <= 0 || end > s.len() { None } else if s[end - 1] == c { Some(end - 1) } else { last_char_before(s, c, end - 1) }
}

pub fn find_char(s: &Vec<char>, c: char, from: usize) -> (r: Option<usize>)
    ensures
        match first_char_from(s@, c, from as int) {
            Some(i) => r == Some(i as usize),
            None => r is None,
        },
    decreases s@.len() - from,
{
    if from >= s.len() {
        return None;
    }
    if s[from] == c {
        return Some(from);
    }
    find_char(s, c, from + 1)
}

pub fn rfind_char(s: &Vec<char>, c: char, end: usize) -> (r: Option<usize>)
    requires
        end <= s@.len(),
    ensures
        match last_char_before(s@, c, end as int) {
            Some(i) => r == Some(i as usize),
            None => r is None,
        },
    decreases end,
{
    if end == 0 {
        return None;
    }
    if s[end - 1] == c {
        return Some(end - 1);
    }
    rfind_char(s, c, end - 1)
}


/// An ASCII decimal digit.
pub open spec fn is_digit(b: u8) -> bool {
    48 <= b <= 57
}

pub open spec fn all_digits(s: Seq<u8>) -> bool {
    forall|i: int| 0 <= i < s.len() ==> is_digit(#[trigger] s[i])
}

/// The value of a run of decimal digits.
pub open spec fn digits_value(s: Seq<u8>) -> nat
    decreases s.len(),
{
    if s.len() == 0 {
        0
    } else {
        digits_value(s.drop_last()) * 10 + (s.last() - 48) as nat
    }
}

/// A decimal integer the way Rust's `FromStr` for integers reads one: an
/// optional `+` or `-`, then at least one digit and nothing else.
pub open spec fn signed_numeral(s: Seq<u8>) -> Option<int> {
    if s.len() == 0 {
        None
    } else {
        let signed = s[0] == 43u8 || s[0] == 45u8;
        let digits = if signed { s.drop_first() } else { s };
        if digits.len() == 0 || !all_digits(digits) {
            None
        } else if s[0] == 45u8 {
            Some(-(digits_value(digits) as int))
        } else {
            Some(digits_value(digits) as int)
        }
    }
}

/// The same for an unsigned type, which takes no `-`.
pub open spec fn unsigned_numeral(s: Seq<u8>) -> Option<nat> {
    if s.len() > 0 && s[0] == 45u8 {
        None
    } else {
        match signed_numeral(s) {
            Some(v) => Some(v as nat),
            None => None,
        }
    }
}

/// `i64::from_str` on the bytes.
pub open spec fn i64_numeral(s: Seq<u8>) -> Option<i64> {
    match signed_numeral(s) {
        Some(v) => if i64::MIN <= v <= i64::MAX { Some(v as i64) } else { None },
        None => None,
    }
}

/// An unsigned `from_str` whose type tops out at `max`.
pub open spec fn bounded_numeral(s: Seq<u8>, max: nat) -> Option<nat> {
    match unsigned_numeral(s) {
        Some(v) => if v <= max { Some(v) } else { None },
        None => None,
    }
}

pub proof fn lemma_digits_prefix(s: Seq<u8>, k: int)
    requires
        0 <= k <= s.len(),
    ensures
        digits_value(s.subrange(0, k)) <= digits_value(s),
    decreases s.len(),
{
    if k < s.len() {
        lemma_digits_prefix(s.drop_last(), k);
        assert(s.drop_last().subrange(0, k) =~= s.subrange(0, k));
    } else {
        assert(s.subrange(0, k) =~= s);
    }
}

/// The value of the digits in `s[from..]`, or `None` past `limit` or at a
/// byte that is not a digit.
fn digits_up_to(s: &[u8], from: usize, limit: u64) -> (r: Option<u64>)
    requires
        from <= s.len(),
    ensures
        match r {
            Some(v) => all_digits(s@.subrange(from as int, s@.len() as int))
                && v == digits_value(s@.subrange(from as int, s@.len() as int)) && v <= limit,
            None => !all_digits(s@.subrange(from as int, s@.len() as int))
                || digits_value(s@.subrange(from as int, s@.len() as int)) > limit,
        },
{
    let ghost d = s@.subrange(from as int, s@.len() as int);
    let mut acc: u64 = 0;
    let mut i: usize = from;
    let mut over = false;
    while i < s.len()
        invariant
            from <= i <= s.len(),
            d == s@.subrange(from as int, s@.len() as int),
            all_digits(d.subrange(0, i - from)),
            !over ==> acc == digits_value(d.subrange(0, i - from)) && acc <= limit,
            over ==> digits_value(d.subrange(0, i - from)) > limit,
        decreases s.len() - i,
    {
        let b = s[i];
        if b < 48 || b > 57 {
            assert(d[i - from] == b);
            return None;
        }
        let ghost before = d.subrange(0, i - from);
        let ghost after = d.subrange(0, i - from + 1);
        assert(after.drop_last() =~= before);
        assert(after.last() == b);
        if !over {
            let digit: u64 = (b - 48) as u64;
            if digit > limit || acc > (limit - digit) / 10 {
                over = true;
                assert(acc * 10 + digit > limit) by (nonlinear_arith)
                    requires digit > limit || acc > (limit - digit) / 10, acc >= 0;
            } else {
                assert(acc * 10 + digit <= limit) by (nonlinear_arith)
                    requires acc <= (limit - digit) / 10, digit <= 9;
                acc = acc * 10 + digit;
            }
        } else {
            assert(digits_value(after) >= digits_value(before)) by (nonlinear_arith)
                requires digits_value(after) == digits_value(before) * 10 + (b - 48) as nat;
        }
        assert(all_digits(after)) by {
            assert forall|j: int| 0 <= j < after.len() implies is_digit(#[trigger] after[j]) by {
                if j < after.len() - 1 {
                    assert(after[j] == before[j]);
                }
            }
        }
        i = i + 1;
    }
    assert(d.subrange(0, i - from) =~= d);
    if over { None } else { Some(acc) }
}

/// `from_str` for an unsigned type whose largest value is `max`.
pub fn parse_unsigned(s: &[u8], max: u64) -> (r: Option<u64>)
    ensures
        match bounded_numeral(s@, max as nat) {
            Some(v) => r == Some(v as u64),
            None => r is None,
        },
{
    if s.len() == 0 || s[0] == 45 {
        return None;
    }
    let from: usize = if s[0] == 43 { 1 } else { 0 };
    if from == s.len() {
        return None;
    }
    proof {
        if from == 1 {
            assert(s@.subrange(1, s@.len() as int) =~= s@.drop_first());
        } else {
            assert(s@.subrange(0, s@.len() as int) =~= s@);
        }
    }
    digits_up_to(s, from, max)
}

/// `i64::from_str`.
pub fn parse_i64(s: &[u8]) -> (r: Option<i64>)
    ensures
        r == i64_numeral(s@),
{
    if s.len() == 0 {
        return None;
    }
    let negative = s[0] == 45;
    let from: usize = if s[0] == 43 || s[0] == 45 { 1 } else { 0 };
    if from == s.len() {
        return None;
    }
    proof {
        if from == 1 {
            assert(s@.subrange(1, s@.len() as int) =~= s@.drop_first());
        } else {
            assert(s@.subrange(0, s@.len() as int) =~= s@);
        }
    }
    let limit: u64 = if negative { 9223372036854775808u64 } else { 9223372036854775807u64 };
    match digits_up_to(s, from, limit) {
        None => None,
        Some(v) => {
            if negative {
                if v == 9223372036854775808u64 { Some(i64::MIN) } else { Some(-(v as i64)) }
            } else {
                Some(v as i64)
            }
        },
    }
}


/// The decimal numeral of `n`, as ASCII bytes.
pub open spec fn decimal_bytes(n: nat) -> Seq<u8> {
    decimal(n).map_values(|c: char| c as u8)
}

pub proof fn lemma_decimal_step(n: nat)
    requires
        n >= 10,
    ensures
        decimal_bytes(n) == decimal_bytes(n / 10).push((48 + n % 10) as u8),
{
    assert(decimal_bytes(n) =~= decimal_bytes(n / 10).push((48 + n % 10) as u8)) by {
        let d = n % 10;
        assert(digit_char(d) as u8 == (48 + d) as u8) by {
            if d == 0 {} else if d == 1 {} else if d == 2 {} else if d == 3 {} else if d == 4 {}
            else if d == 5 {} else if d == 6 {} else if d == 7 {} else if d == 8 {} else {}
        }
    }
}

/// Append the decimal numeral of `n`, as ASCII bytes.
pub fn push_decimal_bytes(out: &mut Vec<u8>, n: u64)
    ensures
        final(out)@ == old(out)@ + decimal_bytes(n as nat),
    decreases n,
{
    if n < 10 {
        out.push(48 + n as u8);
        proof {
            let d = n as nat;
            assert(digit_char(d) as u8 == (48 + d) as u8) by {
                if d == 0 {} else if d == 1 {} else if d == 2 {} else if d == 3 {} else if d == 4 {}
                else if d == 5 {} else if d == 6 {} else if d == 7 {} else if d == 8 {} else {}
            }
            assert(out@ =~= old(out)@ + decimal_bytes(n as nat));
        }
    } else {
        push_decimal_bytes(out, n / 10);
        out.push(48 + (n % 10) as u8);
        proof {
            lemma_decimal_step(n as nat);
            assert(out@ =~= old(out)@ + decimal_bytes(n as nat));
        }
    }
}


/// Some texts with `sep` between each two.
pub open spec fn joined(parts: Seq<Seq<char>>, sep: Seq<char>) -> Seq<char>
    decreases parts.len(),
{
    if parts.len() == 0 {
        Seq::empty()
    } else if parts.len() == 1 {
        parts[0]
    } else {
        joined(parts.drop_last(), sep) + sep + parts.last()
    }
}

/// The texts of some strings.
pub open spec fn texts(parts: Seq<String>) -> Seq<Seq<char>> {
    parts.map_values(|p: String| p@)
}

/// Join some strings with `sep` between each two.
pub fn join(parts: &Vec<String>, sep: &str) -> (r: String)
    ensures
        r@ == joined(texts(parts@), sep@),
{
    if parts.len() == 0 {
        return String::new();
    }
    let mut out = parts[0].clone();
    let mut i: usize = 1;
    proof {
        assert(texts(parts@).subrange(0, 1) =~= seq![parts@[0]@]);
    }
    while i < parts.len()
        invariant
            1 <= i <= parts@.len(),
            out@ == joined(texts(parts@).subrange(0, i as int), sep@),
        decreases parts.len() - i,
    {
        out.append(sep);
        out.append(parts[i].as_str());
        proof {
            let next = texts(parts@).subrange(0, i + 1);
            assert(next.drop_last() =~= texts(parts@).subrange(0, i as int));
            assert(next.last() == parts@[i as int]@);
        }
        i = i + 1;
    }
    proof {
        assert(texts(parts@).subrange(0, i as int) =~= texts(parts@));
    }
    out
}

} // verus!
