//! PDF objects, and the reader that turns bytes into them.
//!
//! Enough of ISO 32000-1 §7.3 to read what PDFium writes and write it back
//! unchanged. Strings and numbers keep their **original bytes** rather than
//! being re-formatted on the way out: a number written back differently from
//! how it was read makes a file that differs from the one it came from for no
//! reason, and the whole point here is to differ only where asked.

use vstd::prelude::*;
use crate::error::{PdfError, Result};
use crate::text::{i64_numeral, parse_i64};

verus! {

/// A PDF object.
#[derive(Debug, PartialEq)]
pub enum Object {
    Null,
    Bool(bool),
    /// Kept as written — see the module note on why numbers are not re-formatted.
    Number(Vec<u8>),
    /// The bytes between the delimiters, still escaped as the file had them.
    LiteralString(Vec<u8>),
    HexString(Vec<u8>),
    Name(Vec<u8>),
    Array(Vec<Object>),
    Dict(Dict),
    /// A dictionary and where its stream data sits in the file.
    Stream(Dict, std::ops::Range<usize>),
    /// `12 0 R`.
    Reference(u32, u16),
}

/// A PDF dictionary, in the order the file had it.
///
/// Ordered rather than keyed so that writing one back produces the same bytes
/// it was read from.
#[derive(Debug, Default, PartialEq)]
pub struct Dict(pub Vec<(Vec<u8>, Object)>);

/// What an object is, as a mathematical value: byte strings as sequences, and
/// a stream's data as the range of the file it occupies.
pub enum Value {
    Null,
    Bool(bool),
    Number(Seq<u8>),
    Literal(Seq<u8>),
    Hex(Seq<u8>),
    Name(Seq<u8>),
    Array(Seq<Value>),
    Dict(Seq<(Seq<u8>, Value)>),
    Stream(Seq<(Seq<u8>, Value)>, int, int),
    Reference(u32, u16),
}

impl Object {
    /// The value this object stands for.
    pub open spec fn value(self) -> Value
        decreases self,
    {
        match self {
            Object::Null => Value::Null,
            Object::Bool(b) => Value::Bool(b),
            Object::Number(raw) => Value::Number(raw@),
            Object::LiteralString(raw) => Value::Literal(raw@),
            Object::HexString(raw) => Value::Hex(raw@),
            Object::Name(raw) => Value::Name(raw@),
            Object::Array(items) => Value::Array(
                Seq::new(items@.len(), |i: int| if 0 <= i < items@.len() { items@[i].value() } else { Value::Null }),
            ),
            Object::Dict(d) => Value::Dict(d.entries()),
            Object::Stream(d, range) => Value::Stream(d.entries(), range.start as int, range.end as int),
            Object::Reference(n, g) => Value::Reference(n, g),
        }
    }
}

impl Dict {
    /// The entries, keys and values as values, in order.
    pub open spec fn entries(self) -> Seq<(Seq<u8>, Value)>
        decreases self,
    {
        Seq::new(self.0@.len(), |i: int| if 0 <= i < self.0@.len() {
            (self.0@[i].0@, self.0@[i].1.value())
        } else {
            (Seq::empty(), Value::Null)
        })
    }
}


/// The index of the first entry at or after `from` whose key is `key`.
pub open spec fn first_match(entries: Seq<(Seq<u8>, Value)>, key: Seq<u8>, from: int) -> Option<int>
    decreases entries.len() - from,
{
    if from < 0 || from >= entries.len() {
        None
    } else if entries[from].0 == key {
        Some(from)
    } else {
        first_match(entries, key, from + 1)
    }
}

/// What a dictionary says for a key: the first entry's value.
pub open spec fn lookup(entries: Seq<(Seq<u8>, Value)>, key: Seq<u8>) -> Option<Value> {
    match first_match(entries, key, 0) {
        Some(i) => Some(entries[i].1),
        None => None,
    }
}

/// Entries with `key` given value `v`: in place where the key is already
/// there, appended where it is not.
pub open spec fn set_entry(entries: Seq<(Seq<u8>, Value)>, key: Seq<u8>, v: Value) -> Seq<(Seq<u8>, Value)> {
    match first_match(entries, key, 0) {
        Some(i) => entries.update(i, (key, v)),
        None => entries.push((key, v)),
    }
}

/// Entries with every one for `key` taken out.
pub open spec fn remove_entry(entries: Seq<(Seq<u8>, Value)>, key: Seq<u8>) -> Seq<(Seq<u8>, Value)> {
    entries.filter(|e: (Seq<u8>, Value)| e.0 != key)
}

/// A number as `i64::from_str` reads it; anything else has none.
pub open spec fn value_i64(v: Value) -> Option<i64> {
    match v {
        Value::Number(raw) => i64_numeral(raw),
        _ => None,
    }
}

pub proof fn lemma_first_match_bounds(entries: Seq<(Seq<u8>, Value)>, key: Seq<u8>, from: int)
    requires
        0 <= from,
    ensures
        first_match(entries, key, from) matches Some(i) ==> from <= i < entries.len() && entries[i].0 == key,
    decreases entries.len() - from,
{
    if from < entries.len() && entries[from].0 != key {
        lemma_first_match_bounds(entries, key, from + 1);
    }
}

/// Whether two byte strings are the same.
pub fn same_bytes(a: &[u8], b: &[u8]) -> (r: bool)
    ensures
        r == (a@ == b@),
{
    if a.len() != b.len() {
        return false;
    }
    let r = crate::text::bytes_at(a, b, 0);
    proof {
        assert(a@.subrange(0, b@.len() as int) =~= a@);
    }
    r
}

pub(crate) fn copy_bytes(v: &Vec<u8>) -> (r: Vec<u8>)
    ensures
        r@ == v@,
{
    vstd::slice::slice_to_vec(v.as_slice())
}

impl Object {
    /// A copy with the same value.
    pub fn duplicate(&self) -> (r: Object)
        ensures
            r.value() == self.value(),
        decreases self,
    {
        match self {
            Object::Null => Object::Null,
            Object::Bool(b) => Object::Bool(*b),
            Object::Number(raw) => Object::Number(copy_bytes(raw)),
            Object::LiteralString(raw) => Object::LiteralString(copy_bytes(raw)),
            Object::HexString(raw) => Object::HexString(copy_bytes(raw)),
            Object::Name(raw) => Object::Name(copy_bytes(raw)),
            Object::Array(items) => {
                let mut out: Vec<Object> = Vec::new();
                let mut i: usize = 0;
                while i < items.len()
                    invariant
                        *self == Object::Array(*items),
                        i <= items@.len(),
                        out@.len() == i,
                        forall|j: int| 0 <= j < i ==> (#[trigger] out@[j]).value() == items@[j].value(),
                    decreases items.len() - i,
                {
                    proof {
                        assert(decreases_to!(*self => self->Array_0));
                        assert(decreases_to!(self->Array_0 => self->Array_0[i as int])) by {
                            broadcast use vstd::std_specs::vec::axiom_vec_index_decreases;
                        }
                        assert(decreases_to!(*self => items[i as int]));
                    }
                    out.push(items[i].duplicate());
                    i = i + 1;
                }
                let r = Object::Array(out);
                proof {
                    assert(r.value()->Array_0 =~= self.value()->Array_0);
                }
                r
            },
            Object::Dict(d) => {
                proof {
                    assert(decreases_to!(*self => *d));
                }
                Object::Dict(d.duplicate())
            },
            Object::Stream(d, range) => {
                proof {
                    assert(decreases_to!(*self => *d));
                }
                Object::Stream(d.duplicate(), std::ops::Range { start: range.start, end: range.end })
            },
            Object::Reference(n, g) => Object::Reference(*n, *g),
        }
    }
}

impl Dict {
    /// A copy with the same entries.
    pub fn duplicate(&self) -> (r: Dict)
        ensures
            r.entries() == self.entries(),
        decreases self,
    {
        let mut out: Vec<(Vec<u8>, Object)> = Vec::new();
        let mut i: usize = 0;
        while i < self.0.len()
            invariant
                i <= self.0@.len(),
                out@.len() == i,
                forall|j: int| 0 <= j < i ==> (#[trigger] out@[j]).0@ == self.0@[j].0@
                    && out@[j].1.value() == self.0@[j].1.value(),
            decreases self.0.len() - i,
        {
            proof {
                assert(decreases_to!(*self => self.0@[i as int].1));
            }
            let key = copy_bytes(&self.0[i].0);
            let value = self.0[i].1.duplicate();
            out.push((key, value));
            i = i + 1;
        }
        let r = Dict(out);
        proof {
            assert(r.entries() =~= self.entries());
        }
        r
    }
}

impl Dict {
    /// Adds an entry after the others, whatever keys they have.
    pub(crate) fn append(&mut self, key: Vec<u8>, value: Object)
        ensures
            final(self).entries() == old(self).entries().push((key@, value.value())),
    {
        let ghost before = self.entries();
        let ghost k = key@;
        let ghost v = value.value();
        self.0.push((key, value));
        proof {
            assert(self.entries() =~= before.push((k, v)));
        }
    }
}

/// An array's value is the values of its items.
pub proof fn lemma_array_value(items: Vec<Object>)
    ensures
        Object::Array(items).value() == Value::Array(values_of(items@)),
{
    assert(Object::Array(items).value()->Array_0 =~= values_of(items@));
}

impl Clone for Object {
    fn clone(&self) -> (r: Object)
        ensures
            r.value() == self.value(),
    {
        self.duplicate()
    }
}

impl Clone for Dict {
    fn clone(&self) -> (r: Dict)
        ensures
            r.entries() == self.entries(),
    {
        self.duplicate()
    }
}

impl Object {
    pub fn as_dict(&self) -> (r: Option<&Dict>)
        ensures
            match *self {
                Object::Dict(d) => r == Some(&d),
                Object::Stream(d, _) => r == Some(&d),
                _ => r is None,
            },
    {
        match self {
            Object::Dict(d) => Some(d),
            Object::Stream(d, _) => Some(d),
            _ => None,
        }
    }

    pub fn as_reference(&self) -> (r: Option<(u32, u16)>)
        ensures
            match *self {
                Object::Reference(n, g) => r == Some((n, g)),
                _ => r is None,
            },
    {
        match self {
            Object::Reference(n, g) => Some((*n, *g)),
            _ => None,
        }
    }

    pub fn as_name(&self) -> (r: Option<&[u8]>)
        ensures
            match self.value() {
                Value::Name(n) => r matches Some(s) && s@ == n,
                _ => r is None,
            },
    {
        match self {
            Object::Name(n) => Some(n.as_slice()),
            _ => None,
        }
    }

    /// A number read as a whole `i64`, the way `i64::from_str` reads it.
    pub fn as_i64(&self) -> (r: Option<i64>)
        ensures
            r == value_i64(self.value()),
    {
        match self {
            Object::Number(raw) => parse_i64(raw.as_slice()),
            _ => None,
        }
    }
}

impl Dict {
    /// The value of the first entry with this key.
    pub fn get(&self, key: &[u8]) -> (r: Option<&Object>)
        ensures
            match first_match(self.entries(), key@, 0) {
                Some(i) => r == Some(&self.0@[i].1),
                None => r is None,
            },
            match lookup(self.entries(), key@) {
                Some(v) => r matches Some(o) && o.value() == v,
                None => r is None,
            },
    {
        let mut i: usize = 0;
        while i < self.0.len()
            invariant
                i <= self.0@.len(),
                first_match(self.entries(), key@, 0) == first_match(self.entries(), key@, i as int),
            decreases self.0.len() - i,
        {
            if same_bytes(self.0[i].0.as_slice(), key) {
                proof {
                    lemma_first_match_bounds(self.entries(), key@, 0);
                }
                return Some(&self.0[i].1);
            }
            i = i + 1;
        }
        None
    }

    /// Give `key` this value: in place where the key is already there,
    /// appended where it is not.
    pub fn set(&mut self, key: &[u8], value: Object)
        ensures
            final(self).entries() == set_entry(old(self).entries(), key@, value.value()),
    {
        let mut i: usize = 0;
        while i < self.0.len()
            invariant
                i <= self.0@.len(),
                *self == *old(self),
                first_match(self.entries(), key@, 0) == first_match(self.entries(), key@, i as int),
            decreases self.0.len() - i,
        {
            if same_bytes(self.0[i].0.as_slice(), key) {
                proof {
                    lemma_first_match_bounds(self.entries(), key@, 0);
                }
                let ghost before = self.entries();
                self.0.set(i, (vstd::slice::slice_to_vec(key), value));
                proof {
                    assert(self.entries() =~= before.update(i as int, (key@, value.value())));
                }
                return;
            }
            i = i + 1;
        }
        let ghost before = self.entries();
        self.0.push((vstd::slice::slice_to_vec(key), value));
        proof {
            assert(self.entries() =~= before.push((key@, value.value())));
        }
    }

    /// Take out every entry with this key.
    pub fn remove(&mut self, key: &[u8])
        ensures
            final(self).entries() == remove_entry(old(self).entries(), key@),
    {
        let ghost start = self.entries();
        let ghost f = |e: (Seq<u8>, Value)| e.0 != key@;
        let ghost n = start.len();
        let mut i: usize = 0;
        let ghost mut j: int = 0;
        proof {
            assert(start.subrange(0, 0).filter(f) =~= Seq::<(Seq<u8>, Value)>::empty()) by {
                reveal(Seq::filter);
            }
            assert(self.entries() =~= start.subrange(0, 0).filter(f) + start.subrange(0, n as int));
        }
        while i < self.0.len()
            invariant
                n == start.len(),
                0 <= j <= n,
                self.entries() == start.subrange(0, j).filter(f) + start.subrange(j, n as int),
                i == start.subrange(0, j).filter(f).len(),
                start == old(self).entries(),
                f == (|e: (Seq<u8>, Value)| e.0 != key@),
            decreases self.0.len() - i,
        {
            let ghost before = self.entries();
            proof {
                reveal(Seq::filter);
                assert(start.subrange(0, j + 1).drop_last() =~= start.subrange(0, j));
                assert(before[i as int] == start[j]);
            }
            if same_bytes(self.0[i].0.as_slice(), key) {
                let _gone = self.0.remove(i);
                proof {
                    assert(before.subrange(0, i as int) =~= start.subrange(0, j).filter(f));
                    assert(before.subrange(i + 1, before.len() as int) =~= start.subrange(j + 1, n as int));
                    assert(self.entries() =~= before.subrange(0, i as int) + before.subrange(i + 1, before.len() as int));
                    assert(start.subrange(0, j + 1).filter(f) == start.subrange(0, j).filter(f));
                    assert(self.entries() =~= start.subrange(0, j + 1).filter(f) + start.subrange(j + 1, n as int));
                    j = j + 1;
                }
            } else {
                proof {
                    assert(start.subrange(0, j + 1).filter(f) == start.subrange(0, j).filter(f).push(start[j]));
                    assert(self.entries() =~= start.subrange(0, j + 1).filter(f) + start.subrange(j + 1, n as int));
                    j = j + 1;
                }
                i = i + 1;
            }
        }
        proof {
            assert(j == n);
            assert(start.subrange(0, n as int) =~= start);
            assert(self.entries() =~= start.filter(f));
        }
    }
}


// ---------------------------------------------------------------------------
// The grammar, as functions on the bytes.

/// PDF white-space.
pub open spec fn is_space(b: u8) -> bool {
    b == 0 || b == 9 || b == 10 || b == 12 || b == 13 || b == 32
}

/// The bytes that end a token on their own.
pub open spec fn is_delimiter(b: u8) -> bool {
    b == 40 || b == 41 || b == 60 || b == 62 || b == 91 || b == 93 || b == 123 || b == 125
        || b == 47 || b == 37
}

/// The bytes a keyword or a number is made of.
pub open spec fn is_regular(b: u8) -> bool {
    !is_delimiter(b) && !is_space(b)
}

/// Where a stretch of white-space and comments that begins at `at` ends; in a
/// comment, the comment runs to the end of its line.
pub open spec fn space_end(s: Seq<u8>, at: int, in_comment: bool) -> int
    decreases s.len() - at,
{
    if at < 0 || at >= s.len() {
        at
    } else if in_comment {
        if s[at] == 10 || s[at] == 13 { space_end(s, at + 1, false) } else { space_end(s, at + 1, true) }
    } else if is_space(s[at]) {
        space_end(s, at + 1, false)
    } else if s[at] == 37 {
        space_end(s, at + 1, true)
    } else {
        at
    }
}

/// Where the next token begins.
pub open spec fn skip(s: Seq<u8>, at: int) -> int {
    space_end(s, at, false)
}

/// Where a run of regular bytes from `at` ends.
pub open spec fn run_end(s: Seq<u8>, at: int) -> int
    decreases s.len() - at,
{
    if 0 <= at < s.len() && is_regular(s[at]) { run_end(s, at + 1) } else { at }
}

/// The first `b` at or after `from`.
pub open spec fn byte_from(s: Seq<u8>, b: u8, from: int) -> Option<int>
    decreases s.len() - from,
{
    if from < 0 || from >= s.len() {
        None
    } else if s[from] == b {
        Some(from)
    } else {
        byte_from(s, b, from + 1)
    }
}

/// Where a literal string's closing parenthesis is, reading from `at` with
/// `depth` parentheses open. A backslash takes the byte after it with it.
pub open spec fn literal_end(s: Seq<u8>, at: int, depth: nat) -> Option<int>
    decreases s.len() - at,
{
    if at < 0 || at >= s.len() {
        None
    } else if s[at] == 92 {
        if at + 2 >= s.len() { None } else { literal_end(s, at + 2, depth) }
    } else if s[at] == 40 {
        literal_end(s, at + 1, depth + 1)
    } else if s[at] == 41 {
        if depth <= 1 { Some(at) } else { literal_end(s, at + 1, (depth - 1) as nat) }
    } else {
        literal_end(s, at + 1, depth)
    }
}

/// Why bytes cannot be read.
pub enum Failure {
    /// They break the grammar.
    Malformed,
    /// They are legal, and something this reader refuses rather than
    /// half-reads: a stream whose `/Length` is not a number written in place,
    /// or a cross-reference stream.
    Unsupported,
    /// Something that was just written reads back wrong.
    Internal,
}

/// Whether `lit` is at `at`.
pub open spec fn starts_with(s: Seq<u8>, at: int, lit: Seq<u8>) -> bool {
    crate::text::occurs_at(s, lit, at)
}

pub open spec fn word_true() -> Seq<u8> { seq![116u8, 114u8, 117u8, 101u8] }
pub open spec fn word_false() -> Seq<u8> { seq![102u8, 97u8, 108u8, 115u8, 101u8] }
pub open spec fn word_null() -> Seq<u8> { seq![110u8, 117u8, 108u8, 108u8] }
pub open spec fn word_r() -> Seq<u8> { seq![82u8] }
pub open spec fn word_length() -> Seq<u8> { seq![76u8, 101u8, 110u8, 103u8, 116u8, 104u8] }
pub open spec fn word_stream() -> Seq<u8> { seq![115u8, 116u8, 114u8, 101u8, 97u8, 109u8] }
pub open spec fn word_endstream() -> Seq<u8> {
    seq![101u8, 110u8, 100u8, 115u8, 116u8, 114u8, 101u8, 97u8, 109u8]
}

/// A number, or `n g R` when the two numbers after it are whole and an `R`
/// follows; `p` is where the first number begins.
pub open spec fn number_or_reference(s: Seq<u8>, p: int) -> (Value, int) {
    let e1 = run_end(s, p);
    let first = s.subrange(p, e1);
    let p2 = skip(s, e1);
    let e2 = run_end(s, p2);
    let second = s.subrange(p2, e2);
    let p3 = skip(s, e2);
    let e3 = run_end(s, p3);
    if first.len() > 0 && crate::text::all_digits(first) && second.len() > 0
        && crate::text::all_digits(second) && s.subrange(p3, e3) == word_r()
        && crate::text::bounded_numeral(first, u32::MAX as nat) is Some
        && crate::text::bounded_numeral(second, u16::MAX as nat) is Some {
        (Value::Reference(
            crate::text::bounded_numeral(first, u32::MAX as nat)->0 as u32,
            crate::text::bounded_numeral(second, u16::MAX as nat)->0 as u16,
        ), e3)
    } else {
        (Value::Number(first), e1)
    }
}

/// The stream that may follow a dictionary that ended at `e`.
pub open spec fn stream_or_dict(s: Seq<u8>, entries: Seq<(Seq<u8>, Value)>, e: int) -> core::result::Result<(Value, int), Failure> {
    let p = skip(s, e);
    if starts_with(s, p, word_stream()) {
        let a = p + 6;
        let b = if a < s.len() && s[a] == 13 { a + 1 } else { a };
        let start = if b < s.len() && s[b] == 10 { b + 1 } else { b };
        let length = match lookup(entries, word_length()) {
            Some(v) => value_i64(v),
            None => None,
        };
        match length {
            Some(n) => if n < 0 || n > usize::MAX {
                Err(Failure::Unsupported)
            } else if start + n > s.len() {
                Err(Failure::Malformed)
            } else {
                let end = start + n;
                let q = skip(s, end);
                let after = if starts_with(s, q, word_endstream()) { q + 9 } else { q };
                Ok((Value::Stream(entries, start, end), after))
            },
            None => Err(Failure::Unsupported),
        }
    } else {
        Ok((Value::Dict(entries), e))
    }
}

/// One object read from `at`, and where reading stopped.
pub open spec fn parse_object(s: Seq<u8>, at: int) -> core::result::Result<(Value, int), Failure>
    decreases s.len() - at, 1int,
{
    let p = skip(s, at);
    proof {
        lemma_space_end_bounds(s, at, false);
    }
    if at < 0 || p >= s.len() {
        Err(Failure::Malformed)
    } else if s[p] == 47 {
        let e = run_end(s, p + 1);
        Ok((Value::Name(s.subrange(p + 1, e)), e))
    } else if s[p] == 40 {
        match literal_end(s, p + 1, 1) {
            Some(e) => Ok((Value::Literal(s.subrange(p + 1, e)), e + 1)),
            None => Err(Failure::Malformed),
        }
    } else if s[p] == 91 {
        parse_items(s, p + 1, Seq::empty())
    } else if s[p] == 60 && p + 1 < s.len() && s[p + 1] == 60 {
        match parse_entries(s, p + 2, Seq::empty()) {
            Ok((entries, e)) => stream_or_dict(s, entries, e),
            Err(f) => Err(f),
        }
    } else if s[p] == 60 {
        match byte_from(s, 62, p + 1) {
            Some(e) => Ok((Value::Hex(s.subrange(p + 1, e)), e + 1)),
            None => Err(Failure::Malformed),
        }
    } else if crate::text::is_digit(s[p]) || s[p] == 43 || s[p] == 45 || s[p] == 46 {
        Ok(number_or_reference(s, p))
    } else {
        let e = run_end(s, p);
        let word = s.subrange(p, e);
        if word == word_true() {
            Ok((Value::Bool(true), e))
        } else if word == word_false() {
            Ok((Value::Bool(false), e))
        } else if word == word_null() {
            Ok((Value::Null, e))
        } else {
            Err(Failure::Malformed)
        }
    }
}

/// The rest of an array whose items so far are `acc`, from `at`.
pub open spec fn parse_items(s: Seq<u8>, at: int, acc: Seq<Value>) -> core::result::Result<(Value, int), Failure>
    decreases s.len() - at, 2int,
{
    let q = skip(s, at);
    proof {
        lemma_space_end_bounds(s, at, false);
    }
    if at < 0 || q >= s.len() {
        Err(Failure::Malformed)
    } else if s[q] == 93 {
        Ok((Value::Array(acc), q + 1))
    } else {
        match parse_object(s, q) {
            Ok((v, r)) => if r <= q || r > s.len() {
                Err(Failure::Malformed)
            } else {
                parse_items(s, r, acc.push(v))
            },
            Err(f) => Err(f),
        }
    }
}

/// The rest of a dictionary whose entries so far are `acc`, from `at`, and
/// where its closing `>>` ends.
pub open spec fn parse_entries(s: Seq<u8>, at: int, acc: Seq<(Seq<u8>, Value)>) -> core::result::Result<(Seq<(Seq<u8>, Value)>, int), Failure>
    decreases s.len() - at, 2int,
{
    let q = skip(s, at);
    proof {
        lemma_space_end_bounds(s, at, false);
    }
    if at < 0 || q >= s.len() {
        Err(Failure::Malformed)
    } else if s[q] == 62 && q + 1 < s.len() && s[q + 1] == 62 {
        Ok((acc, q + 2))
    } else if s[q] == 47 {
        let k = run_end(s, q + 1);
        proof {
            lemma_run_end_bounds(s, q + 1);
        }
        match parse_object(s, k) {
            Ok((v, r)) => if r <= k || r > s.len() {
                Err(Failure::Malformed)
            } else {
                parse_entries(s, r, acc.push((s.subrange(q + 1, k), v)))
            },
            Err(f) => Err(f),
        }
    } else {
        Err(Failure::Malformed)
    }
}

pub proof fn lemma_space_end_bounds(s: Seq<u8>, at: int, in_comment: bool)
    ensures
        at <= space_end(s, at, in_comment),
        0 <= at <= s.len() ==> space_end(s, at, in_comment) <= s.len(),
    decreases s.len() - at,
{
    if 0 <= at < s.len() {
        if in_comment {
            if s[at] == 10 || s[at] == 13 {
                lemma_space_end_bounds(s, at + 1, false);
            } else {
                lemma_space_end_bounds(s, at + 1, true);
            }
        } else if is_space(s[at]) {
            lemma_space_end_bounds(s, at + 1, false);
        } else if s[at] == 37 {
            lemma_space_end_bounds(s, at + 1, true);
        }
    }
}

/// Where skipping stops, there is nothing more to skip.
pub proof fn lemma_skip_stops(s: Seq<u8>, at: int, in_comment: bool)
    requires
        0 <= at,
    ensures
        skip(s, space_end(s, at, in_comment)) == space_end(s, at, in_comment),
    decreases s.len() - at,
{
    if 0 <= at < s.len() {
        if in_comment {
            if s[at] == 10 || s[at] == 13 {
                lemma_skip_stops(s, at + 1, false);
            } else {
                lemma_skip_stops(s, at + 1, true);
            }
        } else if is_space(s[at]) {
            lemma_skip_stops(s, at + 1, false);
        } else if s[at] == 37 {
            lemma_skip_stops(s, at + 1, true);
        }
    }
}

pub proof fn lemma_run_end_bounds(s: Seq<u8>, at: int)
    ensures
        at <= run_end(s, at),
        0 <= at <= s.len() ==> run_end(s, at) <= s.len(),
        forall|i: int| at <= i < run_end(s, at) ==> is_regular(#[trigger] s[i]),
        0 <= run_end(s, at) < s.len() ==> !is_regular(s[run_end(s, at)]),
    decreases s.len() - at,
{
    if 0 <= at < s.len() && is_regular(s[at]) {
        lemma_run_end_bounds(s, at + 1);
    }
}



// ---------------------------------------------------------------------------
// Keywords, as bytes.

pub fn bytes_length() -> (r: Vec<u8>)
    ensures
        r@ == word_length(),
{
    let r = vec![76u8, 101u8, 110u8, 103u8, 116u8, 104u8];
    assert(r@ =~= word_length());
    r
}

fn bytes_stream() -> (r: Vec<u8>)
    ensures
        r@ == word_stream(),
{
    let r = vec![115u8, 116u8, 114u8, 101u8, 97u8, 109u8];
    assert(r@ =~= word_stream());
    r
}

fn bytes_endstream() -> (r: Vec<u8>)
    ensures
        r@ == word_endstream(),
{
    let r = vec![101u8, 110u8, 100u8, 115u8, 116u8, 114u8, 101u8, 97u8, 109u8];
    assert(r@ =~= word_endstream());
    r
}

fn is_space_byte(b: u8) -> (r: bool)
    ensures
        r == is_space(b),
{
    b == 0 || b == 9 || b == 10 || b == 12 || b == 13 || b == 32
}

fn is_regular_byte(b: u8) -> (r: bool)
    ensures
        r == is_regular(b),
{
    !(b == 40 || b == 41 || b == 60 || b == 62 || b == 91 || b == 93 || b == 123 || b == 125
        || b == 47 || b == 37) && !is_space_byte(b)
}

/// Whether the bytes are one or more decimal digits.
fn digits_only(b: &[u8]) -> (r: bool)
    ensures
        r == (b@.len() > 0 && crate::text::all_digits(b@)),
{
    if b.len() == 0 {
        return false;
    }
    let mut i: usize = 0;
    while i < b.len()
        invariant
            i <= b@.len(),
            forall|j: int| 0 <= j < i ==> crate::text::is_digit(#[trigger] b@[j]),
        decreases b.len() - i,
    {
        if b[i] < 48 || b[i] > 57 {
            return false;
        }
        i = i + 1;
    }
    true
}

/// The text `String::from_utf8_lossy` makes of some bytes.
pub uninterp spec fn utf8_lossy(bytes: Seq<u8>) -> Seq<char>;

/// `String::from_utf8_lossy`: the text of some bytes, named as a function of
/// them; for ASCII bytes, the same characters.
#[verifier::external_body]
pub(crate) fn lossy_text(bytes: &[u8]) -> (r: String)
    ensures
        r@ == utf8_lossy(bytes@),
        (forall|i: int| 0 <= i < bytes@.len() ==> #[trigger] bytes@[i] < 128)
            ==> r@ == bytes@.map_values(|b: u8| b as char),
{
    String::from_utf8_lossy(bytes).into_owned()
}

/// Whether an error is the one a failure is reported as.
pub open spec fn reports(f: Failure, e: PdfError) -> bool {
    match f {
        Failure::Malformed => e is InvalidArgument,
        Failure::Unsupported => e is Unsupported,
        Failure::Internal => e is Internal,
    }
}

fn malformed(text: &str) -> (e: PdfError)
    ensures
        e is InvalidArgument,
{
    PdfError::InvalidArgument(String::from_str(text))
}

/// A reader over one file's bytes.
pub struct Lexer<'a> {
    pub bytes: &'a [u8],
    pub at: usize,
}

impl<'a> Lexer<'a> {
    pub fn new(bytes: &'a [u8], at: usize) -> (r: Lexer<'a>)
        ensures
            r.bytes == bytes,
            r.at == at,
    {
        Lexer { bytes, at }
    }

    fn peek(&self) -> (r: Option<u8>)
        ensures
            self.at < self.bytes@.len() ==> r == Some(self.bytes@[self.at as int]),
            self.at >= self.bytes@.len() ==> r is None,
    {
        if self.at < self.bytes.len() {
            Some(self.bytes[self.at])
        } else {
            None
        }
    }

    /// PDF white-space, and comments, which may appear anywhere a token may.
    pub fn skip_space(&mut self)
        ensures
            final(self).bytes == old(self).bytes,
            final(self).at == skip(old(self).bytes@, old(self).at as int),
    {
        loop
            invariant
                self.bytes == old(self).bytes,
                skip(self.bytes@, self.at as int) == skip(old(self).bytes@, old(self).at as int),
            decreases self.bytes@.len() - self.at,
        {
            let n = self.bytes.len();
            let next = self.peek();
            match next {
                Some(b) => {
                    if is_space_byte(b) {
                        self.at = self.at + 1;
                    } else if b == 37 {
                        let ghost entry = self.at;
                        self.at = self.at + 1;
                        let ghost target = skip(self.bytes@, self.at - 1);
                        while self.at < self.bytes.len() && self.bytes[self.at] != 10 && self.bytes[self.at] != 13
                            invariant
                                self.bytes == old(self).bytes,
                                entry < self.at <= self.bytes@.len(),
                                space_end(self.bytes@, self.at as int, true) == target,
                            decreases self.bytes@.len() - self.at,
                        {
                            self.at = self.at + 1;
                        }
                    } else {
                        return;
                    }
                },
                None => {
                    return;
                },
            }
        }
    }

    /// The next run of regular characters — a keyword, or a number.
    pub fn token(&mut self) -> (r: &'a [u8])
        requires
            old(self).at <= old(self).bytes@.len(),
        ensures
            final(self).bytes == old(self).bytes,
            final(self).at == run_end(old(self).bytes@, skip(old(self).bytes@, old(self).at as int)),
            r@ == old(self).bytes@.subrange(skip(old(self).bytes@, old(self).at as int), final(self).at as int),
            old(self).at <= final(self).at <= old(self).bytes@.len(),
            r@.len() > 0 ==> old(self).at < final(self).at,
    {
        self.skip_space();
        proof {
            lemma_space_end_bounds(self.bytes@, old(self).at as int, false);
        }
        let start = self.at;
        while self.at < self.bytes.len() && is_regular_byte(self.bytes[self.at])
            invariant
                self.bytes == old(self).bytes,
                start <= self.at <= self.bytes@.len(),
                run_end(self.bytes@, self.at as int) == run_end(self.bytes@, start as int),
            decreases self.bytes@.len() - self.at,
        {
            self.at = self.at + 1;
        }
        let bytes: &'a [u8] = self.bytes;
        vstd::slice::slice_subrange(bytes, start, self.at)
    }

    /// The next token, which must be `keyword`.
    pub fn expect(&mut self, keyword: &[u8]) -> (r: Result<()>)
        requires
            old(self).at <= old(self).bytes@.len(),
        ensures
            final(self).bytes == old(self).bytes,
            final(self).at == run_end(old(self).bytes@, skip(old(self).bytes@, old(self).at as int)),
            r is Ok <== old(self).bytes@.subrange(skip(old(self).bytes@, old(self).at as int), final(self).at as int) == keyword@,
            r is Ok ==> old(self).bytes@.subrange(skip(old(self).bytes@, old(self).at as int), final(self).at as int) == keyword@,
            r matches Err(e) ==> e is InvalidArgument,
            old(self).at <= final(self).at <= old(self).bytes@.len(),
    {
        let found = self.token();
        if same_bytes(found, keyword) {
            Ok(())
        } else {
            let mut m = String::from_str("expected \"");
            proof { reveal_strlit("expected \""); }
            m.append(lossy_text(keyword).as_str());
            m.append("\" at ");
            crate::text::push_decimal(&mut m, self.at as u64);
            m.append(", found \"");
            m.append(lossy_text(found).as_str());
            m.append("\"");
            Err(PdfError::InvalidArgument(m))
        }
    }
}



fn bytes_true() -> (r: Vec<u8>)
    ensures
        r@ == word_true(),
{
    let r = vec![116u8, 114u8, 117u8, 101u8];
    assert(r@ =~= word_true());
    r
}

fn bytes_false() -> (r: Vec<u8>)
    ensures
        r@ == word_false(),
{
    let r = vec![102u8, 97u8, 108u8, 115u8, 101u8];
    assert(r@ =~= word_false());
    r
}

fn bytes_null() -> (r: Vec<u8>)
    ensures
        r@ == word_null(),
{
    let r = vec![110u8, 117u8, 108u8, 108u8];
    assert(r@ =~= word_null());
    r
}

/// The values of some objects.
pub open spec fn values_of(items: Seq<Object>) -> Seq<Value> {
    Seq::new(items.len(), |i: int| items[i].value())
}

/// What reading an object from `at` gives, as a contract on a result.
pub open spec fn read_as(s: Seq<u8>, at: int, r: Result<Object>, end: int) -> bool {
    match parse_object(s, at) {
        Ok((v, e)) => r matches Ok(o) && o.value() == v && end == e,
        Err(f) => r matches Err(err) && reports(f, err),
    }
}

impl<'a> Lexer<'a> {
    fn literal_string(&mut self) -> (r: Result<Object>)
        requires
            old(self).at < old(self).bytes@.len(),
            old(self).bytes@[old(self).at as int] == 40,
        ensures
            final(self).bytes == old(self).bytes,
            match literal_end(old(self).bytes@, old(self).at + 1, 1) {
                Some(e) => r matches Ok(o) && o.value() == Value::Literal(old(self).bytes@.subrange(old(self).at + 1, e))
                    && final(self).at == e + 1,
                None => r matches Err(err) && err is InvalidArgument,
            },
            r is Ok ==> old(self).at < final(self).at <= old(self).bytes@.len(),
    {
        let n = self.bytes.len();
        self.at = self.at + 1;
        let start = self.at;
        let mut depth: usize = 1;
        while self.at < n
            invariant
                self.bytes == old(self).bytes,
                n == self.bytes@.len(),
                start == old(self).at + 1,
                start <= self.at <= n,
                1 <= depth <= self.at - start + 1,
                literal_end(self.bytes@, self.at as int, depth as nat) == literal_end(self.bytes@, start as int, 1),
            decreases n - self.at,
        {
            let b = self.bytes[self.at];
            if b == 92 {
                if n - self.at <= 2 {
                    return Err(malformed("a string never closes"));
                }
                self.at = self.at + 2;
            } else if b == 40 {
                depth = depth + 1;
                self.at = self.at + 1;
            } else if b == 41 {
                if depth == 1 {
                    let bytes: &'a [u8] = self.bytes;
                    let raw = vstd::slice::slice_to_vec(vstd::slice::slice_subrange(bytes, start, self.at));
                    self.at = self.at + 1;
                    return Ok(Object::LiteralString(raw));
                }
                depth = depth - 1;
                self.at = self.at + 1;
            } else {
                self.at = self.at + 1;
            }
        }
        Err(malformed("a string never closes"))
    }

    fn hex_string(&mut self) -> (r: Result<Object>)
        requires
            old(self).at < old(self).bytes@.len(),
            old(self).bytes@[old(self).at as int] == 60,
        ensures
            final(self).bytes == old(self).bytes,
            match byte_from(old(self).bytes@, 62, old(self).at + 1) {
                Some(e) => r matches Ok(o) && o.value() == Value::Hex(old(self).bytes@.subrange(old(self).at + 1, e))
                    && final(self).at == e + 1,
                None => r matches Err(err) && err is InvalidArgument,
            },
            r is Ok ==> old(self).at < final(self).at <= old(self).bytes@.len(),
    {
        let n = self.bytes.len();
        self.at = self.at + 1;
        let start = self.at;
        while self.at < n && self.bytes[self.at] != 62
            invariant
                self.bytes == old(self).bytes,
                n == self.bytes@.len(),
                start == old(self).at + 1,
                start <= self.at <= n,
                byte_from(self.bytes@, 62, self.at as int) == byte_from(self.bytes@, 62, start as int),
            decreases n - self.at,
        {
            self.at = self.at + 1;
        }
        if self.at >= n {
            return Err(malformed("a hex string never closes"));
        }
        let bytes: &'a [u8] = self.bytes;
        let raw = vstd::slice::slice_to_vec(vstd::slice::slice_subrange(bytes, start, self.at));
        self.at = self.at + 1;
        Ok(Object::HexString(raw))
    }

    /// `n n R` is only a reference when all three parts are there, so two
    /// numbers are read ahead and put back if the third is not an `R` — the
    /// alternative is an array of numbers being read as references.
    fn number_or_reference(&mut self) -> (r: Result<Object>)
        requires
            old(self).at < old(self).bytes@.len(),
            is_regular(old(self).bytes@[old(self).at as int]),
        ensures
            final(self).bytes == old(self).bytes,
            r matches Ok(o) && o.value() == number_or_reference(old(self).bytes@, old(self).at as int).0,
            final(self).at == number_or_reference(old(self).bytes@, old(self).at as int).1,
            old(self).at < final(self).at <= old(self).bytes@.len(),
    {
        let ghost s = self.bytes@;
        let ghost p = self.at as int;
        proof {
            lemma_run_end_bounds(s, p);
            lemma_run_end_bounds(s, p + 1);
        }
        let first_slice = self.token();
        let first = vstd::slice::slice_to_vec(first_slice);
        let save = self.at;
        proof {
            lemma_space_end_bounds(s, save as int, false);
            lemma_run_end_bounds(s, skip(s, save as int));
            lemma_space_end_bounds(s, run_end(s, skip(s, save as int)), false);
            lemma_run_end_bounds(s, skip(s, run_end(s, skip(s, save as int))));
        }
        if digits_only(first.as_slice()) {
            let second_slice = self.token();
            let second = vstd::slice::slice_to_vec(second_slice);
            if digits_only(second.as_slice()) {
                let third = self.token();
                let is_r = third.len() == 1 && third[0] == 82;
                proof {
                    if is_r {
                        assert(third@ =~= word_r());
                    } else if third@ == word_r() {
                        assert(third@[0] == 82);
                    }
                }
                if is_r {
                    let number = crate::text::parse_unsigned(first.as_slice(), 4294967295u64);
                    let generation = crate::text::parse_unsigned(second.as_slice(), 65535u64);
                    match (number, generation) {
                        (Some(n), Some(g)) => {
                            return Ok(Object::Reference(n as u32, g as u16));
                        },
                        _ => {},
                    }
                }
            }
            self.at = save;
        }
        Ok(Object::Number(first))
    }

    /// One object.
    pub fn object(&mut self) -> (r: Result<Object>)
        ensures
            final(self).bytes == old(self).bytes,
            read_as(old(self).bytes@, old(self).at as int, r, final(self).at as int),
            r is Ok ==> old(self).at < final(self).at <= old(self).bytes@.len(),
        decreases old(self).bytes@.len() - old(self).at, 1int,
    {
        let ghost s = self.bytes@;
        let ghost at0 = self.at as int;
        let n = self.bytes.len();
        self.skip_space();
        proof {
            lemma_space_end_bounds(s, at0, false);
            lemma_skip_stops(s, at0, false);
        }
        let next = self.peek();
        match next {
            None => Err(malformed("the file ends mid-object")),
            Some(b) => {
                if b == 47 {
                    self.at = self.at + 1;
                    let start = self.at;
                    while self.at < n && is_regular_byte(self.bytes[self.at])
                        invariant
                            self.bytes == old(self).bytes,
                            n == self.bytes@.len(),
                            start <= self.at <= n,
                            run_end(self.bytes@, self.at as int) == run_end(self.bytes@, start as int),
                        decreases n - self.at,
                    {
                        self.at = self.at + 1;
                    }
                    let bytes: &'a [u8] = self.bytes;
                    let name = vstd::slice::slice_to_vec(vstd::slice::slice_subrange(bytes, start, self.at));
                    Ok(Object::Name(name))
                } else if b == 40 {
                    self.literal_string()
                } else if b == 91 {
                    self.at = self.at + 1;
                    let mut items: Vec<Object> = Vec::new();
                    let ghost target = parse_items(s, self.at as int, Seq::empty());
                    proof {
                        assert(values_of(items@) =~= Seq::<Value>::empty());
                    }
                    loop
                        invariant
                            self.bytes == old(self).bytes,
                            s == self.bytes@,
                            n == s.len(),
                            at0 == old(self).at,
                            at0 < self.at <= n,
                            parse_items(s, self.at as int, values_of(items@)) == target,
                            target == parse_object(s, at0),
                        decreases n - self.at,
                    {
                        let ghost before = self.at as int;
                        self.skip_space();
                        proof {
                            lemma_space_end_bounds(s, before, false);
                            lemma_skip_stops(s, before, false);
                        }
                        let inside = self.peek();
                        match inside {
                            Some(93) => {
                                self.at = self.at + 1;
                                let r = Object::Array(items);
                                proof {
                                    assert(r.value()->Array_0 =~= values_of(items@));
                                }
                                return Ok(r);
                            },
                            None => {
                                return Err(malformed("an array never closes"));
                            },
                            _ => {
                                let ghost q = self.at as int;
                                let item = match self.object() {
                                    Ok(o) => o,
                                    Err(e) => {
                                        return Err(e);
                                    },
                                };
                                let ghost acc = values_of(items@);
                                items.push(item);
                                proof {
                                    assert(values_of(items@) =~= acc.push(item.value()));
                                }
                            },
                        }
                    }
                } else if b == 60 && self.at + 1 < n && self.bytes[self.at + 1] == 60 {
                    self.dict_or_stream()
                } else if b == 60 {
                    self.hex_string()
                } else if (48 <= b && b <= 57) || b == 43 || b == 45 || b == 46 {
                    self.number_or_reference()
                } else {
                    proof {
                        lemma_run_end_bounds(s, self.at as int);
                    }
                    let word = self.token();
                    let t = bytes_true();
                    let f = bytes_false();
                    let z = bytes_null();
                    if same_bytes(word, t.as_slice()) {
                        Ok(Object::Bool(true))
                    } else if same_bytes(word, f.as_slice()) {
                        Ok(Object::Bool(false))
                    } else if same_bytes(word, z.as_slice()) {
                        Ok(Object::Null)
                    } else {
                        let mut m = String::from_str("not an object: \"");
                        m.append(lossy_text(word).as_str());
                        m.append("\"");
                        Err(PdfError::InvalidArgument(m))
                    }
                }
            },
        }
    }

    fn dict_or_stream(&mut self) -> (r: Result<Object>)
        requires
            old(self).at + 1 < old(self).bytes@.len(),
            old(self).bytes@[old(self).at as int] == 60,
            old(self).bytes@[old(self).at + 1] == 60,
        ensures
            final(self).bytes == old(self).bytes,
            match parse_entries(old(self).bytes@, old(self).at + 2, Seq::empty()) {
                Ok((entries, e)) => match stream_or_dict(old(self).bytes@, entries, e) {
                    Ok((v, f)) => r matches Ok(o) && o.value() == v && final(self).at == f,
                    Err(fl) => r matches Err(err) && reports(fl, err),
                },
                Err(fl) => r matches Err(err) && reports(fl, err),
            },
            r is Ok ==> old(self).at < final(self).at <= old(self).bytes@.len(),
        decreases old(self).bytes@.len() - old(self).at, 0int,
    {
        let ghost s = self.bytes@;
        let ghost at0 = self.at as int;
        let n = self.bytes.len();
        self.at = self.at + 2;
        let mut dict = Dict(Vec::new());
        let ghost target = parse_entries(s, self.at as int, Seq::empty());
        proof {
            assert(dict.entries() =~= Seq::<(Seq<u8>, Value)>::empty());
        }
        loop
            invariant_except_break
                parse_entries(s, self.at as int, dict.entries()) == target,
            invariant
                self.bytes == old(self).bytes,
                s == self.bytes@,
                n == s.len(),
                at0 == old(self).at,
                at0 < self.at <= n,
                target == parse_entries(s, at0 + 2, Seq::empty()),
            ensures
                target == Ok::<(Seq<(Seq<u8>, Value)>, int), Failure>((dict.entries(), self.at as int)),
            decreases n - self.at,
        {
            let ghost before = self.at as int;
            self.skip_space();
            proof {
                lemma_space_end_bounds(s, before, false);
                lemma_skip_stops(s, before, false);
            }
            if self.at < n && self.bytes[self.at] == 62 && self.at + 1 < n && self.bytes[self.at + 1] == 62 {
                self.at = self.at + 2;
                break;
            } else if self.at < n && self.bytes[self.at] == 47 {
                let ghost q = self.at as int;
                proof {
                    lemma_run_end_bounds(s, q + 1);
                }
                let key = match self.object() {
                    Ok(Object::Name(k)) => k,
                    Ok(other) => {
                        proof {
                            assert(false);
                        }
                        return Err(malformed("a dictionary key that is not a name"));
                    },
                    Err(e) => {
                        return Err(e);
                    },
                };
                let value = match self.object() {
                    Ok(v) => v,
                    Err(e) => {
                        return Err(e);
                    },
                };
                let ghost acc = dict.entries();
                dict.0.push((key, value));
                proof {
                    assert(dict.entries() =~= acc.push((key@, value.value())));
                }
            } else {
                return Err(malformed("a dictionary key that is not a name"));
            }
        }

        // A stream, if `stream` follows the dictionary.
        let save = self.at;
        self.skip_space();
        proof {
            lemma_space_end_bounds(s, save as int, false);
        }
        let stream_word = bytes_stream();
        if crate::text::bytes_at(self.bytes, stream_word.as_slice(), self.at) {
            self.at = self.at + 6;
            // The keyword is followed by CRLF or LF — never CR alone.
            if self.at < n && self.bytes[self.at] == 13 {
                self.at = self.at + 1;
            }
            if self.at < n && self.bytes[self.at] == 10 {
                self.at = self.at + 1;
            }
            let start = self.at;
            let length_word = bytes_length();
            let length: Option<i64> = match dict.get(length_word.as_slice()) {
                Some(o) => o.as_i64(),
                None => None,
            };
            // An indirect `/Length` is legal and PDFium does not write one, so
            // it is refused rather than guessed at by scanning for `endstream`
            // — a scan finds the first match, which inside binary image data is
            // as likely to be a coincidence as the real end.
            let length: i64 = match length {
                Some(l) => l,
                None => {
                    return Err(PdfError::Unsupported("a stream whose length is an indirect reference"));
                },
            };
            if length < 0 || length as u64 > usize::MAX as u64 {
                return Err(PdfError::Unsupported("a stream whose length is an indirect reference"));
            }
            let length: usize = length as usize;
            if length > n - start {
                return Err(malformed("a stream runs past the end of the file"));
            }
            let end = start + length;
            self.at = end;
            self.skip_space();
            proof {
                lemma_space_end_bounds(s, end as int, false);
            }
            let endstream_word = bytes_endstream();
            if crate::text::bytes_at(self.bytes, endstream_word.as_slice(), self.at) {
                self.at = self.at + 9;
            }
            let r = Object::Stream(dict, std::ops::Range { start: start, end: end });
            return Ok(r);
        }
        self.at = save;
        Ok(Object::Dict(dict))
    }
}

} // verus!
