//! A page's content stream: reading it, and putting text back without it.
//!
//! Taking locked text off a page means editing the sequence of operators that
//! paints it. The rule is the one the rest of `crate::pdf` follows:
//! **everything not being removed is copied through byte for byte.** The
//! operators that draw the surviving text are never re-emitted, never
//! re-spaced and never re-encoded; only the operators that showed the locked
//! words are cut out.

use std::io::{Read, Write};
use vstd::prelude::*;
use crate::error::{PdfError, Result};
use crate::pdf::object::{
    lookup, parse_object, reports, run_end, skip, values_of, Dict, Failure, Lexer, Object, Value,
};
use crate::pdf::strings::{from_hex, hex_decoded, unescape, unescaped};

verus! {

/// One operator and the operands in front of it, and where it sat.
#[derive(Debug, PartialEq)]
pub struct Operation {
    pub operator: Vec<u8>,
    pub operands: Vec<Object>,
    /// Where this whole operation lies in the stream, operands included, so it
    /// can be cut out without disturbing a byte either side.
    pub span: std::ops::Range<usize>,
}

/// An operation as values.
pub struct Step {
    pub operator: Seq<u8>,
    pub operands: Seq<Value>,
    pub start: int,
    pub end: int,
}

impl Operation {
    pub open spec fn step(self) -> Step {
        Step {
            operator: self.operator@,
            operands: values_of(self.operands@),
            start: self.span.start as int,
            end: self.span.end as int,
        }
    }
}

/// Operations as steps.
pub open spec fn steps(ops: Seq<Operation>) -> Seq<Step> {
    Seq::new(ops.len(), |i: int| ops[i].step())
}

impl Clone for Operation {
    fn clone(&self) -> (r: Operation)
        ensures
            r.step() == self.step(),
    {
        let mut operands: Vec<Object> = Vec::new();
        let mut i: usize = 0;
        while i < self.operands.len()
            invariant
                i <= self.operands@.len(),
                operands@.len() == i,
                forall|j: int| 0 <= j < i ==> (#[trigger] operands@[j]).value() == self.operands@[j].value(),
            decreases self.operands.len() - i,
        {
            operands.push(self.operands[i].duplicate());
            i = i + 1;
        }
        let r = Operation {
            operator: vstd::slice::slice_to_vec(self.operator.as_slice()),
            operands,
            span: std::ops::Range { start: self.span.start, end: self.span.end },
        };
        proof {
            assert(values_of(r.operands@) =~= values_of(self.operands@));
        }
        r
    }
}

/// The four operators that take a string: `Tj`, `'` and `"` show one, `TJ`
/// shows an array of them with spacing numbers between.
pub open spec fn shows(operator: Seq<u8>) -> bool {
    operator == seq![84u8, 106u8] || operator == seq![84u8, 74u8] || operator == seq![39u8]
        || operator == seq![34u8]
}

impl Operation {
    /// Whether this operation paints text.
    pub fn shows_text(&self) -> (r: bool)
        ensures
            r == shows(self.operator@),
    {
        let o = &self.operator;
        let r = (o.len() == 2 && o[0] == 84 && (o[1] == 106 || o[1] == 74))
            || (o.len() == 1 && (o[0] == 39 || o[0] == 34));
        proof {
            if o@.len() == 2 {
                if o@[1] == 106 {
                    assert(o@ =~= seq![o@[0], 106u8]);
                } else if o@[1] == 74 {
                    assert(o@ =~= seq![o@[0], 74u8]);
                }
            }
            if o@.len() == 1 {
                assert(o@ =~= seq![o@[0]]);
            }
        }
        r
    }
}

/// White-space as `u8::is_ascii_whitespace` has it.
pub open spec fn ascii_space(b: u8) -> bool {
    b == 32 || b == 9 || b == 10 || b == 12 || b == 13
}

/// The first `ID` at or after `from`, as where it starts.
pub open spec fn id_from(s: Seq<u8>, from: int) -> Option<int>
    decreases s.len() - from,
{
    if from < 0 || from + 1 >= s.len() {
        None
    } else if s[from] == 73 && s[from + 1] == 68 {
        Some(from)
    } else {
        id_from(s, from + 1)
    }
}

/// The first `EI` at or after `at` with white-space before it, and after it
/// or the end of the stream: where the image data ends.
pub open spec fn ei_from(s: Seq<u8>, at: int) -> Option<int>
    decreases s.len() - at,
{
    if at < 1 || at + 1 >= s.len() {
        None
    } else if s[at] == 69 && s[at + 1] == 73 && ascii_space(s[at - 1])
        && (at + 2 >= s.len() || ascii_space(s[at + 2])) {
        Some(at)
    } else {
        ei_from(s, at + 1)
    }
}

/// Where an inline image whose `BI` ended at `from` ends: just past its `EI`.
/// The data begins after `ID` and one white-space byte.
pub open spec fn inline_end(s: Seq<u8>, from: int) -> Option<int> {
    match id_from(s, from) {
        None => None,
        Some(i) => match ei_from(s, i + 3) {
            Some(e) => Some(e + 2),
            None => None,
        },
    }
}

/// Whether a byte begins a value rather than a keyword.
pub open spec fn begins_value(b: u8) -> bool {
    b == 47 || b == 40 || b == 91 || b == 60 || crate::text::is_digit(b) || b == 43 || b == 45 || b == 46
}

/// Whether a byte is a delimiter that cannot begin anything.
pub open spec fn stray(b: u8) -> bool {
    b == 93 || b == 41 || b == 62 || b == 125 || b == 123
}

pub open spec fn word_bi() -> Seq<u8> { seq![66u8, 73u8] }

/// The operations from `at` on, given the operands read so far, where the
/// operation they belong to began, and the operations found before.
///
/// Operands accumulate until an operator ends them, which is how PostScript's
/// postfix notation works: the operator comes *after* the values it takes.
pub open spec fn parse_ops(s: Seq<u8>, at: int, operands: Seq<Value>, start: int, out: Seq<Step>)
    -> core::result::Result<Seq<Step>, Failure>
    decreases s.len() - at,
{
    let p = skip(s, at);
    proof {
        crate::pdf::object::lemma_space_end_bounds(s, at, false);
        crate::pdf::object::lemma_run_end_bounds(s, p);
    }
    if at < 0 || p >= s.len() {
        Ok(out)
    } else {
        let begun = if operands.len() == 0 { p } else { start };
        if begins_value(s[p]) {
            match parse_object(s, p) {
                Ok((v, e)) => if e <= at || e > s.len() {
                    Err(Failure::Malformed)
                } else {
                    parse_ops(s, e, operands.push(v), begun, out)
                },
                Err(f) => Err(f),
            }
        } else if stray(s[p]) {
            Err(Failure::Malformed)
        } else {
            let e = run_end(s, p);
            let word = s.subrange(p, e);
            if e <= p {
                Err(Failure::Malformed)
            } else if word == word_bi() {
                match inline_end(s, e) {
                    Some(x) => if x <= at || x > s.len() {
                        Err(Failure::Malformed)
                    } else {
                        parse_ops(s, x, Seq::empty(), begun, out)
                    },
                    None => Err(Failure::Malformed),
                }
            } else if word == crate::pdf::object::word_true() {
                parse_ops(s, e, operands.push(Value::Bool(true)), begun, out)
            } else if word == crate::pdf::object::word_false() {
                parse_ops(s, e, operands.push(Value::Bool(false)), begun, out)
            } else if word == crate::pdf::object::word_null() {
                parse_ops(s, e, operands.push(Value::Null), begun, out)
            } else {
                parse_ops(s, e, Seq::empty(), begun,
                    out.push(Step { operator: word, operands, start: begun, end: e }))
            }
        }
    }
}


fn ascii_space_byte(b: u8) -> (r: bool)
    ensures
        r == ascii_space(b),
{
    b == 32 || b == 9 || b == 10 || b == 12 || b == 13
}

/// Past an inline image, to just after its `EI`.
fn skip_inline_image(bytes: &[u8], from: usize) -> (r: Result<usize>)
    requires
        from <= bytes@.len(),
    ensures
        match inline_end(bytes@, from as int) {
            Some(x) => r matches Ok(v) && v == x,
            None => r matches Err(e) && e is InvalidArgument,
        },
        r matches Ok(v) ==> from < v <= bytes@.len(),
{
    let n = bytes.len();
    let mut i: usize = from;
    while i < n && n - i >= 2 && !(bytes[i] == 73 && bytes[i + 1] == 68)
        invariant
            from <= i <= n,
            n == bytes@.len(),
            id_from(bytes@, i as int) == id_from(bytes@, from as int),
        decreases n - i,
    {
        i = i + 1;
    }
    if i >= n || n - i < 2 {
        return Err(PdfError::InvalidArgument(String::from_str("an inline image with no data")));
    }
    // The data begins after `ID` and one white-space byte.
    if n - i < 5 {
        return Err(PdfError::InvalidArgument(String::from_str("an inline image that never ends")));
    }
    let mut at: usize = i + 3;
    assert(id_from(bytes@, from as int) == Some(i as int));
    while n - at >= 2
        invariant
            from <= i,
            i + 3 <= at <= n,
            n == bytes@.len(),
            id_from(bytes@, from as int) == Some(i as int),
            ei_from(bytes@, at as int) == ei_from(bytes@, i + 3),
        decreases n - at,
    {
        if bytes[at] == 69 && bytes[at + 1] == 73 && ascii_space_byte(bytes[at - 1])
            && (at + 2 >= n || ascii_space_byte(bytes[at + 2])) {
            return Ok(at + 2);
        }
        at = at + 1;
    }
    Err(PdfError::InvalidArgument(String::from_str("an inline image that never ends")))
}

/// Split a content stream into its operations.
///
/// Inline images are skipped whole. `BI … ID <binary> EI` puts raw image bytes
/// straight in the stream, and those bytes are as likely to contain `EI` as
/// anything else — so the scan looks for a delimiter followed by white-space,
/// and a stream this cannot resolve is refused rather than mis-cut.
pub fn parse(bytes: &[u8]) -> (r: Result<Vec<Operation>>)
    ensures
        match parse_ops(bytes@, 0, Seq::empty(), 0, Seq::empty()) {
            Ok(found) => r matches Ok(v) && steps(v@) == found,
            Err(f) => r matches Err(e) && reports(f, e),
        },
{
    let ghost s = bytes@;
    let n = bytes.len();
    let mut lexer = Lexer::new(bytes, 0);
    let mut out: Vec<Operation> = Vec::new();
    let mut operands: Vec<Object> = Vec::new();
    let mut start: usize = 0;
    let ghost target = parse_ops(s, 0, Seq::empty(), 0, Seq::empty());
    proof {
        assert(values_of(operands@) =~= Seq::<Value>::empty());
        assert(steps(out@) =~= Seq::<Step>::empty());
    }
    loop
        invariant
            lexer.bytes@ == s,
            s == bytes@,
            n == s.len(),
            lexer.at <= n,
            target == parse_ops(s, 0, Seq::empty(), 0, Seq::empty()),
            parse_ops(s, lexer.at as int, values_of(operands@), start as int, steps(out@)) == target,
        decreases n - lexer.at,
    {
        let ghost at0 = lexer.at as int;
        lexer.skip_space();
        proof {
            crate::pdf::object::lemma_space_end_bounds(s, at0, false);
            crate::pdf::object::lemma_skip_stops(s, at0, false);
        }
        if lexer.at >= n {
            return Ok(out);
        }
        if operands.len() == 0 {
            start = lexer.at;
        }
        let b = bytes[lexer.at];
        if b == 47 || b == 40 || b == 91 || b == 60 || (48 <= b && b <= 57) || b == 43 || b == 45 || b == 46 {
            match lexer.object() {
                Ok(o) => {
                    let ghost before = values_of(operands@);
                    operands.push(o);
                    proof {
                        assert(values_of(operands@) =~= before.push(o.value()));
                    }
                },
                Err(e) => {
                    return Err(e);
                },
            }
        } else if b == 93 || b == 41 || b == 62 || b == 125 || b == 123 {
            // A stray delimiter: the stream is not what it claims to be, and
            // guessing past it would cut the wrong bytes.
            let mut m = String::from_str("a stray '");
            let one = vstd::slice::slice_subrange(bytes, lexer.at, lexer.at + 1);
            m.append(crate::pdf::object::lossy_text(one).as_str());
            m.append("' in the content stream at ");
            crate::text::push_decimal(&mut m, lexer.at as u64);
            return Err(PdfError::InvalidArgument(m));
        } else {
            let word = lexer.token();
            if word.len() == 0 {
                return Err(PdfError::InvalidArgument(String::from_str("the content stream stopped making sense")));
            }
            let is_bi = word.len() == 2 && word[0] == 66 && word[1] == 73;
            proof {
                if is_bi {
                    assert(word@ =~= word_bi());
                } else if word@ == word_bi() {
                    assert(word@[0] == 66 && word@[1] == 73);
                }
            }
            if is_bi {
                lexer.at = match skip_inline_image(bytes, lexer.at) {
                    Ok(x) => x,
                    Err(e) => {
                        return Err(e);
                    },
                };
                operands.clear();
                proof {
                    assert(values_of(operands@) =~= Seq::<Value>::empty());
                }
                continue;
            }
            let t = vec![116u8, 114u8, 117u8, 101u8];
            let f = vec![102u8, 97u8, 108u8, 115u8, 101u8];
            let z = vec![110u8, 117u8, 108u8, 108u8];
            proof {
                assert(t@ =~= crate::pdf::object::word_true());
                assert(f@ =~= crate::pdf::object::word_false());
                assert(z@ =~= crate::pdf::object::word_null());
            }
            let ghost before = values_of(operands@);
            if crate::pdf::object::same_bytes(word, t.as_slice()) {
                operands.push(Object::Bool(true));
                proof {
                    assert(values_of(operands@) =~= before.push(Value::Bool(true)));
                }
            } else if crate::pdf::object::same_bytes(word, f.as_slice()) {
                operands.push(Object::Bool(false));
                proof {
                    assert(values_of(operands@) =~= before.push(Value::Bool(false)));
                }
            } else if crate::pdf::object::same_bytes(word, z.as_slice()) {
                operands.push(Object::Null);
                proof {
                    assert(values_of(operands@) =~= before.push(Value::Null));
                }
            } else {
                let taken = operands;
                operands = Vec::new();
                let op = Operation {
                    operator: vstd::slice::slice_to_vec(word),
                    operands: taken,
                    span: std::ops::Range { start: start, end: lexer.at },
                };
                let ghost before_out = steps(out@);
                out.push(op);
                proof {
                    assert(steps(out@) =~= before_out.push(op.step()));
                    assert(values_of(operands@) =~= Seq::<Value>::empty());
                }
            }
        }
    }
}


// ---------------------------------------------------------------------------
// Cutting and replacing.

/// An edit as values: where it starts, where it ends, what goes in its place.
pub open spec fn edits_of(es: Seq<(std::ops::Range<usize>, Vec<u8>)>) -> Seq<(int, int, Seq<u8>)> {
    es.map_values(|e: (std::ops::Range<usize>, Vec<u8>)| (e.0.start as int, e.0.end as int, e.1@))
}

/// The first place at or after `from` whose start is past `start`.
pub open spec fn after_starts(sorted: Seq<(int, int, Seq<u8>)>, start: int, from: int) -> int
    decreases sorted.len() - from,
{
    if 0 <= from < sorted.len() && sorted[from].0 <= start { after_starts(sorted, start, from + 1) } else { from }
}

/// Edits in order of where they start, those that start at the same place
/// kept in the order they were given.
pub open spec fn by_start(es: Seq<(int, int, Seq<u8>)>) -> Seq<(int, int, Seq<u8>)>
    decreases es.len(),
{
    if es.len() == 0 {
        Seq::empty()
    } else {
        let sorted = by_start(es.drop_last());
        sorted.insert(after_starts(sorted, es.last().0, 0), es.last())
    }
}

/// The bytes from `at` on with the edits from `i` on made: an edit that
/// starts inside one already made is skipped rather than trusted, and each
/// replacement has a newline either side so it cannot fuse with a
/// neighbouring token.
pub open spec fn spliced_from(s: Seq<u8>, es: Seq<(int, int, Seq<u8>)>, i: int, at: int, out: Seq<u8>) -> Seq<u8>
    decreases es.len() - i,
{
    if i < 0 || i >= es.len() {
        out + s.subrange(at, s.len() as int)
    } else if es[i].0 < at {
        spliced_from(s, es, i + 1, at, out)
    } else {
        spliced_from(s, es, i + 1, es[i].1, out + s.subrange(at, es[i].0) + seq![10u8] + es[i].2 + seq![10u8])
    }
}

/// The stream with the edits made.
pub open spec fn spliced(s: Seq<u8>, es: Seq<(int, int, Seq<u8>)>) -> Seq<u8> {
    spliced_from(s, by_start(es), 0, 0, Seq::empty())
}

/// Whether every edit lies within the stream.
pub open spec fn within(s: Seq<u8>, es: Seq<(int, int, Seq<u8>)>) -> bool {
    forall|i: int| 0 <= i < es.len() ==> (#[trigger] es[i]).0 <= s.len() && es[i].1 <= s.len()
}

pub proof fn lemma_after_starts_bounds(sorted: Seq<(int, int, Seq<u8>)>, start: int, from: int)
    requires
        0 <= from <= sorted.len(),
    ensures
        from <= after_starts(sorted, start, from) <= sorted.len(),
    decreases sorted.len() - from,
{
    if from < sorted.len() && sorted[from].0 <= start {
        lemma_after_starts_bounds(sorted, start, from + 1);
    }
}

pub proof fn lemma_by_start_within(s: Seq<u8>, es: Seq<(int, int, Seq<u8>)>)
    requires
        within(s, es),
    ensures
        within(s, by_start(es)),
        by_start(es).len() == es.len(),
    decreases es.len(),
{
    if es.len() > 0 {
        assert(within(s, es.drop_last()));
        lemma_by_start_within(s, es.drop_last());
        let sorted = by_start(es.drop_last());
        lemma_after_starts_bounds(sorted, es.last().0, 0);
        let i = after_starts(sorted, es.last().0, 0);
        assert forall|k: int| 0 <= k < sorted.insert(i, es.last()).len() implies
            (#[trigger] sorted.insert(i, es.last())[k]).0 <= s.len() && sorted.insert(i, es.last())[k].1 <= s.len() by {
            if k < i {
            } else if k == i {
                assert(es[es.len() - 1] == es.last());
            } else {
                assert(sorted.insert(i, es.last())[k] == sorted[k - 1]);
            }
        }
    }
}

/// Swap some spans for new bytes, copying every other byte through unchanged.
///
/// The general form of [`remove`] — an empty replacement is a cut. What is not
/// named here is not touched, which is the guarantee the whole module rests on.
pub fn splice(bytes: &[u8], edits: &[(std::ops::Range<usize>, Vec<u8>)]) -> (r: Vec<u8>)
    requires
        within(bytes@, edits_of(edits@)),
    ensures
        r@ == spliced(bytes@, edits_of(edits@)),
{
    let ghost es = edits_of(edits@);
    // The edits in order of where they start, as indices into `edits`.
    let mut order: Vec<usize> = Vec::new();
    let mut k: usize = 0;
    while k < edits.len()
        invariant
            k <= edits@.len(),
            es == edits_of(edits@),
            forall|j: int| 0 <= j < order@.len() ==> (#[trigger] order@[j]) < edits@.len(),
            order@.map_values(|x: usize| es[x as int]) == by_start(es.subrange(0, k as int)),
        decreases edits.len() - k,
    {
        let ghost sorted = order@.map_values(|x: usize| es[x as int]);
        let start = edits[k].0.start;
        let mut p: usize = 0;
        while p < order.len() && edits[order[p]].0.start <= start
            invariant
                p <= order@.len(),
                forall|j: int| 0 <= j < order@.len() ==> (#[trigger] order@[j]) < edits@.len(),
                sorted == order@.map_values(|x: usize| es[x as int]),
                es == edits_of(edits@),
                start == edits@[k as int].0.start,
                k < edits@.len(),
                after_starts(sorted, start as int, p as int) == after_starts(sorted, start as int, 0),
            decreases order.len() - p,
        {
            p = p + 1;
        }
        order.insert(p, k);
        proof {
            let prefix = es.subrange(0, k + 1);
            assert(prefix.drop_last() =~= es.subrange(0, k as int));
            assert(prefix.last() == es[k as int]);
            assert(order@.map_values(|x: usize| es[x as int]) =~= sorted.insert(p as int, es[k as int]));
        }
        k = k + 1;
    }
    proof {
        assert(es.subrange(0, k as int) =~= es);
        lemma_by_start_within(bytes@, es);
    }
    let ghost sorted = by_start(es);
    let mut out: Vec<u8> = Vec::new();
    let mut at: usize = 0;
    let mut i: usize = 0;
    let n = bytes.len();
    while i < order.len()
        invariant
            i <= order@.len(),
            at <= n,
            n == bytes@.len(),
            es == edits_of(edits@),
            sorted == by_start(es),
            within(bytes@, sorted),
            forall|j: int| 0 <= j < order@.len() ==> (#[trigger] order@[j]) < edits@.len(),
            order@.map_values(|x: usize| es[x as int]) == sorted,
            spliced_from(bytes@, sorted, i as int, at as int, out@) == spliced(bytes@, es),
        decreases order.len() - i,
    {
        let e = &edits[order[i]];
        proof {
            assert(sorted[i as int] == es[order@[i as int] as int]);
        }
        if e.0.start < at {
            i = i + 1;
            continue;
        }
        proof {
            assert(sorted[i as int] == (e.0.start as int, e.0.end as int, e.1@));
        }
        let ghost before = out@;
        let between = vstd::slice::slice_subrange(bytes, at, e.0.start);
        crate::text::extend(&mut out, between);
        out.push(10u8);
        crate::text::extend(&mut out, e.1.as_slice());
        out.push(10u8);
        proof {
            assert(out@ =~= before + bytes@.subrange(at as int, e.0.start as int) + seq![10u8] + e.1@ + seq![10u8]);
        }
        at = e.0.end;
        i = i + 1;
    }
    let rest = vstd::slice::slice_subrange(bytes, at, n);
    crate::text::extend(&mut out, rest);
    out
}

/// The edits that cut these operations out.
pub open spec fn cuts(ops: Seq<&Operation>) -> Seq<(int, int, Seq<u8>)> {
    ops.map_values(|o: &Operation| (o.span.start as int, o.span.end as int, Seq::<u8>::empty()))
}

/// One piece of what a show-text operator draws.
#[derive(Debug, Clone, PartialEq, Eq)]
pub enum Piece {
    /// Character codes, as bytes.
    Codes(Vec<u8>),
    /// A `TJ` spacing number, in thousandths of the font size, as the stream
    /// wrote it.
    Kern(Vec<u8>),
}

/// A piece as a value.
pub enum PieceValue {
    Codes(Seq<u8>),
    Kern(Seq<u8>),
}

impl Piece {
    pub open spec fn value(self) -> PieceValue {
        match self {
            Piece::Codes(b) => PieceValue::Codes(b@),
            Piece::Kern(n) => PieceValue::Kern(n@),
        }
    }
}

/// Pieces as values.
pub open spec fn piece_values(p: Seq<Piece>) -> Seq<PieceValue> {
    p.map_values(|x: Piece| x.value())
}

/// The bytes a string operand stands for: a literal's with its escapes
/// resolved, a hex string's decoded.
pub open spec fn string_bytes(v: Value) -> Option<Seq<u8>> {
    match v {
        Value::Literal(raw) => Some(unescaped(raw)),
        Value::Hex(raw) => Some(hex_decoded(raw)),
        _ => None,
    }
}

/// What one item of a `TJ` array shows: codes for a string, spacing for a
/// number, nothing else.
pub open spec fn item_pieces(v: Value) -> Seq<PieceValue> {
    match string_bytes(v) {
        Some(b) => seq![PieceValue::Codes(b)],
        None => match v {
            Value::Number(raw) => seq![PieceValue::Kern(raw)],
            _ => Seq::empty(),
        },
    }
}

/// What the items of a `TJ` array show, in order.
pub open spec fn items_pieces(items: Seq<Value>) -> Seq<PieceValue>
    decreases items.len(),
{
    if items.len() == 0 { Seq::empty() } else { items_pieces(items.drop_last()) + item_pieces(items.last()) }
}

/// What one operand shows: an array's items, or a string's codes.
pub open spec fn operand_pieces(v: Value) -> Seq<PieceValue> {
    match v {
        Value::Array(items) => items_pieces(items),
        _ => match string_bytes(v) {
            Some(b) => seq![PieceValue::Codes(b)],
            None => Seq::empty(),
        },
    }
}

/// What the operands show, in order.
pub open spec fn operands_pieces(operands: Seq<Value>) -> Seq<PieceValue>
    decreases operands.len(),
{
    if operands.len() == 0 {
        Seq::empty()
    } else {
        operands_pieces(operands.drop_last()) + operand_pieces(operands.last())
    }
}

fn string_of(o: &Object) -> (r: Option<Vec<u8>>)
    ensures
        match string_bytes(o.value()) {
            Some(b) => r matches Some(x) && x@ == b,
            None => r is None,
        },
{
    match o {
        Object::LiteralString(raw) => Some(unescape(raw.as_slice())),
        Object::HexString(raw) => Some(from_hex(raw)),
        _ => None,
    }
}

/// What an operator shows, as codes and the spacing between them.
///
/// Literal strings come back with their escapes resolved, so a caller counting
/// codes counts glyphs rather than backslashes.
pub fn pieces(operation: &Operation) -> (r: Vec<Piece>)
    ensures
        piece_values(r@) == operands_pieces(operation.step().operands),
{
    let ghost ops = operation.step().operands;
    let mut out: Vec<Piece> = Vec::new();
    let mut i: usize = 0;
    while i < operation.operands.len()
        invariant
            i <= operation.operands@.len(),
            ops == values_of(operation.operands@),
            piece_values(out@) == operands_pieces(ops.subrange(0, i as int)),
        decreases operation.operands.len() - i,
    {
        let ghost before = piece_values(out@);
        proof {
            assert(ops.subrange(0, i + 1).drop_last() =~= ops.subrange(0, i as int));
            assert(ops[i as int] == operation.operands@[i as int].value());
        }
        match &operation.operands[i] {
            Object::Array(items) => {
                proof {
                    assert(operation.operands@[i as int] == Object::Array(*items));
                }
                let ghost vals = match ops[i as int] { Value::Array(v) => v, _ => Seq::empty() };
                proof {
                    assert(ops[i as int] == Value::Array(vals));
                    assert(vals.len() == items@.len());
                    assert forall|k: int| 0 <= k < items@.len() implies #[trigger] vals[k] == items@[k].value() by {}
                }
                let mut j: usize = 0;
                while j < items.len()
                    invariant
                        j <= items@.len(),
                        vals.len() == items@.len(),
                        forall|k: int| 0 <= k < items@.len() ==> #[trigger] vals[k] == items@[k].value(),
                        piece_values(out@) == before + items_pieces(vals.subrange(0, j as int)),
                    decreases items.len() - j,
                {
                    proof {
                        assert(vals.subrange(0, j + 1).drop_last() =~= vals.subrange(0, j as int));
                        assert(vals[j as int] == items@[j as int].value());
                    }
                    let ghost prior = piece_values(out@);
                    match string_of(&items[j]) {
                        Some(b) => {
                            out.push(Piece::Codes(b));
                            proof { assert(piece_values(out@) =~= prior.push(out@[out@.len() - 1].value())); }
                        },
                        None => match &items[j] {
                            Object::Number(raw) => {
                                out.push(Piece::Kern(crate::pdf::object::copy_bytes(raw)));
                                proof { assert(piece_values(out@) =~= prior.push(out@[out@.len() - 1].value())); }
                            },
                            _ => {},
                        },
                    }
                    proof {
                        assert(piece_values(out@) =~= before + items_pieces(vals.subrange(0, j + 1)));
                    }
                    j = j + 1;
                }
                proof {
                    assert(vals.subrange(0, j as int) =~= vals);
                }
            },
            other => {
                match string_of(other) {
                    Some(b) => {
                        out.push(Piece::Codes(b));
                        proof { assert(piece_values(out@) =~= before.push(out@[out@.len() - 1].value())); }
                    },
                    None => {},
                }
            },
        }
        proof {
            assert(piece_values(out@) =~= operands_pieces(ops.subrange(0, i + 1)));
        }
        i = i + 1;
    }
    proof {
        assert(ops.subrange(0, i as int) =~= ops);
    }
    out
}

/// Cut some operations out, copying every other byte through unchanged.
///
/// **The point of the whole module.** What is left is not re-emitted: the
/// bytes between the cuts are the bytes that were there, so the surviving text
/// draws exactly as it drew before.
pub fn remove(bytes: &[u8], operations: &[&Operation]) -> (r: Vec<u8>)
    requires
        within(bytes@, cuts(operations@)),
    ensures
        r@ == spliced(bytes@, cuts(operations@)),
{
    let mut edits: Vec<(std::ops::Range<usize>, Vec<u8>)> = Vec::new();
    let mut i: usize = 0;
    while i < operations.len()
        invariant
            i <= operations@.len(),
            edits_of(edits@) == cuts(operations@).subrange(0, i as int),
        decreases operations.len() - i,
    {
        let o = operations[i];
        let ghost prev = edits@;
        let nothing: Vec<u8> = Vec::new();
        assert(nothing@ =~= Seq::<u8>::empty());
        edits.push((std::ops::Range { start: o.span.start, end: o.span.end }, nothing));
        proof {
            assert(edits@ == prev.push((std::ops::Range { start: o.span.start, end: o.span.end }, nothing)));
            assert(edits_of(edits@) =~= edits_of(prev).push((o.span.start as int, o.span.end as int, Seq::<u8>::empty())));
            assert(cuts(operations@).subrange(0, i + 1) =~= cuts(operations@).subrange(0, i as int).push(
                (o.span.start as int, o.span.end as int, Seq::<u8>::empty())));
        }
        i = i + 1;
    }
    proof {
        assert(cuts(operations@).subrange(0, i as int) =~= cuts(operations@));
    }
    splice(bytes, edits.as_slice())
}

/// **Nothing asked for, nothing changed**: with no edits the stream comes
/// back as it was.
pub proof fn law_no_edit_changes_nothing(s: Seq<u8>)
    ensures
        spliced(s, Seq::empty()) == s,
{
    assert(by_start(Seq::<(int, int, Seq<u8>)>::empty()) =~= Seq::<(int, int, Seq<u8>)>::empty());
    assert(Seq::<u8>::empty() + s.subrange(0, s.len() as int) =~= s);
}

/// **Every byte outside a cut is the byte that was there**: one edit leaves
/// everything before its span and everything after it exactly as it was.
pub proof fn law_one_edit_touches_only_its_span(s: Seq<u8>, start: int, end: int, with: Seq<u8>)
    requires
        0 <= start <= end <= s.len(),
    ensures
        spliced(s, seq![(start, end, with)])
            == s.subrange(0, start) + seq![10u8] + with + seq![10u8] + s.subrange(end, s.len() as int),
{
    let es = seq![(start, end, with)];
    reveal_with_fuel(by_start, 2);
    reveal_with_fuel(spliced_from, 2);
    assert(es.drop_last() =~= Seq::<(int, int, Seq<u8>)>::empty());
    assert(by_start(es) =~= es);
    assert(Seq::<u8>::empty() + s.subrange(0, start) + seq![10u8] + with + seq![10u8] + s.subrange(end, s.len() as int)
        =~= s.subrange(0, start) + seq![10u8] + with + seq![10u8] + s.subrange(end, s.len() as int));
}


// ---------------------------------------------------------------------------
// Filters.

/// The bytes zlib-compressed data inflates to, as `flate2` computes them, or
/// `None` when they are not zlib data.
pub uninterp spec fn inflated(data: Seq<u8>) -> Option<Seq<u8>>;

/// Some bytes zlib-compressed at the default level, as `flate2` computes
/// them.
pub uninterp spec fn deflated(data: Seq<u8>) -> Seq<u8>;

/// `flate2::read::ZlibDecoder::new`, then `read_to_end`: the inflated bytes,
/// named as a function of the compressed ones, or `None` when reading fails.
#[verifier::external_body]
fn zlib_inflate(raw: &[u8]) -> (r: Option<Vec<u8>>)
    ensures
        match inflated(raw@) {
            Some(out) => r matches Some(v) && v@ == out,
            None => r is None,
        },
{
    let mut out = Vec::new();
    match flate2::read::ZlibDecoder::new(raw).read_to_end(&mut out) {
        Ok(_) => Some(out),
        Err(_) => None,
    }
}

/// `flate2::write::ZlibEncoder::new` at `Compression::default()`, then
/// `write_all` and `finish`: the compressed bytes, named as a function of the
/// data. The writer underneath is a `Vec`, whose writes cannot fail, so
/// neither can the compression.
#[verifier::external_body]
fn zlib_deflate(data: &[u8]) -> (r: core::result::Result<Vec<u8>, String>)
    ensures
        r is Ok,
        r matches Ok(v) ==> v@ == deflated(data@),
{
    let mut encoder = flate2::write::ZlibEncoder::new(Vec::new(), flate2::Compression::default());
    match encoder.write_all(data).and_then(|()| encoder.finish()) {
        Ok(v) => Ok(v),
        Err(e) => Err(format!("{e}")),
    }
}

pub open spec fn f_filter() -> Seq<u8> { seq![70u8, 105u8, 108u8, 116u8, 101u8, 114u8] }

fn fb_filter() -> (r: Vec<u8>)
    ensures
        r@ == f_filter(),
{
    let r = vec![70u8, 105u8, 108u8, 116u8, 101u8, 114u8];
    assert(r@ =~= f_filter());
    r
}

pub open spec fn f_flate_decode() -> Seq<u8> { seq![70u8, 108u8, 97u8, 116u8, 101u8, 68u8, 101u8, 99u8, 111u8, 100u8, 101u8] }

fn fb_flate_decode() -> (r: Vec<u8>)
    ensures
        r@ == f_flate_decode(),
{
    let r = vec![70u8, 108u8, 97u8, 116u8, 101u8, 68u8, 101u8, 99u8, 111u8, 100u8, 101u8];
    assert(r@ =~= f_flate_decode());
    r
}

pub open spec fn f_decode_parms() -> Seq<u8> { seq![68u8, 101u8, 99u8, 111u8, 100u8, 101u8, 80u8, 97u8, 114u8, 109u8, 115u8] }

fn fb_decode_parms() -> (r: Vec<u8>)
    ensures
        r@ == f_decode_parms(),
{
    let r = vec![68u8, 101u8, 99u8, 111u8, 100u8, 101u8, 80u8, 97u8, 114u8, 109u8, 115u8];
    assert(r@ =~= f_decode_parms());
    r
}

/// Whether a stream's filter is Flate alone, nothing at all, or something
/// else: `Some(true)`, `Some(false)` and `None`.
pub open spec fn flate_only(entries: Seq<(Seq<u8>, Value)>) -> Option<bool> {
    match lookup(entries, f_filter()) {
        None => Some(false),
        Some(Value::Name(n)) => if n == f_flate_decode() { Some(true) } else { None },
        Some(Value::Array(items)) => if items.len() == 1 && items[0] == Value::Name(f_flate_decode()) {
            Some(true)
        } else {
            None
        },
        _ => None,
    }
}

/// What a stream's bytes are once its filter is undone: the bytes
/// themselves when it has none, inflated when it is Flate alone with no
/// `/DecodeParms` (or a null one), and nothing for anything else, rather
/// than a guess.
pub open spec fn decoded(entries: Seq<(Seq<u8>, Value)>, raw: Seq<u8>) -> Option<Seq<u8>> {
    match flate_only(entries) {
        None => None,
        Some(false) => Some(raw),
        Some(true) => match lookup(entries, f_decode_parms()) {
            Some(p) => if p != Value::Null { None } else { inflated(raw) },
            None => inflated(raw),
        },
    }
}

/// Inflate a stream, if it says it is deflated.
pub fn decode(dict: &Dict, raw: &[u8]) -> (r: Option<Vec<u8>>)
    ensures
        match decoded(dict.entries(), raw@) {
            Some(out) => r matches Some(v) && v@ == out,
            None => r is None,
        },
{
    let filter_word = fb_filter();
    let flate = fb_flate_decode();
    match dict.get(filter_word.as_slice()) {
        None => {
            return Some(vstd::slice::slice_to_vec(raw));
        },
        Some(Object::Name(name)) => {
            if !crate::pdf::object::same_bytes(name.as_slice(), flate.as_slice()) {
                return None;
            }
        },
        Some(Object::Array(items)) => {
            proof {
                crate::pdf::object::lemma_array_value(*items);
            }
            if items.len() != 1 {
                return None;
            }
            match &items[0] {
                Object::Name(name) => {
                    if !crate::pdf::object::same_bytes(name.as_slice(), flate.as_slice()) {
                        return None;
                    }
                },
                _ => {
                    return None;
                },
            }
        },
        _ => {
            return None;
        },
    }
    // A `/DecodeParms` means a predictor, which changes the bytes after
    // inflating. Not handled, so not guessed at.
    let parms_word = fb_decode_parms();
    match dict.get(parms_word.as_slice()) {
        Some(Object::Null) => {},
        Some(_) => {
            return None;
        },
        None => {},
    }
    zlib_inflate(raw)
}

/// Deflate a stream back, at the default level.
pub fn encode(data: &[u8]) -> (r: Result<Vec<u8>>)
    ensures
        r matches Ok(v) && v@ == deflated(data@),
{
    match zlib_deflate(data) {
        Ok(v) => Ok(v),
        Err(e) => {
            let mut m = String::from_str("the content stream could not be written: ");
            m.append(e.as_str());
            Err(PdfError::Pdfium(m))
        },
    }
}

} // verus!
