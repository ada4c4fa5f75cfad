//! Finding the objects in a file, and writing one back changed.

use vstd::prelude::*;
use crate::error::{PdfError, Result};
use crate::text::{bounded_numeral, occurs_at, parse_unsigned};
use crate::pdf::object::{
    byte_from, bytes_length, lookup, parse_object, read_as, remove_entry, reports, run_end, same_bytes,
    set_entry, skip, value_i64, word_length, Dict, Failure, Lexer, Object, Value,
};

verus! {

// ---------------------------------------------------------------------------
// The cross-reference table, as a sequence of (object number, offset) rows
// kept in order of object number.

/// Where `k` belongs among the rows: the first at or after `from` whose
/// number is not below it.
pub open spec fn slot(rows: Seq<(u32, usize)>, k: u32, from: int) -> int
    decreases rows.len() - from,
{
    if 0 <= from < rows.len() && rows[from].0 < k { slot(rows, k, from + 1) } else { from }
}

pub proof fn lemma_slot_bounds(rows: Seq<(u32, usize)>, k: u32, from: int)
    ensures
        from <= slot(rows, k, from),
        0 <= from <= rows.len() ==> slot(rows, k, from) <= rows.len(),
    decreases rows.len() - from,
{
    if 0 <= from < rows.len() && rows[from].0 < k {
        lemma_slot_bounds(rows, k, from + 1);
    }
}

/// The rows with `k` at `v`: put in its place when new; when `k` is already
/// there, replaced only if `replace`.
pub open spec fn row_put(rows: Seq<(u32, usize)>, k: u32, v: usize, replace: bool) -> Seq<(u32, usize)> {
    let i = slot(rows, k, 0);
    if i < rows.len() && rows[i].0 == k {
        if replace { rows.update(i, (k, v)) } else { rows }
    } else {
        rows.insert(i, (k, v))
    }
}

/// Where `k`'s row is, if it has one.
pub open spec fn row_of(rows: Seq<(u32, usize)>, k: u32) -> Option<int> {
    let i = slot(rows, k, 0);
    if i < rows.len() && rows[i].0 == k { Some(i) } else { None }
}

/// The rows of a newer table, with an older table's rows added wherever the
/// newer says nothing.
pub open spec fn merge_rows(older: Seq<(u32, usize)>, acc: Seq<(u32, usize)>) -> Seq<(u32, usize)>
    decreases older.len(),
{
    if older.len() == 0 {
        acc
    } else {
        merge_rows(older.drop_first(), row_put(acc, older[0].0, older[0].1, false))
    }
}

/// Whether the rows are in strictly increasing order of number.
pub open spec fn ascending(rows: Seq<(u32, usize)>) -> bool {
    forall|i: int, j: int| 0 <= i < j < rows.len() ==> rows[i].0 < rows[j].0
}

// ---------------------------------------------------------------------------
// Reading the table.

/// The token after `at`, and where it ends.
pub open spec fn token_at(s: Seq<u8>, at: int) -> (Seq<u8>, int) {
    let p = skip(s, at);
    (s.subrange(p, run_end(s, p)), run_end(s, p))
}

pub open spec fn word_n() -> Seq<u8> { seq![110u8] }
pub open spec fn word_xref() -> Seq<u8> { seq![120u8, 114u8, 101u8, 102u8] }
pub open spec fn word_trailer() -> Seq<u8> { seq![116u8, 114u8, 97u8, 105u8, 108u8, 101u8, 114u8] }
pub open spec fn word_startxref() -> Seq<u8> {
    seq![115u8, 116u8, 97u8, 114u8, 116u8, 120u8, 114u8, 101u8, 102u8]
}
pub open spec fn word_prev() -> Seq<u8> { seq![80u8, 114u8, 101u8, 118u8] }

/// The rows of one subsection, from row `index` of `count` on.
///
/// A free entry is not recorded, and neither is an in-use entry at offset
/// zero: the header lives at zero, so no object can begin there.
pub open spec fn xref_entries(s: Seq<u8>, at: int, first: nat, count: nat, index: nat, rows: Seq<(u32, usize)>)
    -> core::result::Result<(int, Seq<(u32, usize)>), Failure>
    decreases count - index,
{
    if index >= count {
        Ok((at, rows))
    } else {
        let (offset_text, e1) = token_at(s, at);
        match bounded_numeral(offset_text, usize::MAX as nat) {
            None => Err(Failure::Malformed),
            Some(offset) => {
                let e2 = token_at(s, e1).1;
                let (kind, e3) = token_at(s, e2);
                if kind == word_n() && offset != 0 {
                    if first + index > u32::MAX {
                        Err(Failure::Malformed)
                    } else {
                        xref_entries(s, e3, first, count, index + 1,
                            row_put(rows, (first + index) as u32, offset as usize, true))
                    }
                } else {
                    xref_entries(s, e3, first, count, index + 1, rows)
                }
            },
        }
    }
}

/// Subsections from `at` until the trailer, and the trailer's entries.
pub open spec fn xref_rows(s: Seq<u8>, at: int, rows: Seq<(u32, usize)>)
    -> core::result::Result<(Seq<(u32, usize)>, Seq<(Seq<u8>, Value)>), Failure>
    decreases s.len() - at,
{
    let q = skip(s, at);
    if at < 0 || at > s.len() {
        Err(Failure::Malformed)
    } else if occurs_at(s, word_trailer(), q) {
        match parse_object(s, q + 7) {
            Ok((Value::Dict(entries), _)) => Ok((rows, entries)),
            Ok(_) => Err(Failure::Malformed),
            Err(f) => Err(f),
        }
    } else {
        let (first_text, e1) = token_at(s, at);
        let (count_text, e2) = token_at(s, e1);
        match (bounded_numeral(first_text, u32::MAX as nat), bounded_numeral(count_text, u32::MAX as nat)) {
            (Some(first), Some(count)) => match xref_entries(s, e2, first, count, 0, rows) {
                Ok((pos, more)) => if pos <= at || pos > s.len() {
                    Err(Failure::Malformed)
                } else {
                    xref_rows(s, pos, more)
                },
                Err(f) => Err(f),
            },
            _ => Err(Failure::Malformed),
        }
    }
}

/// One `xref` section and the trailer after it. A cross-reference *stream* is
/// legal, and not what PDFium writes: refused whole rather than half-read.
pub open spec fn xref_section(s: Seq<u8>, at: int)
    -> core::result::Result<(Seq<(u32, usize)>, Seq<(Seq<u8>, Value)>), Failure>
{
    let p = skip(s, at);
    if !occurs_at(s, word_xref(), p) {
        Err(Failure::Unsupported)
    } else {
        xref_rows(s, p + 4, Seq::empty())
    }
}

/// The last place at or before `i`, and not before `lo`, where `lit` occurs.
pub open spec fn last_at(s: Seq<u8>, lit: Seq<u8>, lo: int, i: int) -> Option<int>
    decreases i - lo + 1,
{
    if i < lo {
        None
    } else if occurs_at(s, lit, i) {
        Some(i)
    } else {
        last_at(s, lit, lo, i - 1)
    }
}

/// Where the last revision's table is: the number after the last
/// `startxref` in the final 2048 bytes.
pub open spec fn start_xref(s: Seq<u8>) -> core::result::Result<int, Failure> {
    let tail_from = if s.len() >= 2048 { s.len() - 2048 } else { 0 };
    match last_at(s, word_startxref(), tail_from, s.len() - 9) {
        None => Err(Failure::Malformed),
        Some(i) => match bounded_numeral(token_at(s, i + 9).0, usize::MAX as nat) {
            Some(v) => Ok(v as int),
            None => Err(Failure::Malformed),
        },
    }
}

/// Where a trailer says the previous table is.
pub open spec fn prev_of(entries: Seq<(Seq<u8>, Value)>) -> Option<int> {
    match lookup(entries, word_prev()) {
        Some(v) => match value_i64(v) {
            Some(n) => if 0 <= n <= usize::MAX { Some(n as int) } else { None },
            None => None,
        },
        None => None,
    }
}

/// Whether the tables read so far are distinct places in the file.
pub open spec fn distinct_places(seen: Seq<int>, len: nat) -> bool {
    seen.no_duplicates() && forall|i: int| 0 <= i < seen.len() ==> 0 <= #[trigger] seen[i] < len
}

/// Distinct places in a file are no more than its length.
pub proof fn lemma_places_bounded(seen: Seq<int>, len: nat)
    requires
        distinct_places(seen, len),
    ensures
        seen.len() <= len,
{
    seen.unique_seq_to_set();
    vstd::set_lib::lemma_int_range(0, len as int);
    assert(seen.to_set().subset_of(vstd::set_lib::set_int_range(0, len as int)));
    vstd::set_lib::lemma_len_subset(seen.to_set(), vstd::set_lib::set_int_range(0, len as int));
}

/// The chain of tables from `at`, newest first: earlier sections never
/// overwrite later ones, and the newest trailer is the file's.
pub open spec fn chain(
    s: Seq<u8>,
    at: Option<int>,
    seen: Seq<int>,
    rows: Seq<(u32, usize)>,
    trailer: Option<Seq<(Seq<u8>, Value)>>,
) -> core::result::Result<(Seq<(u32, usize)>, Seq<(Seq<u8>, Value)>), Failure>
    decreases s.len() - seen.len(),
    when distinct_places(seen, s.len())
{
    match at {
        None => Ok((rows, match trailer { Some(t) => t, None => Seq::empty() })),
        Some(section) => if seen.contains(section) || section < 0 || section >= s.len() {
            Err(Failure::Malformed)
        } else {
            proof {
                assert(distinct_places(seen.push(section), s.len()));
                lemma_places_bounded(seen.push(section), s.len());
            }
            match xref_section(s, section) {
                Err(f) => Err(f),
                Ok((newer, t)) => chain(
                    s,
                    prev_of(t),
                    seen.push(section),
                    merge_rows(newer, rows),
                    if trailer is None { Some(t) } else { trailer },
                ),
            }
        },
    }
}

/// Whether the walk of the chain from `at` comes back to a section it has
/// already read, before anything else stops it.
pub open spec fn chain_loops(s: Seq<u8>, at: Option<int>, seen: Seq<int>) -> bool
    decreases s.len() - seen.len(),
    when distinct_places(seen, s.len())
{
    match at {
        None => false,
        Some(section) => if seen.contains(section) {
            true
        } else if section < 0 || section >= s.len() {
            false
        } else {
            proof {
                assert(distinct_places(seen.push(section), s.len()));
                lemma_places_bounded(seen.push(section), s.len());
            }
            match xref_section(s, section) {
                Err(_) => false,
                Ok((_, t)) => chain_loops(s, prev_of(t), seen.push(section)),
            }
        },
    }
}

/// Whether a file's chain of tables loops: some `/Prev` leads back to a
/// table already read.
pub open spec fn table_loops(s: Seq<u8>) -> bool {
    match start_xref(s) {
        Err(_) => false,
        Ok(start) => chain_loops(s, Some(start), Seq::empty()),
    }
}

/// A whole file's table and trailer.
pub open spec fn read_file(s: Seq<u8>) -> core::result::Result<(Seq<(u32, usize)>, Seq<(Seq<u8>, Value)>), Failure> {
    match start_xref(s) {
        Err(f) => Err(f),
        Ok(start) => chain(s, Some(start), Seq::empty(), Seq::empty(), None),
    }
}


fn bytes_xref() -> (r: Vec<u8>)
    ensures
        r@ == word_xref(),
{
    let r = vec![120u8, 114u8, 101u8, 102u8];
    assert(r@ =~= word_xref());
    r
}

fn bytes_trailer() -> (r: Vec<u8>)
    ensures
        r@ == word_trailer(),
{
    let r = vec![116u8, 114u8, 97u8, 105u8, 108u8, 101u8, 114u8];
    assert(r@ =~= word_trailer());
    r
}

fn bytes_startxref() -> (r: Vec<u8>)
    ensures
        r@ == word_startxref(),
{
    let r = vec![115u8, 116u8, 97u8, 114u8, 116u8, 120u8, 114u8, 101u8, 102u8];
    assert(r@ =~= word_startxref());
    r
}

fn bytes_prev() -> (r: Vec<u8>)
    ensures
        r@ == word_prev(),
{
    let r = vec![80u8, 114u8, 101u8, 118u8];
    assert(r@ =~= word_prev());
    r
}

fn malformed(text: &str) -> (e: PdfError)
    ensures
        e matches PdfError::InvalidArgument(m) && m@ == text@,
{
    PdfError::InvalidArgument(String::from_str(text))
}

/// Put `k` at `v` among rows kept in order.
fn put_row(rows: &mut Vec<(u32, usize)>, k: u32, v: usize, replace: bool)
    ensures
        final(rows)@ == row_put(old(rows)@, k, v, replace),
{
    let mut i: usize = 0;
    while i < rows.len() && rows[i].0 < k
        invariant
            i <= rows@.len(),
            *rows == *old(rows),
            slot(rows@, k, i as int) == slot(rows@, k, 0),
        decreases rows.len() - i,
    {
        i = i + 1;
    }
    if i < rows.len() && rows[i].0 == k {
        if replace {
            rows.set(i, (k, v));
        }
    } else {
        rows.insert(i, (k, v));
    }
}

/// Whether `x` is among `v`.
fn holds(v: &Vec<usize>, x: usize) -> (r: bool)
    ensures
        r == v@.contains(x),
{
    let mut i: usize = 0;
    while i < v.len()
        invariant
            i <= v@.len(),
            forall|j: int| 0 <= j < i ==> v@[j] != x,
        decreases v.len() - i,
    {
        if v[i] == x {
            return true;
        }
        i = i + 1;
    }
    false
}

/// The places read so far, as integers.
pub open spec fn places(v: Seq<usize>) -> Seq<int> {
    v.map_values(|x: usize| x as int)
}

/// A trailer read so far, as entries.
pub open spec fn trailer_model(t: Option<Dict>) -> Option<Seq<(Seq<u8>, Value)>> {
    match t {
        Some(d) => Some(d.entries()),
        None => None,
    }
}

fn find_start_xref(bytes: &[u8]) -> (r: Result<usize>)
    ensures
        match start_xref(bytes@) {
            Ok(v) => r matches Ok(x) && x == v,
            Err(f) => r matches Err(e) && reports(f, e),
        },
{
    // Searched from the end, because that is where the last revision's
    // pointer is and a file may carry several.
    let n = bytes.len();
    let tail_from: usize = if n >= 2048 { n - 2048 } else { 0 };
    let word = bytes_startxref();
    if n < 9 {
        return Err(malformed("no startxref"));
    }
    let mut i: usize = n - 9;
    loop
        invariant
            tail_from as int <= i + 1,
            i + 9 <= n,
            n == bytes@.len(),
            word@ == word_startxref(),
            tail_from == (if n >= 2048 { n - 2048 } else { 0 }),
            last_at(bytes@, word_startxref(), tail_from as int, i as int)
                == last_at(bytes@, word_startxref(), tail_from as int, n - 9),
        decreases i + 1 - tail_from,
    {
        if i < tail_from {
            return Err(malformed("no startxref"));
        }
        if crate::text::bytes_at(bytes, word.as_slice(), i) {
            let mut lexer = Lexer::new(bytes, i + 9);
            let token = lexer.token();
            return match parse_unsigned(token, usize::MAX as u64) {
                Some(v) => Ok(v as usize),
                None => Err(malformed("startxref is not a number")),
            };
        }
        if i == 0 {
            return Err(malformed("no startxref"));
        }
        i = i - 1;
    }
}

/// One `xref` section and the trailer after it.
fn read_section(bytes: &[u8], at: usize) -> (r: Result<(Vec<(u32, usize)>, Dict)>)
    requires
        at <= bytes@.len(),
    ensures
        match xref_section(bytes@, at as int) {
            Ok((rows, t)) => r matches Ok((v, d)) && v@ == rows && d.entries() == t,
            Err(f) => r matches Err(e) && reports(f, e),
        },
{
    let ghost s = bytes@;
    let n = bytes.len();
    let mut lexer = Lexer::new(bytes, at);
    lexer.skip_space();
    proof {
        crate::pdf::object::lemma_space_end_bounds(s, at as int, false);
    }
    let xref = bytes_xref();
    if !crate::text::bytes_at(bytes, xref.as_slice(), lexer.at) {
        return Err(PdfError::Unsupported("a cross-reference stream, which this build does not write"));
    }
    lexer.at = lexer.at + 4;
    let trailer = bytes_trailer();
    let mut offsets: Vec<(u32, usize)> = Vec::new();
    let ghost target = xref_section(s, at as int);
    loop
        invariant
            lexer.bytes@ == s,
            s == bytes@,
            n == s.len(),
            lexer.at <= n,
            trailer@ == word_trailer(),
            target == xref_section(s, at as int),
            xref_rows(s, lexer.at as int, offsets@) == target,
        decreases n - lexer.at,
    {
        let ghost pos0 = lexer.at as int;
        lexer.skip_space();
        proof {
            crate::pdf::object::lemma_space_end_bounds(s, pos0, false);
            crate::pdf::object::lemma_skip_stops(s, pos0, false);
        }
        if crate::text::bytes_at(bytes, trailer.as_slice(), lexer.at) {
            lexer.at = lexer.at + 7;
            let found = lexer.object();
            return match found {
                Ok(Object::Dict(d)) => Ok((offsets, d)),
                Ok(_) => Err(malformed("the trailer is not a dict")),
                Err(e) => Err(e),
            };
        }
        // A subsection header: first object number, then how many.
        let first_text = lexer.token();
        let first: u64 = match parse_unsigned(first_text, 4294967295u64) {
            Some(v) => v,
            None => {
                return Err(malformed("a bad xref subsection"));
            },
        };
        let count_text = lexer.token();
        let count: u64 = match parse_unsigned(count_text, 4294967295u64) {
            Some(v) => v,
            None => {
                return Err(malformed("a bad xref subsection"));
            },
        };
        let ghost e2 = lexer.at as int;
        let ghost rows0 = offsets@;
        assert(pos0 < e2);
        let mut index: u64 = 0;
        while index < count
            invariant
                lexer.bytes@ == s,
                n == s.len(),
                e2 <= lexer.at <= n,
                index <= count,
                count <= u32::MAX,
                first <= u32::MAX,
                pos0 < e2,
                s == bytes@,
                target == xref_section(s, at as int),
                xref_entries(s, e2, first as nat, count as nat, 0, rows0) matches Err(f)
                    ==> target == Err::<(Seq<(u32, usize)>, Seq<(Seq<u8>, Value)>), Failure>(f),
                xref_entries(s, lexer.at as int, first as nat, count as nat, index as nat, offsets@)
                    == xref_entries(s, e2, first as nat, count as nat, 0, rows0),
            decreases count - index,
        {
            let offset_text = lexer.token();
            let offset: usize = match parse_unsigned(offset_text, usize::MAX as u64) {
                Some(v) => v as usize,
                None => {
                    return Err(malformed("a bad xref entry"));
                },
            };
            let _generation = lexer.token();
            let kind = lexer.token();
            let in_use = kind.len() == 1 && kind[0] == 110;
            proof {
                if in_use {
                    assert(kind@ =~= word_n());
                } else if kind@ == word_n() {
                    assert(kind@[0] == 110);
                }
            }
            // An in-use entry at offset zero is a free entry too: the header
            // lives at zero, so no object can begin there.
            if in_use && offset != 0 {
                if first + index > 4294967295u64 {
                    return Err(malformed("a bad xref subsection"));
                }
                put_row(&mut offsets, (first + index) as u32, offset, true);
            }
            index = index + 1;
        }
    }
}


/// An older table's rows added to `rows` wherever it says nothing yet.
fn merge_into(rows: &mut Vec<(u32, usize)>, older: &Vec<(u32, usize)>)
    ensures
        final(rows)@ == merge_rows(older@, old(rows)@),
{
    let mut i: usize = 0;
    proof {
        assert(older@.subrange(0, older@.len() as int) =~= older@);
    }
    while i < older.len()
        invariant
            i <= older@.len(),
            merge_rows(older@.subrange(i as int, older@.len() as int), rows@)
                == merge_rows(older@, old(rows)@),
        decreases older.len() - i,
    {
        let (number, offset) = older[i];
        proof {
            let rest = older@.subrange(i as int, older@.len() as int);
            assert(rest.drop_first() =~= older@.subrange(i + 1, older@.len() as int));
            assert(rest[0] == (number, offset));
        }
        put_row(rows, number, offset, false);
        i = i + 1;
    }
    proof {
        assert(older@.subrange(i as int, older@.len() as int) =~= Seq::<(u32, usize)>::empty());
    }
}

/// Where a trailer says the previous table is.
fn prev_from(trailer: &Dict) -> (r: Option<usize>)
    ensures
        match prev_of(trailer.entries()) {
            Some(v) => r == Some(v as usize),
            None => r is None,
        },
{
    let prev_word = bytes_prev();
    match trailer.get(prev_word.as_slice()) {
        Some(o) => match o.as_i64() {
            Some(v) => if v >= 0 && v as u64 <= usize::MAX as u64 { Some(v as usize) } else { None },
            None => None,
        },
        None => None,
    }
}

/// The object found where the table says `number` is, when it is another
/// one: its number.
pub open spec fn misplaced(s: Seq<u8>, rows: Seq<(u32, usize)>, number: u32) -> Option<nat> {
    match row_of(rows, number) {
        None => None,
        Some(i) => {
            let at = rows[i].1 as int;
            if at >= s.len() {
                None
            } else {
                match bounded_numeral(token_at(s, at).0, u32::MAX as nat) {
                    Some(found) => if found != number { Some(found) } else { None },
                    None => None,
                }
            }
        },
    }
}

/// What a file says when its table puts another object where `number`
/// should be.
pub open spec fn misplaced_text(number: u32, found: nat) -> Seq<char> {
    "the table says object "@ + crate::text::decimal(number as nat) + " is where object "@
        + crate::text::decimal(found) + " is"@
}

pub open spec fn word_obj() -> Seq<u8> { seq![111u8, 98u8, 106u8] }

/// One object, read where the table says it is: `n g obj`, with the number
/// checked rather than skipped, then the object.
pub open spec fn object_at(s: Seq<u8>, rows: Seq<(u32, usize)>, number: u32)
    -> core::result::Result<(Value, int), Failure>
{
    match row_of(rows, number) {
        None => Err(Failure::Malformed),
        Some(i) => {
            let at = rows[i].1 as int;
            if at >= s.len() {
                Err(Failure::Malformed)
            } else {
                let (found_text, e1) = token_at(s, at);
                match bounded_numeral(found_text, u32::MAX as nat) {
                    None => Err(Failure::Malformed),
                    Some(found) => if found != number {
                        Err(Failure::Malformed)
                    } else {
                        let e2 = token_at(s, e1).1;
                        let (keyword, e3) = token_at(s, e2);
                        if keyword != word_obj() { Err(Failure::Malformed) } else { parse_object(s, e3) }
                    },
                }
            }
        },
    }
}

fn bytes_obj() -> (r: Vec<u8>)
    ensures
        r@ == word_obj(),
{
    let r = vec![111u8, 98u8, 106u8];
    assert(r@ =~= word_obj());
    r
}

/// Where `k`'s row is, if it has one.
fn find_row(rows: &Vec<(u32, usize)>, k: u32) -> (r: Option<usize>)
    ensures
        r matches Some(j) ==> row_of(rows@, k) == Some(j as int) && j < rows@.len(),
        r is None ==> row_of(rows@, k) is None,
{
    proof {
        lemma_slot_bounds(rows@, k, 0);
    }
    let mut i: usize = 0;
    while i < rows.len() && rows[i].0 < k
        invariant
            i <= rows@.len(),
            slot(rows@, k, i as int) == slot(rows@, k, 0),
        decreases rows.len() - i,
    {
        i = i + 1;
    }
    if i < rows.len() && rows[i].0 == k { Some(i) } else { None }
}

/// "object N" followed by `rest`.
fn about_object(number: u32, rest: &str) -> (e: PdfError)
    ensures
        e is InvalidArgument,
{
    let mut m = String::from_str("object ");
    crate::text::push_decimal(&mut m, number as u64);
    m.append(rest);
    PdfError::InvalidArgument(m)
}

/// A PDF file, read only as far as it takes to find its objects.
#[derive(Debug)]
pub struct File<'a> {
    bytes: &'a [u8],
    offsets: Vec<(u32, usize)>,
    trailer: Dict,
}

impl<'a> File<'a> {
    /// The table is kept in order of object number, each number once.
    #[verifier::type_invariant]
    spec fn in_order(self) -> bool {
        ascending(self.offsets@)
    }

    /// The bytes the file was read from.
    pub closed spec fn source(&self) -> Seq<u8> {
        self.bytes@
    }

    /// Where each object is, by number, in order of number.
    pub closed spec fn rows(&self) -> Seq<(u32, usize)> {
        self.offsets@
    }

    /// The trailer's entries.
    pub closed spec fn trailer_entries(&self) -> Seq<(Seq<u8>, Value)> {
        self.trailer.entries()
    }

    /// Read the cross-reference chain.
    ///
    /// Refuses a file it cannot fully account for rather than reading part of
    /// it. A caller that gets an error here has a file this cannot safely
    /// rewrite, and should leave it alone.
    pub fn parse(bytes: &'a [u8]) -> (r: Result<File<'a>>)
        ensures
            match read_file(bytes@) {
                Ok((rows, t)) => r matches Ok(f) && f.source() == bytes@ && f.rows() == rows
                    && f.trailer_entries() == t,
                Err(fl) => r matches Err(e) && reports(fl, e),
            },
            table_loops(bytes@) ==> (r matches Err(PdfError::InvalidArgument(m))
                && m@ == "the cross-reference table points at itself"@),
    {
        let ghost s = bytes@;
        let n = bytes.len();
        let start = match find_start_xref(bytes) {
            Ok(v) => v,
            Err(e) => {
                return Err(e);
            },
        };
        let mut offsets: Vec<(u32, usize)> = Vec::new();
        let mut trailer: Option<Dict> = None;
        let mut at: Option<usize> = Some(start);
        let mut seen: Vec<usize> = Vec::new();
        let ghost target = read_file(s);
        proof {
            assert(places(seen@) =~= Seq::<int>::empty());
        }
        loop
            invariant
                s == bytes@,
                n == s.len(),
                distinct_places(places(seen@), n as nat),
                target == read_file(s),
                chain(s, match at { Some(v) => Some(v as int), None => None }, places(seen@), offsets@,
                    trailer_model(trailer)) == target,
                table_loops(s) == chain_loops(s, match at { Some(v) => Some(v as int), None => None }, places(seen@)),
            decreases n - seen.len(),
        {
            proof {
                lemma_places_bounded(places(seen@), n as nat);
            }
            let section = match at {
                None => {
                    let t = match trailer {
                        Some(d) => d,
                        None => {
                            let d = Dict(Vec::new());
                            assert(d.entries() =~= Seq::<(Seq<u8>, Value)>::empty());
                            d
                        },
                    };
                    proof {
                        law_table_is_in_order(s);
                    }
                    return Ok(File { bytes, offsets, trailer: t });
                },
                Some(v) => v,
            };
            // A `/Prev` pointing back into a section already read is a loop, and
            // a file that walks one forever is a file that never opens.
            if holds(&seen, section) {
                proof {
                    assert(places(seen@).contains(section as int)) by {
                        let i = choose|i: int| 0 <= i < seen@.len() && seen@[i] == section;
                        assert(places(seen@)[i] == section as int);
                    }
                }
                return Err(malformed("the cross-reference table points at itself"));
            }
            if section >= n {
                return Err(malformed("the cross-reference table is past the end of the file"));
            }
            proof {
                assert(!places(seen@).contains(section as int)) by {
                    if places(seen@).contains(section as int) {
                        let i = choose|i: int| 0 <= i < places(seen@).len() && places(seen@)[i] == section as int;
                        assert(seen@[i] == section);
                    }
                }
            }
            let ghost old_places = places(seen@);
            seen.push(section);
            proof {
                assert(places(seen@) =~= old_places.push(section as int));
                assert(distinct_places(places(seen@), n as nat));
                lemma_places_bounded(places(seen@), n as nat);
            }
            let (section_offsets, section_trailer) = match read_section(bytes, section) {
                Ok(x) => x,
                Err(e) => {
                    return Err(e);
                },
            };
            // Earlier sections must not overwrite later ones: the newest
            // revision of an object is the one the latest table names, and the
            // chain is walked newest first.
            merge_into(&mut offsets, &section_offsets);
            at = prev_from(&section_trailer);
            if trailer.is_none() {
                trailer = Some(section_trailer);
            }
        }
    }

    pub fn trailer(&self) -> (r: &Dict)
        ensures
            r.entries() == self.trailer_entries(),
    {
        &self.trailer
    }

    pub fn bytes(&self) -> (r: &'a [u8])
        ensures
            r@ == self.source(),
    {
        self.bytes
    }

    /// Every object number the table names, in order.
    pub fn numbers(&self) -> (r: Vec<u32>)
        ensures
            r@ == self.rows().map_values(|row: (u32, usize)| row.0),
            forall|i: int, j: int| 0 <= i < j < r@.len() ==> r@[i] < r@[j],
    {
        proof {
            use_type_invariant(self);
        }
        let mut out: Vec<u32> = Vec::new();
        let mut i: usize = 0;
        while i < self.offsets.len()
            invariant
                i <= self.offsets@.len(),
                out@ == self.offsets@.subrange(0, i as int).map_values(|row: (u32, usize)| row.0),
            decreases self.offsets.len() - i,
        {
            out.push(self.offsets[i].0);
            i = i + 1;
            proof {
                assert(out@ =~= self.offsets@.subrange(0, i as int).map_values(|row: (u32, usize)| row.0));
            }
        }
        proof {
            assert(self.offsets@.subrange(0, i as int) =~= self.offsets@);
        }
        out
    }
}

impl<'a> File<'a> {
    /// One object, parsed where the table says it is.
    pub fn object(&self, number: u32) -> (r: Result<Object>)
        ensures
            match object_at(self.source(), self.rows(), number) {
                Ok((v, _)) => r matches Ok(o) && o.value() == v,
                Err(f) => r matches Err(e) && reports(f, e),
            },
            misplaced(self.source(), self.rows(), number) matches Some(found) ==> (r matches Err(
                PdfError::InvalidArgument(m)) && m@ == misplaced_text(number, found)),
    {
        let row = match find_row(&self.offsets, number) {
            Some(i) => i,
            None => {
                let mut m = String::from_str("no object ");
                crate::text::push_decimal(&mut m, number as u64);
                return Err(PdfError::InvalidArgument(m));
            },
        };
        let at = self.offsets[row].1;
        if at >= self.bytes.len() {
            return Err(about_object(number, " is past the end of the file"));
        }
        let mut lexer = Lexer::new(self.bytes, at);
        // `n g obj` — the header is checked rather than skipped, because an
        // offset that has drifted lands mid-object and would otherwise be read
        // as whatever it happened to hit.
        let found_text = lexer.token();
        let found = match parse_unsigned(found_text, 4294967295u64) {
            Some(v) => v,
            None => {
                return Err(about_object(number, " has no header where it should"));
            },
        };
        if found != number as u64 {
            let mut m = String::from_str("the table says object ");
            crate::text::push_decimal(&mut m, number as u64);
            m.append(" is where object ");
            crate::text::push_decimal(&mut m, found);
            m.append(" is");
            return Err(PdfError::InvalidArgument(m));
        }
        let _generation = lexer.token();
        let obj = bytes_obj();
        match lexer.expect(obj.as_slice()) {
            Ok(()) => {},
            Err(e) => {
                return Err(e);
            },
        }
        let r = lexer.object();
        r
    }

    /// Follow a reference, or return the object as it stands.
    pub fn resolve(&self, object: &Object) -> (r: Result<Object>)
        ensures
            match *object {
                Object::Reference(number, _) => match object_at(self.source(), self.rows(), number) {
                    Ok((v, _)) => r matches Ok(o) && o.value() == v,
                    Err(f) => r matches Err(e) && reports(f, e),
                },
                _ => r matches Ok(o) && o.value() == object.value(),
            },
    {
        match object {
            Object::Reference(number, _) => self.object(*number),
            other => Ok(other.duplicate()),
        }
    }
}


// ---------------------------------------------------------------------------
// Writing objects out.

/// The bytes an object is written as.
pub open spec fn written(v: Value) -> Seq<u8>
    decreases v,
{
    match v {
        Value::Null => seq![110u8, 117u8, 108u8, 108u8],
        Value::Bool(b) => if b { seq![116u8, 114u8, 117u8, 101u8] } else { seq![102u8, 97u8, 108u8, 115u8, 101u8] },
        Value::Number(raw) => raw,
        Value::Name(name) => seq![47u8] + name,
        Value::Literal(raw) => seq![40u8] + raw + seq![41u8],
        Value::Hex(raw) => seq![60u8] + raw + seq![62u8],
        Value::Reference(n, g) => crate::text::decimal_bytes(n as nat) + seq![32u8]
            + crate::text::decimal_bytes(g as nat) + seq![32u8, 82u8],
        Value::Array(items) => seq![91u8] + written_items(items) + seq![93u8],
        Value::Dict(entries) => seq![60u8, 60u8] + written_entries(entries) + seq![62u8, 62u8],
        Value::Stream(entries, _, _) => seq![60u8, 60u8] + written_entries(entries) + seq![62u8, 62u8],
    }
}

/// Items written one after another, a space between each two.
pub open spec fn written_items(items: Seq<Value>) -> Seq<u8>
    decreases items,
{
    if items.len() == 0 {
        Seq::empty()
    } else if items.len() == 1 {
        written(items[0])
    } else {
        written_items(items.drop_last()) + seq![32u8] + written(items.last())
    }
}

/// Entries written as `/key value`, one after another.
pub open spec fn written_entries(entries: Seq<(Seq<u8>, Value)>) -> Seq<u8>
    decreases entries,
{
    if entries.len() == 0 {
        Seq::empty()
    } else {
        written_entries(entries.drop_last()) + seq![47u8] + entries.last().0 + seq![32u8]
            + written(entries.last().1)
    }
}

fn extend_vec(out: &mut Vec<u8>, more: &Vec<u8>)
    ensures
        final(out)@ == old(out)@ + more@,
{
    crate::text::extend(out, more.as_slice());
}

/// Write an object out.
///
/// Only ever used for objects this module *makes* — a replacement, or the
/// trailer. Everything read from a file is copied rather than printed.
pub fn write_object(out: &mut Vec<u8>, object: &Object)
    ensures
        final(out)@ == old(out)@ + written(object.value()),
    decreases object,
{
    match object {
        Object::Null => {
            let w = vec![110u8, 117u8, 108u8, 108u8];
            extend_vec(out, &w);
            assert(out@ =~= old(out)@ + written(object.value()));
        },
        Object::Bool(b) => {
            if *b {
                let w = vec![116u8, 114u8, 117u8, 101u8];
                extend_vec(out, &w);
            } else {
                let w = vec![102u8, 97u8, 108u8, 115u8, 101u8];
                extend_vec(out, &w);
            }
            assert(out@ =~= old(out)@ + written(object.value()));
        },
        Object::Number(raw) => {
            extend_vec(out, raw);
        },
        Object::Name(name) => {
            out.push(47u8);
            extend_vec(out, name);
            assert(out@ =~= old(out)@ + written(object.value()));
        },
        Object::LiteralString(raw) => {
            out.push(40u8);
            extend_vec(out, raw);
            out.push(41u8);
            assert(out@ =~= old(out)@ + written(object.value()));
        },
        Object::HexString(raw) => {
            out.push(60u8);
            extend_vec(out, raw);
            out.push(62u8);
            assert(out@ =~= old(out)@ + written(object.value()));
        },
        Object::Reference(number, generation) => {
            crate::text::push_decimal_bytes(out, *number as u64);
            out.push(32u8);
            crate::text::push_decimal_bytes(out, *generation as u64);
            out.push(32u8);
            out.push(82u8);
            assert(out@ =~= old(out)@ + written(object.value()));
        },
        Object::Array(items) => {
            out.push(91u8);
            let ghost start = out@;
            let ghost values = object.value()->Array_0;
            let mut i: usize = 0;
            while i < items.len()
                invariant
                    *object == Object::Array(*items),
                    values == object.value()->Array_0,
                    values.len() == items@.len(),
                    forall|j: int| 0 <= j < items@.len() ==> #[trigger] values[j] == items@[j].value(),
                    i <= items@.len(),
                    out@ == start + written_items(values.subrange(0, i as int)),
                decreases items.len() - i,
            {
                if i > 0 {
                    out.push(32u8);
                }
                proof {
                    assert(decreases_to!(*object => object->Array_0));
                    assert(decreases_to!(object->Array_0 => object->Array_0[i as int])) by {
                        broadcast use vstd::std_specs::vec::axiom_vec_index_decreases;
                    }
                    assert(decreases_to!(*object => items[i as int]));
                }
                let ghost before = out@;
                write_object(out, &items[i]);
                proof {
                    let next = values.subrange(0, i + 1);
                    assert(next.drop_last() =~= values.subrange(0, i as int));
                    if i == 0 {
                        assert(out@ =~= start + written_items(next));
                    } else {
                        assert(out@ =~= start + written_items(next));
                    }
                }
                i = i + 1;
            }
            out.push(93u8);
            proof {
                assert(values.subrange(0, i as int) =~= values);
                assert(out@ =~= old(out)@ + written(object.value()));
            }
        },
        Object::Dict(dict) => {
            proof {
                assert(decreases_to!(*object => *dict));
            }
            write_dict(out, dict);
        },
        Object::Stream(dict, _) => {
            proof {
                assert(decreases_to!(*object => *dict));
            }
            write_dict(out, dict);
        },
    }
}

/// `<< /key value ... >>`.
fn write_dict(out: &mut Vec<u8>, dict: &Dict)
    ensures
        final(out)@ == old(out)@ + seq![60u8, 60u8] + written_entries(dict.entries()) + seq![62u8, 62u8],
    decreases dict,
{
    out.push(60u8);
    out.push(60u8);
    let ghost start = out@;
    let ghost entries = dict.entries();
    let mut i: usize = 0;
    while i < dict.0.len()
        invariant
            entries == dict.entries(),
            i <= dict.0@.len(),
            out@ == start + written_entries(entries.subrange(0, i as int)),
        decreases dict.0.len() - i,
    {
        out.push(47u8);
        extend_vec(out, &dict.0[i].0);
        out.push(32u8);
        proof {
            assert(decreases_to!(*dict => dict.0@[i as int].1));
        }
        write_object(out, &dict.0[i].1);
        proof {
            let next = entries.subrange(0, i + 1);
            assert(next.drop_last() =~= entries.subrange(0, i as int));
            assert(out@ =~= start + written_entries(next));
        }
        i = i + 1;
    }
    out.push(62u8);
    out.push(62u8);
    proof {
        assert(entries.subrange(0, i as int) =~= entries);
        assert(out@ =~= old(out)@ + seq![60u8, 60u8] + written_entries(dict.entries()) + seq![62u8, 62u8]);
    }
}


pub open spec fn word_stream_open() -> Seq<u8> {
    seq![10u8, 115u8, 116u8, 114u8, 101u8, 97u8, 109u8, 10u8]
}

pub open spec fn word_stream_close() -> Seq<u8> {
    seq![10u8, 101u8, 110u8, 100u8, 115u8, 116u8, 114u8, 101u8, 97u8, 109u8]
}

/// A stream object's bytes: its dictionary with `/Length` set to the data's
/// length, then the data between `stream` and `endstream`.
pub open spec fn stream_written(entries: Seq<(Seq<u8>, Value)>, data: Seq<u8>) -> Seq<u8> {
    written(Value::Dict(set_entry(entries, word_length(), Value::Number(crate::text::decimal_bytes(data.len())))))
        + word_stream_open() + data + word_stream_close()
}

/// A stream object's bytes, ready for [`File::rewrite`].
///
/// `/Length` is taken from the data rather than trusted from the dictionary:
/// the caller is handing over new data, and the old length would make the
/// file unreadable from that point on.
pub fn write_stream(dict: &Dict, data: &[u8]) -> (r: Vec<u8>)
    ensures
        r@ == stream_written(dict.entries(), data@),
{
    let ghost given = dict.entries();
    let mut dict = dict.duplicate();
    let mut length: Vec<u8> = Vec::new();
    crate::text::push_decimal_bytes(&mut length, data.len() as u64);
    let key = bytes_length();
    dict.set(key.as_slice(), Object::Number(length));
    let mut out: Vec<u8> = Vec::new();
    let whole = Object::Dict(dict);
    write_object(&mut out, &whole);
    let open = vec![10u8, 115u8, 116u8, 114u8, 101u8, 97u8, 109u8, 10u8];
    extend_vec(&mut out, &open);
    crate::text::extend(&mut out, data);
    let close = vec![10u8, 101u8, 110u8, 100u8, 115u8, 116u8, 114u8, 101u8, 97u8, 109u8];
    extend_vec(&mut out, &close);
    proof {
        assert(open@ =~= word_stream_open());
        assert(close@ =~= word_stream_close());
        assert(out@ =~= stream_written(given, data@));
    }
    out
}


// ---------------------------------------------------------------------------
// Rewriting the whole file.

pub open spec fn word_endobj() -> Seq<u8> { seq![101u8, 110u8, 100u8, 111u8, 98u8, 106u8] }
pub open spec fn word_size() -> Seq<u8> { seq![83u8, 105u8, 122u8, 101u8] }
pub open spec fn word_xrefstm() -> Seq<u8> { seq![88u8, 82u8, 101u8, 102u8, 83u8, 116u8, 109u8] }

/// Where the header ends: after the version line, and after the binary
/// comment on the line after it when there is one.
pub open spec fn header_end(s: Seq<u8>) -> int {
    let h = match byte_from(s, 10, 0) { Some(i) => i + 1, None => 0 };
    if h < s.len() && s[h] == 37 {
        match byte_from(s, 10, h) { Some(j) => j + 1, None => h }
    } else {
        h
    }
}

/// Where one object's own bytes end, from its `n g obj` at `at` to its
/// `endobj`: parsing is how the end is found, since a stream's length is in
/// its own dictionary.
pub open spec fn span_end(s: Seq<u8>, at: int) -> core::result::Result<int, Failure> {
    let e2 = token_at(s, token_at(s, at).1).1;
    let (keyword, e3) = token_at(s, e2);
    if at > s.len() {
        Err(Failure::Malformed)
    } else if keyword != word_obj() {
        Err(Failure::Malformed)
    } else {
        match parse_object(s, e3) {
            Err(f) => Err(f),
            Ok((_, e4)) => {
                let q = skip(s, e4);
                Ok(if occurs_at(s, word_endobj(), q) { q + 6 } else { q })
            },
        }
    }
}

/// `n 0 obj`, the body, `endobj`.
pub open spec fn piece(number: u32, body: Seq<u8>) -> Seq<u8> {
    crate::text::decimal_bytes(number as nat) + seq![32u8, 48u8, 32u8, 111u8, 98u8, 106u8, 10u8] + body
        + seq![10u8, 101u8, 110u8, 100u8, 111u8, 98u8, 106u8, 10u8]
}

/// Numbered bodies as values.
pub open spec fn bodies(v: Seq<(u32, Vec<u8>)>) -> Seq<(u32, Seq<u8>)> {
    v.map_values(|e: (u32, Vec<u8>)| (e.0, e.1@))
}

/// The first replacement for `number`.
pub open spec fn replacement(reps: Seq<(u32, Seq<u8>)>, number: u32, from: int) -> Option<Seq<u8>>
    decreases reps.len() - from,
{
    if from < 0 || from >= reps.len() {
        None
    } else if reps[from].0 == number {
        Some(reps[from].1)
    } else {
        replacement(reps, number, from + 1)
    }
}

/// Bytes with a newline after them unless they already end in one.
pub open spec fn ending_line(out: Seq<u8>) -> Seq<u8> {
    if out.len() > 0 && out.last() == 10 { out } else { out.push(10) }
}

/// The objects from row `i` on: dropped ones left out, replaced ones written
/// from their new bodies, every other one copied byte for byte; with where
/// each was written.
pub open spec fn copy_objects(
    s: Seq<u8>,
    rows: Seq<(u32, usize)>,
    drop: Seq<u32>,
    reps: Seq<(u32, Seq<u8>)>,
    i: int,
    out: Seq<u8>,
    written: Seq<(u32, usize)>,
) -> core::result::Result<(Seq<u8>, Seq<(u32, usize)>), Failure>
    decreases rows.len() - i,
{
    if i < 0 || i >= rows.len() {
        Ok((out, written))
    } else {
        let (number, at) = rows[i];
        if drop.contains(number) {
            copy_objects(s, rows, drop, reps, i + 1, out, written)
        } else {
            let w = row_put(written, number, out.len() as usize, true);
            match replacement(reps, number, 0) {
                Some(body) => copy_objects(s, rows, drop, reps, i + 1, out + piece(number, body), w),
                None => match span_end(s, at as int) {
                    Err(f) => Err(f),
                    Ok(end) => copy_objects(s, rows, drop, reps, i + 1,
                        ending_line(out + s.subrange(at as int, end)), w),
                },
            }
        }
    }
}

/// The added objects from `i` on, and where each was written.
pub open spec fn add_objects(extra: Seq<(u32, Seq<u8>)>, i: int, out: Seq<u8>, written: Seq<(u32, usize)>)
    -> (Seq<u8>, Seq<(u32, usize)>)
    decreases extra.len() - i,
{
    if i < 0 || i >= extra.len() {
        (out, written)
    } else {
        add_objects(extra, i + 1, out + piece(extra[i].0, extra[i].1),
            row_put(written, extra[i].0, out.len() as usize, true))
    }
}

/// The highest number written, or zero.
pub open spec fn highest(written: Seq<(u32, usize)>) -> nat {
    if written.len() == 0 { 0 } else { written.last().0 as nat }
}

/// Ten digits, zero-padded on the left.
pub open spec fn padded(digits: Seq<u8>) -> Seq<u8> {
    if digits.len() < 10 { Seq::new((10 - digits.len()) as nat, |i: int| 48u8) + digits } else { digits }
}

pub open spec fn free_line() -> Seq<u8> {
    seq![48u8, 48u8, 48u8, 48u8, 48u8, 48u8, 48u8, 48u8, 48u8, 48u8, 32u8, 54u8, 53u8, 53u8, 51u8, 53u8,
        32u8, 102u8, 32u8, 10u8]
}

pub open spec fn in_use_tail() -> Seq<u8> {
    seq![32u8, 48u8, 48u8, 48u8, 48u8, 48u8, 32u8, 110u8, 32u8, 10u8]
}

/// The table's line for `number`: where it was written, or free when it was
/// not, so nothing can follow it to an offset that means nothing.
pub open spec fn table_line(written: Seq<(u32, usize)>, number: nat) -> Seq<u8> {
    match row_of(written, number as u32) {
        Some(i) => padded(crate::text::decimal_bytes(written[i].1 as nat)) + in_use_tail(),
        None => free_line(),
    }
}

/// The lines for 1 to `k`.
pub open spec fn table_lines(written: Seq<(u32, usize)>, k: nat) -> Seq<u8>
    decreases k,
{
    if k == 0 { Seq::empty() } else { table_lines(written, (k - 1) as nat) + table_line(written, k) }
}

/// One subsection covering everything, which is legal and simpler than
/// reproducing however many the original happened to have.
pub open spec fn xref_table(written: Seq<(u32, usize)>) -> Seq<u8> {
    seq![120u8, 114u8, 101u8, 102u8, 10u8, 48u8, 32u8] + crate::text::decimal_bytes(highest(written) + 1)
        + seq![10u8] + free_line() + table_lines(written, highest(written))
}

/// A trailer edit: `Null` says to take the key out rather than to write it as
/// null; anything else is set.
pub open spec fn edited(t: Seq<(Seq<u8>, Value)>, edits: Seq<(Seq<u8>, Value)>) -> Seq<(Seq<u8>, Value)>
    decreases edits.len(),
{
    if edits.len() == 0 {
        t
    } else {
        let before = edited(t, edits.drop_last());
        let (key, value) = edits.last();
        if value is Null { remove_entry(before, key) } else { set_entry(before, key, value) }
    }
}

/// The new trailer: its size, no `/Prev` or `/XRefStm` (there is one table
/// now), and the edits asked for.
pub open spec fn new_trailer(t: Seq<(Seq<u8>, Value)>, size: nat, edits: Seq<(Seq<u8>, Value)>)
    -> Seq<(Seq<u8>, Value)>
{
    edited(
        remove_entry(remove_entry(set_entry(t, word_size(), Value::Number(crate::text::decimal_bytes(size))),
            word_prev()), word_xrefstm()),
        edits,
    )
}

pub open spec fn startxref_line() -> Seq<u8> {
    seq![10u8, 115u8, 116u8, 97u8, 114u8, 116u8, 120u8, 114u8, 101u8, 102u8, 10u8]
}

pub open spec fn eof_line() -> Seq<u8> {
    seq![10u8, 37u8, 37u8, 69u8, 79u8, 70u8]
}

pub open spec fn trailer_line() -> Seq<u8> {
    seq![116u8, 114u8, 97u8, 105u8, 108u8, 101u8, 114u8, 10u8]
}

/// Whether `b` is what a rewrite writes for object `k`: a new body under
/// a header naming `k`, or the object's own bytes copied from where the old
/// table put it.
pub open spec fn written_for(s: Seq<u8>, rows: Seq<(u32, usize)>, k: u32, b: Seq<u8>) -> bool {
    ||| exists|body: Seq<u8>| b == piece(k, body)
    ||| exists|i: int| 0 <= i < rows.len() && rows[i].0 == k
        && (#[trigger] span_end(s, rows[i].1 as int) matches Ok(end) && b == s.subrange(rows[i].1 as int, end))
}

/// Whether a table row points at what was written for its object.
pub open spec fn placed_at(s: Seq<u8>, rows: Seq<(u32, usize)>, out: Seq<u8>, e: (u32, usize)) -> bool {
    exists|b: Seq<u8>| e.1 + b.len() <= out.len() && #[trigger] out.subrange(e.1 as int, e.1 + b.len()) == b
        && written_for(s, rows, e.0, b)
}

proof fn lemma_placed_extends(s: Seq<u8>, rows: Seq<(u32, usize)>, out: Seq<u8>, more: Seq<u8>, e: (u32, usize))
    requires
        placed_at(s, rows, out, e),
        more.len() >= out.len(),
        more.subrange(0, out.len() as int) == out,
    ensures
        placed_at(s, rows, more, e),
{
    let b = choose|b: Seq<u8>| e.1 + b.len() <= out.len() && #[trigger] out.subrange(e.1 as int, e.1 + b.len()) == b
        && written_for(s, rows, e.0, b);
    assert(more.subrange(e.1 as int, e.1 + b.len()) =~= out.subrange(e.1 as int, e.1 + b.len()));
}

proof fn lemma_row_put_members(w: Seq<(u32, usize)>, k: u32, v: usize, e: (u32, usize))
    requires
        row_put(w, k, v, true).contains(e),
    ensures
        e == (k, v) || w.contains(e),
{
    let i = slot(w, k, 0);
    lemma_slot_bounds(w, k, 0);
    let r = row_put(w, k, v, true);
    let j = choose|j: int| 0 <= j < r.len() && r[j] == e;
    if i < w.len() && w[i].0 == k {
        if j != i { assert(w[j] == e); }
    } else {
        if j < i { assert(w[j] == e); } else if j > i { assert(w[j - 1] == e); }
    }
}

/// What copying writes only ever grows the output: what was there stays.
proof fn lemma_copy_extends(s: Seq<u8>, rows: Seq<(u32, usize)>, drop: Seq<u32>, reps: Seq<(u32, Seq<u8>)>, i: int,
    out: Seq<u8>, written: Seq<(u32, usize)>)
    ensures
        copy_objects(s, rows, drop, reps, i, out, written) matches Ok((o, w)) ==> out.len() <= o.len()
            && o.subrange(0, out.len() as int) == out,
    decreases rows.len() - i,
{
    if i < 0 || i >= rows.len() {
        assert(out.subrange(0, out.len() as int) =~= out);
    } else {
        let (number, at) = rows[i];
        if drop.contains(number) {
            lemma_copy_extends(s, rows, drop, reps, i + 1, out, written);
        } else {
            let w = row_put(written, number, out.len() as usize, true);
            match replacement(reps, number, 0) {
                Some(body) => {
                    let o1 = out + piece(number, body);
                    lemma_copy_extends(s, rows, drop, reps, i + 1, o1, w);
                    assert(o1.subrange(0, out.len() as int) =~= out);
                    if let Ok((o, _)) = copy_objects(s, rows, drop, reps, i, out, written) {
                        assert(o.subrange(0, out.len() as int) =~= o.subrange(0, o1.len() as int).subrange(0, out.len() as int));
                    }
                },
                None => match span_end(s, at as int) {
                    Err(_) => {},
                    Ok(end) => {
                        let o1 = ending_line(out + s.subrange(at as int, end));
                        lemma_copy_extends(s, rows, drop, reps, i + 1, o1, w);
                        assert(o1.subrange(0, out.len() as int) =~= out);
                        if let Ok((o, _)) = copy_objects(s, rows, drop, reps, i, out, written) {
                            assert(o.subrange(0, out.len() as int) =~= o.subrange(0, o1.len() as int).subrange(0, out.len() as int));
                        }
                    },
                },
            }
        }
    }
}

proof fn lemma_copy_places(s: Seq<u8>, rows: Seq<(u32, usize)>, drop: Seq<u32>, reps: Seq<(u32, Seq<u8>)>, i: int,
    out: Seq<u8>, written: Seq<(u32, usize)>)
    requires
        forall|e: (u32, usize)| written.contains(e) ==> placed_at(s, rows, out, e),
    ensures
        copy_objects(s, rows, drop, reps, i, out, written) matches Ok((o, w)) ==> (o.len() <= usize::MAX
            ==> forall|e: (u32, usize)| w.contains(e) ==> placed_at(s, rows, o, e)),
    decreases rows.len() - i,
{
    if i < 0 || i >= rows.len() {
    } else {
        let (number, at) = rows[i];
        if drop.contains(number) {
            lemma_copy_places(s, rows, drop, reps, i + 1, out, written);
        } else {
            let w = row_put(written, number, out.len() as usize, true);
            let next = match replacement(reps, number, 0) {
                Some(body) => Some(out + piece(number, body)),
                None => match span_end(s, at as int) {
                    Err(_) => None,
                    Ok(end) => Some(ending_line(out + s.subrange(at as int, end))),
                },
            };
            if let Some(o1) = next {
                let b = if let Some(body) = replacement(reps, number, 0) { piece(number, body) } else {
                    s.subrange(at as int, span_end(s, at as int)->Ok_0) };
                assert(o1.subrange(0, out.len() as int) =~= out);
                assert(o1.subrange(out.len() as int, (out.len() + b.len()) as int) =~= b);
                if let Some(body) = replacement(reps, number, 0) {
                    assert(written_for(s, rows, number, b));
                } else {
                    assert(span_end(s, rows[i].1 as int) matches Ok(end) && b == s.subrange(rows[i].1 as int, end));
                    assert(written_for(s, rows, number, b));
                }
                lemma_copy_extends(s, rows, drop, reps, i + 1, o1, w);
                match copy_objects(s, rows, drop, reps, i, out, written) {
                    Ok((o, wf)) => {
                        if o.len() <= usize::MAX {
                            let e0 = (number, out.len() as usize);
                            assert(e0.1 as int == out.len());
                            assert(e0.1 + b.len() <= o1.len());
                            assert(o1.subrange(e0.1 as int, e0.1 + b.len()) == b);
                            assert(written_for(s, rows, e0.0, b));
                            assert(placed_at(s, rows, o1, e0));
                            assert forall|e: (u32, usize)| w.contains(e) implies placed_at(s, rows, o1, e) by {
                                lemma_row_put_members(written, number, out.len() as usize, e);
                                if e != (number, out.len() as usize) {
                                    lemma_placed_extends(s, rows, out, o1, e);
                                }
                            }
                            lemma_copy_places(s, rows, drop, reps, i + 1, o1, w);
                        }
                    },
                    Err(_) => {},
                }
            }
        }
    }
}

/// What adding writes only ever grows the output: what was there stays.
proof fn lemma_add_extends(extra: Seq<(u32, Seq<u8>)>, i: int, out: Seq<u8>, written: Seq<(u32, usize)>)
    ensures
        out.len() <= add_objects(extra, i, out, written).0.len(),
        add_objects(extra, i, out, written).0.subrange(0, out.len() as int) == out,
    decreases extra.len() - i,
{
    if i < 0 || i >= extra.len() {
        assert(out.subrange(0, out.len() as int) =~= out);
    } else {
        let o1 = out + piece(extra[i].0, extra[i].1);
        let w = row_put(written, extra[i].0, out.len() as usize, true);
        lemma_add_extends(extra, i + 1, o1, w);
        let o = add_objects(extra, i, out, written).0;
        assert(o1.subrange(0, out.len() as int) =~= out);
        assert(o.subrange(0, out.len() as int) =~= o.subrange(0, o1.len() as int).subrange(0, out.len() as int));
    }
}

proof fn lemma_add_places(s: Seq<u8>, rows: Seq<(u32, usize)>, extra: Seq<(u32, Seq<u8>)>, i: int, out: Seq<u8>,
    written: Seq<(u32, usize)>)
    requires
        forall|e: (u32, usize)| written.contains(e) ==> placed_at(s, rows, out, e),
        add_objects(extra, i, out, written).0.len() <= usize::MAX,
    ensures
        forall|e: (u32, usize)| add_objects(extra, i, out, written).1.contains(e)
            ==> placed_at(s, rows, add_objects(extra, i, out, written).0, e),
    decreases extra.len() - i,
{
    if i < 0 || i >= extra.len() {
    } else {
        let b = piece(extra[i].0, extra[i].1);
        let o1 = out + b;
        let e0 = (extra[i].0, out.len() as usize);
        let w = row_put(written, extra[i].0, out.len() as usize, true);
        lemma_add_extends(extra, i + 1, o1, w);
        assert(e0.1 as int == out.len());
        assert(o1.subrange(e0.1 as int, e0.1 + b.len()) =~= b);
        assert(written_for(s, rows, e0.0, b));
        assert(placed_at(s, rows, o1, e0));
        assert forall|e: (u32, usize)| w.contains(e) implies placed_at(s, rows, o1, e) by {
            lemma_row_put_members(written, extra[i].0, out.len() as usize, e);
            if e != e0 {
                assert(o1.subrange(0, out.len() as int) =~= out);
                lemma_placed_extends(s, rows, out, o1, e);
            }
        }
        lemma_add_places(s, rows, extra, i + 1, o1, w);
    }
}

/// Every row of the table a rewrite writes points at what it wrote for that
/// object — a new body under a header naming it, or the object's own bytes
/// copied from where the old table put them — at the very offset the row
/// gives.
pub proof fn law_every_row_points_at_its_object(s: Seq<u8>, rows: Seq<(u32, usize)>, trailer: Seq<(Seq<u8>, Value)>,
    reps: Seq<(u32, Seq<u8>)>, extra: Seq<(u32, Seq<u8>)>, edits: Seq<(Seq<u8>, Value)>, drop: Seq<u32>)
    requires
        rewritten(s, rows, trailer, reps, extra, edits, drop) matches Ok(out) && out.len() <= usize::MAX,
    ensures
        ({
            let out = rewritten(s, rows, trailer, reps, extra, edits, drop)->Ok_0;
            exists|front: Seq<u8>, table: Seq<(u32, usize)>, back: Seq<u8>| {
                &&& out == front + xref_table(table) + back
                &&& forall|e: (u32, usize)| table.contains(e) ==> placed_at(s, rows, out, e)
            }
        }),
{
    let start = s.subrange(0, header_end(s));
    let (o1, w1) = copy_objects(s, rows, drop, reps, 0, start, Seq::empty())->Ok_0;
    let (o2, w2) = add_objects(extra, 0, o1, w1);
    let out = rewritten(s, rows, trailer, reps, extra, edits, drop)->Ok_0;
    let t = new_trailer(trailer, highest(w2) + 1, edits);
    let back = trailer_line() + written(Value::Dict(t)) + startxref_line() + crate::text::decimal_bytes(o2.len())
        + eof_line();
    assert(out == o2 + xref_table(w2) + back) by {
        assert(out =~= o2 + xref_table(w2) + back);
    }
    lemma_add_extends(extra, 0, o1, w1);
    assert(o2.len() <= out.len());
    assert(o1.len() <= usize::MAX);
    lemma_copy_places(s, rows, drop, reps, 0, start, Seq::empty());
    lemma_add_places(s, rows, extra, 0, o1, w1);
    assert forall|e: (u32, usize)| w2.contains(e) implies placed_at(s, rows, out, e) by {
        assert(out.subrange(0, o2.len() as int) =~= o2);
        lemma_placed_extends(s, rows, o2, out, e);
    }
}

/// The whole rewritten file.
pub open spec fn rewritten(
    s: Seq<u8>,
    rows: Seq<(u32, usize)>,
    trailer: Seq<(Seq<u8>, Value)>,
    reps: Seq<(u32, Seq<u8>)>,
    extra: Seq<(u32, Seq<u8>)>,
    edits: Seq<(Seq<u8>, Value)>,
    drop: Seq<u32>,
) -> core::result::Result<Seq<u8>, Failure> {
    match copy_objects(s, rows, drop, reps, 0, s.subrange(0, header_end(s)), Seq::empty()) {
        Err(f) => Err(f),
        Ok((out1, w1)) => {
            let (out2, w2) = add_objects(extra, 0, out1, w1);
            let t = new_trailer(trailer, highest(w2) + 1, edits);
            Ok(out2 + xref_table(w2) + trailer_line() + written(Value::Dict(t)) + startxref_line()
                + crate::text::decimal_bytes(out2.len()) + eof_line())
        },
    }
}



fn header_end_of(bytes: &[u8]) -> (r: usize)
    ensures
        r as int == header_end(bytes@),
        r <= bytes@.len(),
{
    let n = bytes.len();
    let mut i: usize = 0;
    while i < n && bytes[i] != 10
        invariant
            i <= n,
            n == bytes@.len(),
            byte_from(bytes@, 10, i as int) == byte_from(bytes@, 10, 0),
        decreases n - i,
    {
        i = i + 1;
    }
    let h: usize = if i < n { i + 1 } else { 0 };
    if h < n && bytes[h] == 37 {
        let mut j: usize = h;
        while j < n && bytes[j] != 10
            invariant
                h <= j <= n,
                n == bytes@.len(),
                byte_from(bytes@, 10, j as int) == byte_from(bytes@, 10, h as int),
            decreases n - j,
        {
            j = j + 1;
        }
        if j < n { j + 1 } else { h }
    } else {
        h
    }
}

fn bytes_endobj() -> (r: Vec<u8>)
    ensures
        r@ == word_endobj(),
{
    let r = vec![101u8, 110u8, 100u8, 111u8, 98u8, 106u8];
    assert(r@ =~= word_endobj());
    r
}

/// Where the object whose `n g obj` is at `at` ends; an offset past the end
/// of the file has no object.
fn span_at(bytes: &[u8], at: usize) -> (r: Result<usize>)
    ensures
        match span_end(bytes@, at as int) {
            Ok(e) => r matches Ok(v) && v == e && at <= e <= bytes@.len(),
            Err(f) => r matches Err(e) && reports(f, e),
        },
{
    let ghost s = bytes@;
    let n = bytes.len();
    if at > n {
        return Err(malformed("an object is past the end of the file"));
    }
    let mut lexer = Lexer::new(bytes, at);
    let _number = lexer.token();
    let _generation = lexer.token();
    let obj = bytes_obj();
    match lexer.expect(obj.as_slice()) {
        Ok(()) => {},
        Err(e) => {
            return Err(e);
        },
    }
    match lexer.object() {
        Ok(_) => {},
        Err(e) => {
            return Err(e);
        },
    }
    let ghost e4 = lexer.at as int;
    lexer.skip_space();
    proof {
        crate::pdf::object::lemma_space_end_bounds(s, e4, false);
    }
    let endobj = bytes_endobj();
    if crate::text::bytes_at(bytes, endobj.as_slice(), lexer.at) {
        assert(endobj@.len() == 6);
        lexer.at = lexer.at + 6;
    }
    Ok(lexer.at)
}

/// Where the first replacement for `number` is.
fn replacement_index(reps: &[(u32, Vec<u8>)], number: u32) -> (r: Option<usize>)
    ensures
        match replacement(bodies(reps@), number, 0) {
            Some(b) => r matches Some(i) && i < reps@.len() && reps@[i as int].1@ == b,
            None => r is None,
        },
{
    let ghost b = bodies(reps@);
    let mut i: usize = 0;
    while i < reps.len()
        invariant
            i <= reps@.len(),
            b == bodies(reps@),
            replacement(b, number, i as int) == replacement(b, number, 0),
        decreases reps.len() - i,
    {
        if reps[i].0 == number {
            return Some(i);
        }
        i = i + 1;
    }
    None
}

/// Whether `number` is among `drop`.
fn dropped(drop: &[u32], number: u32) -> (r: bool)
    ensures
        r == drop@.contains(number),
{
    let mut i: usize = 0;
    while i < drop.len()
        invariant
            i <= drop@.len(),
            forall|j: int| 0 <= j < i ==> drop@[j] != number,
        decreases drop.len() - i,
    {
        if drop[i] == number {
            return true;
        }
        i = i + 1;
    }
    false
}

fn push_piece(out: &mut Vec<u8>, number: u32, body: &Vec<u8>)
    ensures
        final(out)@ == old(out)@ + piece(number, body@),
{
    crate::text::push_decimal_bytes(out, number as u64);
    let head = vec![32u8, 48u8, 32u8, 111u8, 98u8, 106u8, 10u8];
    extend_vec(out, &head);
    extend_vec(out, body);
    let tail = vec![10u8, 101u8, 110u8, 100u8, 111u8, 98u8, 106u8, 10u8];
    extend_vec(out, &tail);
    proof {
        assert(out@ =~= old(out)@ + piece(number, body@));
    }
}

fn push_bytes(out: &mut Vec<u8>, more: Vec<u8>)
    ensures
        final(out)@ == old(out)@ + more@,
{
    extend_vec(out, &more);
}

fn push_table_line(out: &mut Vec<u8>, written: &Vec<(u32, usize)>, number: u32)
    ensures
        final(out)@ == old(out)@ + table_line(written@, number as nat),
{
    match find_row(written, number) {
        Some(i) => {
            let mut digits: Vec<u8> = Vec::new();
            crate::text::push_decimal_bytes(&mut digits, written[i].1 as u64);
            let ghost d = digits@;
            let mut padding: Vec<u8> = Vec::new();
            if digits.len() < 10 {
                let mut k: usize = 0;
                while k < 10 - digits.len()
                    invariant
                        digits@.len() < 10,
                        k <= 10 - digits@.len(),
                        padding@ == Seq::new(k as nat, |i: int| 48u8),
                    decreases 10 - digits.len() - k,
                {
                    padding.push(48u8);
                    k = k + 1;
                    proof {
                        assert(padding@ =~= Seq::new(k as nat, |i: int| 48u8));
                    }
                }
            }
            extend_vec(out, &padding);
            extend_vec(out, &digits);
            let tail = vec![32u8, 48u8, 48u8, 48u8, 48u8, 48u8, 32u8, 110u8, 32u8, 10u8];
            extend_vec(out, &tail);
            proof {
                assert(tail@ =~= in_use_tail());
                if d.len() >= 10 {
                    assert(padding@ =~= Seq::<u8>::empty());
                }
                assert(out@ =~= old(out)@ + table_line(written@, number as nat));
            }
        },
        None => {
            let line = vec![48u8, 48u8, 48u8, 48u8, 48u8, 48u8, 48u8, 48u8, 48u8, 48u8, 32u8, 54u8, 53u8, 53u8,
                51u8, 53u8, 32u8, 102u8, 32u8, 10u8];
            proof {
                assert(line@ =~= free_line());
            }
            extend_vec(out, &line);
        },
    }
}


fn bytes_size() -> (r: Vec<u8>)
    ensures
        r@ == word_size(),
{
    let r = vec![83u8, 105u8, 122u8, 101u8];
    assert(r@ =~= word_size());
    r
}

fn bytes_xrefstm() -> (r: Vec<u8>)
    ensures
        r@ == word_xrefstm(),
{
    let r = vec![88u8, 82u8, 101u8, 102u8, 83u8, 116u8, 109u8];
    assert(r@ =~= word_xrefstm());
    r
}

/// The trailer with its size set, the old chain's pointers gone, and the
/// edits asked for.
fn make_trailer(trailer: &Dict, size: u64, edits: &Dict) -> (r: Dict)
    ensures
        r.entries() == new_trailer(trailer.entries(), size as nat, edits.entries()),
{
    let mut t = trailer.duplicate();
    let mut number: Vec<u8> = Vec::new();
    crate::text::push_decimal_bytes(&mut number, size);
    let size_word = bytes_size();
    t.set(size_word.as_slice(), Object::Number(number));
    // `/Prev` named a table in the file this was read from, and there is
    // only one table now.
    let prev_word = bytes_prev();
    t.remove(prev_word.as_slice());
    let stm_word = bytes_xrefstm();
    t.remove(stm_word.as_slice());
    let ghost base = t.entries();
    let mut i: usize = 0;
    while i < edits.0.len()
        invariant
            i <= edits.0@.len(),
            t.entries() == edited(base, edits.entries().subrange(0, i as int)),
        decreases edits.0.len() - i,
    {
        let ghost before = t.entries();
        proof {
            assert(edits.entries().subrange(0, i + 1).drop_last() =~= edits.entries().subrange(0, i as int));
        }
        let key = &edits.0[i].0;
        match &edits.0[i].1 {
            Object::Null => {
                t.remove(key.as_slice());
            },
            other => {
                t.set(key.as_slice(), other.duplicate());
            },
        }
        i = i + 1;
    }
    proof {
        assert(edits.entries().subrange(0, i as int) =~= edits.entries());
    }
    t
}

impl<'a> File<'a> {
    /// Write the file out with some objects replaced.
    ///
    /// **Every other object is copied through byte for byte**, from its own
    /// `n g obj` to its `endobj`, rather than being parsed and printed again.
    pub fn rewrite(&self, replacements: &[(u32, Vec<u8>)]) -> (r: Result<Vec<u8>>)
        ensures
            match rewritten(self.source(), self.rows(), self.trailer_entries(), bodies(replacements@),
                Seq::empty(), Seq::empty(), Seq::empty()) {
                Ok(b) => r matches Ok(v) && v@ == b,
                Err(f) => r matches Err(e) && reports(f, e),
            },
    {
        let none: Vec<(u32, Vec<u8>)> = Vec::new();
        let edits = Dict(Vec::new());
        let keep: Vec<u32> = Vec::new();
        proof {
            assert(bodies(none@) =~= Seq::<(u32, Seq<u8>)>::empty());
            assert(edits.entries() =~= Seq::<(Seq<u8>, Value)>::empty());
        }
        self.rewrite_dropping(replacements, none.as_slice(), &edits, keep.as_slice())
    }

    /// The general form: replace objects, add new ones, and change the trailer.
    pub fn rewrite_adding(
        &self,
        replacements: &[(u32, Vec<u8>)],
        extra: &[(u32, Vec<u8>)],
        trailer_edits: &Dict,
    ) -> (r: Result<Vec<u8>>)
        ensures
            match rewritten(self.source(), self.rows(), self.trailer_entries(), bodies(replacements@),
                bodies(extra@), trailer_edits.entries(), Seq::empty()) {
                Ok(b) => r matches Ok(v) && v@ == b,
                Err(f) => r matches Err(e) && reports(f, e),
            },
    {
        let keep: Vec<u32> = Vec::new();
        self.rewrite_dropping(replacements, extra, trailer_edits, keep.as_slice())
    }

    /// The fullest form: also leave some objects out altogether, written as
    /// **free** entries so nothing can follow them to an offset that no longer
    /// means anything.
    pub fn rewrite_dropping(
        &self,
        replacements: &[(u32, Vec<u8>)],
        extra: &[(u32, Vec<u8>)],
        trailer_edits: &Dict,
        drop: &[u32],
    ) -> (r: Result<Vec<u8>>)
        ensures
            match rewritten(self.source(), self.rows(), self.trailer_entries(), bodies(replacements@),
                bodies(extra@), trailer_edits.entries(), drop@) {
                Ok(b) => r matches Ok(v) && v@ == b,
                Err(f) => r matches Err(e) && reports(f, e),
            },
    {
        let ghost s = self.bytes@;
        let ghost rows = self.offsets@;
        let ghost reps = bodies(replacements@);
        let n = self.bytes.len();
        // The header, and the binary comment after it that marks the file as
        // not-text, copied so a reader that sniffed one goes on seeing it.
        let head_len = header_end_of(self.bytes);
        let mut out: Vec<u8> = vstd::slice::slice_to_vec(vstd::slice::slice_subrange(self.bytes, 0, head_len));
        let mut written: Vec<(u32, usize)> = Vec::new();
        proof {
            assert(written@ =~= Seq::<(u32, usize)>::empty());
        }
        let ghost target = copy_objects(s, rows, drop@, reps, 0, out@, written@);
        let mut i: usize = 0;
        while i < self.offsets.len()
            invariant
                s == self.bytes@,
                rows == self.offsets@,
                reps == bodies(replacements@),
                n == s.len(),
                i <= rows.len(),
                target == copy_objects(s, rows, drop@, reps, 0, s.subrange(0, header_end(s)), Seq::empty()),
                copy_objects(s, rows, drop@, reps, i as int, out@, written@) == target,
            decreases self.offsets.len() - i,
        {
            let (number, at) = self.offsets[i];
            if dropped(drop, number) {
                i = i + 1;
                continue;
            }
            let position = out.len();
            put_row(&mut written, number, position, true);
            match replacement_index(replacements, number) {
                Some(k) => {
                    push_piece(&mut out, number, &replacements[k].1);
                },
                None => {
                    let end = match span_at(self.bytes, at) {
                        Ok(e) => e,
                        Err(e) => {
                            return Err(e);
                        },
                    };
                    let copied = vstd::slice::slice_subrange(self.bytes, at, end);
                    crate::text::extend(&mut out, copied);
                    let last_is_newline = out.len() > 0 && out[out.len() - 1] == 10;
                    if !last_is_newline {
                        out.push(10u8);
                    }
                },
            }
            i = i + 1;
        }
        proof {
            assert(target == Ok::<(Seq<u8>, Seq<(u32, usize)>), Failure>((out@, written@)));
        }
        let ghost out1 = out@;
        let ghost w1 = written@;
        let ghost xs = bodies(extra@);
        let mut j: usize = 0;
        while j < extra.len()
            invariant
                xs == bodies(extra@),
                j <= extra@.len(),
                add_objects(xs, j as int, out@, written@) == add_objects(xs, 0, out1, w1),
            decreases extra.len() - j,
        {
            let number = extra[j].0;
            let position = out.len();
            put_row(&mut written, number, position, true);
            push_piece(&mut out, number, &extra[j].1);
            j = j + 1;
        }
        // One subsection covering everything.
        let highest: u64 = if written.len() == 0 { 0 } else { written[written.len() - 1].0 as u64 };
        let xref_at = out.len();
        let ghost before_table = out@;
        let head = vec![120u8, 114u8, 101u8, 102u8, 10u8, 48u8, 32u8];
        extend_vec(&mut out, &head);
        crate::text::push_decimal_bytes(&mut out, highest + 1);
        out.push(10u8);
        let free = vec![48u8, 48u8, 48u8, 48u8, 48u8, 48u8, 48u8, 48u8, 48u8, 48u8, 32u8, 54u8, 53u8, 53u8,
            51u8, 53u8, 32u8, 102u8, 32u8, 10u8];
        extend_vec(&mut out, &free);
        proof {
            assert(head@ =~= seq![120u8, 114u8, 101u8, 102u8, 10u8, 48u8, 32u8]);
            assert(free@ =~= free_line());
        }
        let ghost table_base = out@;
        let mut number: u64 = 1;
        while number <= highest
            invariant
                1 <= number <= highest + 1,
                highest <= u32::MAX,
                out@ == table_base + table_lines(written@, (number - 1) as nat),
            decreases highest + 1 - number,
        {
            push_table_line(&mut out, &written, number as u32);
            proof {
                assert(out@ =~= table_base + table_lines(written@, number as nat));
            }
            number = number + 1;
        }
        proof {
            assert(out@ =~= before_table + xref_table(written@));
        }
        let trailer = make_trailer(&self.trailer, highest + 1, trailer_edits);
        let trailer_word = vec![116u8, 114u8, 97u8, 105u8, 108u8, 101u8, 114u8, 10u8];
        extend_vec(&mut out, &trailer_word);
        let whole = Object::Dict(trailer);
        write_object(&mut out, &whole);
        let startxref_word = vec![10u8, 115u8, 116u8, 97u8, 114u8, 116u8, 120u8, 114u8, 101u8, 102u8, 10u8];
        extend_vec(&mut out, &startxref_word);
        crate::text::push_decimal_bytes(&mut out, xref_at as u64);
        let eof = vec![10u8, 37u8, 37u8, 69u8, 79u8, 70u8];
        extend_vec(&mut out, &eof);
        proof {
            assert(trailer_word@ =~= trailer_line());
            assert(startxref_word@ =~= startxref_line());
            assert(eof@ =~= eof_line());
        }
        Ok(out)
    }
}


// ---------------------------------------------------------------------------
// The table stays in order of object number.

pub proof fn lemma_slot_order(rows: Seq<(u32, usize)>, k: u32, from: int)
    requires
        0 <= from <= rows.len(),
        forall|j: int| 0 <= j < from ==> (#[trigger] rows[j]).0 < k,
    ensures
        forall|j: int| 0 <= j < slot(rows, k, from) ==> (#[trigger] rows[j]).0 < k,
        slot(rows, k, from) < rows.len() ==> rows[slot(rows, k, from)].0 >= k,
        from <= slot(rows, k, from) <= rows.len(),
    decreases rows.len() - from,
{
    if from < rows.len() && rows[from].0 < k {
        lemma_slot_order(rows, k, from + 1);
    }
}

/// Putting a row in its place keeps the rows in order.
pub proof fn lemma_row_put_ascending(rows: Seq<(u32, usize)>, k: u32, v: usize, replace: bool)
    requires
        ascending(rows),
    ensures
        ascending(row_put(rows, k, v, replace)),
{
    lemma_slot_order(rows, k, 0);
    let i = slot(rows, k, 0);
    if i < rows.len() && rows[i].0 == k {
    } else {
        let r = rows.insert(i, (k, v));
        assert forall|a: int, b: int| 0 <= a < b < r.len() implies r[a].0 < r[b].0 by {
            if b < i {
            } else if b == i {
                assert(r[a] == rows[a]);
            } else if a < i {
                assert(r[b] == rows[b - 1]);
                assert(r[a] == rows[a]);
                if b - 1 > i {
                    assert(rows[i].0 < rows[b - 1].0);
                }
            } else if a == i {
                assert(r[b] == rows[b - 1]);
                if b - 1 > i {
                    assert(rows[i].0 < rows[b - 1].0);
                }
            } else {
                assert(r[a] == rows[a - 1]);
                assert(r[b] == rows[b - 1]);
            }
        }
    }
}

pub proof fn lemma_merge_ascending(older: Seq<(u32, usize)>, acc: Seq<(u32, usize)>)
    requires
        ascending(acc),
    ensures
        ascending(merge_rows(older, acc)),
    decreases older.len(),
{
    if older.len() > 0 {
        lemma_row_put_ascending(acc, older[0].0, older[0].1, false);
        lemma_merge_ascending(older.drop_first(), row_put(acc, older[0].0, older[0].1, false));
    }
}

pub proof fn lemma_entries_ascending(s: Seq<u8>, at: int, first: nat, count: nat, index: nat, rows: Seq<(u32, usize)>)
    requires
        ascending(rows),
    ensures
        xref_entries(s, at, first, count, index, rows) matches Ok((_, r)) ==> ascending(r),
    decreases count - index,
{
    if index < count {
        let (offset_text, e1) = token_at(s, at);
        if let Some(offset) = bounded_numeral(offset_text, usize::MAX as nat) {
            let e2 = token_at(s, e1).1;
            let (kind, e3) = token_at(s, e2);
            if kind == word_n() && offset != 0 {
                if first + index <= u32::MAX {
                    lemma_row_put_ascending(rows, (first + index) as u32, offset as usize, true);
                    lemma_entries_ascending(s, e3, first, count, index + 1,
                        row_put(rows, (first + index) as u32, offset as usize, true));
                }
            } else {
                lemma_entries_ascending(s, e3, first, count, index + 1, rows);
            }
        }
    }
}

pub proof fn lemma_rows_ascending(s: Seq<u8>, at: int, rows: Seq<(u32, usize)>)
    requires
        ascending(rows),
    ensures
        xref_rows(s, at, rows) matches Ok((r, _)) ==> ascending(r),
    decreases s.len() - at,
{
    let q = skip(s, at);
    if 0 <= at <= s.len() && !occurs_at(s, word_trailer(), q) {
        let (first_text, e1) = token_at(s, at);
        let (count_text, e2) = token_at(s, e1);
        if let (Some(first), Some(count)) = (bounded_numeral(first_text, u32::MAX as nat), bounded_numeral(count_text, u32::MAX as nat)) {
            lemma_entries_ascending(s, e2, first, count, 0, rows);
            if let Ok((pos, more)) = xref_entries(s, e2, first, count, 0, rows) {
                if pos > at && pos <= s.len() {
                    lemma_rows_ascending(s, pos, more);
                }
            }
        }
    }
}

pub proof fn lemma_chain_ascending(
    s: Seq<u8>,
    at: Option<int>,
    seen: Seq<int>,
    rows: Seq<(u32, usize)>,
    trailer: Option<Seq<(Seq<u8>, Value)>>,
)
    requires
        ascending(rows),
        distinct_places(seen, s.len()),
    ensures
        chain(s, at, seen, rows, trailer) matches Ok((r, _)) ==> ascending(r),
    decreases s.len() - seen.len(),
{
    if let Some(section) = at {
        if !(seen.contains(section) || section < 0 || section >= s.len()) {
            assert(distinct_places(seen.push(section), s.len()));
            lemma_places_bounded(seen.push(section), s.len());
            let p = skip(s, section);
            if occurs_at(s, word_xref(), p) {
                assert(ascending(Seq::<(u32, usize)>::empty()));
                lemma_rows_ascending(s, p + 4, Seq::empty());
            }
            if let Ok((newer, t)) = xref_section(s, section) {
                lemma_merge_ascending(newer, rows);
                lemma_chain_ascending(s, prev_of(t), seen.push(section), merge_rows(newer, rows),
                    if trailer is None { Some(t) } else { trailer });
            }
        }
    }
}

/// **The table a file is read into names each object once, in order of
/// number** — whatever order and repetition its sections had.
pub proof fn law_table_is_in_order(s: Seq<u8>)
    ensures
        read_file(s) matches Ok((rows, _)) ==> ascending(rows),
{
    if let Ok(start) = start_xref(s) {
        assert(ascending(Seq::<(u32, usize)>::empty()));
        assert(distinct_places(Seq::<int>::empty(), s.len()));
        lemma_chain_ascending(s, Some(start), Seq::empty(), Seq::empty(), None);
    }
}


/// Putting a row without replacing keeps every row that was there, and
/// adds nothing but the new row.
proof fn lemma_put_keeps(rows: Seq<(u32, usize)>, k: u32, v: usize)
    ensures
        forall|e: (u32, usize)| rows.contains(e) ==> row_put(rows, k, v, false).contains(e),
        forall|e: (u32, usize)| row_put(rows, k, v, false).contains(e) ==> e == (k, v) || rows.contains(e),
        (forall|e: (u32, usize)| rows.contains(e) ==> e.0 != k) ==> row_put(rows, k, v, false).contains((k, v)),
{
    let i = slot(rows, k, 0);
    lemma_slot_bounds(rows, k, 0);
    let r = row_put(rows, k, v, false);
    if i < rows.len() && rows[i].0 == k {
        assert(rows.contains(rows[i]));
    } else {
        assert forall|e: (u32, usize)| rows.contains(e) implies r.contains(e) by {
            let j = choose|j: int| 0 <= j < rows.len() && rows[j] == e;
            if j < i { assert(r[j] == e); } else { assert(r[j + 1] == e); }
        }
        assert forall|e: (u32, usize)| r.contains(e) implies e == (k, v) || rows.contains(e) by {
            let j = choose|j: int| 0 <= j < r.len() && r[j] == e;
            if j < i { assert(rows[j] == e); } else if j > i { assert(rows[j - 1] == e); }
        }
        assert(r[i] == (k, v));
    }
}

/// **An older table never overrides a newer one.** Merging an older
/// section's rows into those already read keeps every row already read; and
/// a number nothing read yet names gets the older section's first row for it.
pub proof fn law_an_older_table_never_overrides_a_newer_one(older: Seq<(u32, usize)>, acc: Seq<(u32, usize)>)
    ensures
        forall|e: (u32, usize)| acc.contains(e) ==> merge_rows(older, acc).contains(e),
        forall|i: int| 0 <= i < older.len()
            && (forall|e: (u32, usize)| acc.contains(e) ==> e.0 != older[i].0)
            && (forall|j: int| 0 <= j < i ==> older[j].0 != older[i].0)
            ==> merge_rows(older, acc).contains(#[trigger] older[i]),
    decreases older.len(),
{
    if older.len() > 0 {
        let next = row_put(acc, older[0].0, older[0].1, false);
        lemma_put_keeps(acc, older[0].0, older[0].1);
        law_an_older_table_never_overrides_a_newer_one(older.drop_first(), next);
        assert forall|i: int| 0 <= i < older.len()
            && (forall|e: (u32, usize)| acc.contains(e) ==> e.0 != older[i].0)
            && (forall|j: int| 0 <= j < i ==> older[j].0 != older[i].0)
            implies merge_rows(older, acc).contains(#[trigger] older[i]) by {
            if i == 0 {
                assert(next.contains(older[0]));
            } else {
                let rest = older.drop_first();
                assert(rest[i - 1] == older[i]);
                assert forall|e: (u32, usize)| next.contains(e) implies e.0 != rest[i - 1].0 by {
                    if e != (older[0].0, older[0].1) {
                        assert(acc.contains(e));
                    } else {
                        assert(older[0].0 != older[i].0);
                    }
                }
                assert forall|j: int| 0 <= j < i - 1 implies #[trigger] rest[j].0 != rest[i - 1].0 by {
                    assert(rest[j] == older[j + 1]);
                }
            }
        }
    }
}

/// Walking the rest of a chain keeps every row the newer tables gave.
proof fn lemma_chain_keeps(
    s: Seq<u8>,
    at: Option<int>,
    seen: Seq<int>,
    rows: Seq<(u32, usize)>,
    trailer: Option<Seq<(Seq<u8>, Value)>>,
)
    requires
        distinct_places(seen, s.len()),
    ensures
        chain(s, at, seen, rows, trailer) matches Ok((r, _)) ==> forall|e: (u32, usize)| rows.contains(e) ==> r.contains(e),
    decreases s.len() - seen.len(),
{
    if let Some(section) = at {
        if !(seen.contains(section) || section < 0 || section >= s.len()) {
            assert(distinct_places(seen.push(section), s.len()));
            lemma_places_bounded(seen.push(section), s.len());
            if let Ok((newer, t)) = xref_section(s, section) {
                law_an_older_table_never_overrides_a_newer_one(newer, rows);
                lemma_chain_keeps(s, prev_of(t), seen.push(section), merge_rows(newer, rows),
                    if trailer is None { Some(t) } else { trailer });
            }
        }
    }
}

/// In rows in order of number, the row a number is looked up at is the one
/// it has.
proof fn lemma_found_where_it_is(rows: Seq<(u32, usize)>, e: (u32, usize))
    requires
        ascending(rows),
        rows.contains(e),
    ensures
        row_of(rows, e.0) matches Some(x) && rows[x] == e,
{
    let j = choose|j: int| 0 <= j < rows.len() && rows[j] == e;
    lemma_slot_order(rows, e.0, 0);
    let i = slot(rows, e.0, 0);
    if i < j {
        assert(rows[i].0 < rows[j].0);
    } else if i > j {
        assert(rows[j].0 < e.0);
    }
}

/// **The newest table wins.** Every object the newest section of a file's
/// chain lists (its first row for a number, where it lists one twice) is a
/// row of the file as read, so an incremental update's objects are the ones
/// read, never the revisions they replaced.
pub proof fn law_the_newest_table_wins(s: Seq<u8>)
    ensures
        read_file(s) matches Ok((rows, _)) ==> match start_xref(s) {
            Ok(start) => match xref_section(s, start) {
                Ok((newest, _)) => forall|i: int| 0 <= i < newest.len()
                    && (forall|j: int| 0 <= j < i ==> newest[j].0 != newest[i].0)
                    ==> rows.contains(#[trigger] newest[i]) && (row_of(rows, newest[i].0) matches Some(x)
                        && rows[x] == newest[i]),
                Err(_) => true,
            },
            Err(_) => true,
        },
{
    if let Ok(start) = start_xref(s) {
        let empty = Seq::<(u32, usize)>::empty();
        let none = Seq::<int>::empty();
        assert(distinct_places(none, s.len()));
        if let Ok((newest, t)) = xref_section(s, start) {
            if 0 <= start < s.len() {
                assert(!none.contains(start));
                assert(distinct_places(none.push(start), s.len()));
                lemma_places_bounded(none.push(start), s.len());
                law_an_older_table_never_overrides_a_newer_one(newest, empty);
                lemma_chain_keeps(s, prev_of(t), none.push(start), merge_rows(newest, empty), Some(t));
                assert(chain(s, Some(start), none, empty, None)
                    == chain(s, prev_of(t), none.push(start), merge_rows(newest, empty), Some(t)));
                law_table_is_in_order(s);
                if let Ok((rows, _)) = read_file(s) {
                    assert forall|i: int| 0 <= i < newest.len()
                        && (forall|j: int| 0 <= j < i ==> newest[j].0 != newest[i].0)
                        implies rows.contains(#[trigger] newest[i]) && (row_of(rows, newest[i].0) matches Some(x)
                            && rows[x] == newest[i]) by {
                        lemma_found_where_it_is(rows, newest[i]);
                    }
                }
            }
        }
    }
}

} // verus!
