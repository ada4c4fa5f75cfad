//! What a document carries that is not on its pages.
//!
//! A document saved incrementally keeps everything it used to say in front
//! of the new version, so a passage removed on Tuesday is still there on
//! Friday for anyone who opens the file in a text editor. [`survey`] says what
//! is there; [`strip`] takes it out. Two calls rather than one, because a
//! person deciding whether to sanitise a document needs to know what
//! sanitising would cost.
//!
//! **The lock's own attachment** is never removed: a locked document keeps
//! the sealed original inside itself, and removing it would destroy the only
//! copy of what somebody was promised they could get back.

use std::collections::{BTreeMap, BTreeSet};
use vstd::prelude::*;
use crate::error::Result;
use crate::pdf::object::{lookup, remove_entry, set_entry, utf8_lossy, Dict, Object, Value};
use crate::pdf::reader::{bodies, object_at, read_file, rewritten, written, File};
use crate::pdf::sign::{entries_of, resolved};
use crate::text::{decimal, joined, occurs, occurs_at, texts};

verus! {

/// What a file carries beyond its pages.
#[derive(Debug, Clone, PartialEq, Eq)]
pub struct Hidden {
    /// How many times the file has been saved into. Anything above one means
    /// earlier versions of every page are still in it.
    pub revisions: usize,
    /// The `/Info` entries: author, producer, the times it was written.
    pub information: Vec<String>,
    /// An XMP packet, which usually repeats `/Info` and often says more.
    pub xmp: bool,
    /// Files carried inside this one, not counting the lock's own.
    pub embedded_files: usize,
    /// Script that runs when the document is opened or acted on.
    pub javascript: bool,
    /// Objects nothing reaches from the catalogue: content taken off the
    /// pages but never taken out of the file.
    pub unreachable: usize,
    /// Whether a lock's sealed copy is present, which is kept whatever else
    /// goes.
    pub keeps_lock: bool,
}

impl Default for Hidden {
    fn default() -> (r: Hidden)
        ensures
            r.revisions == 0 && r.information@.len() == 0 && !r.xmp && r.embedded_files == 0 && !r.javascript
                && r.unreachable == 0 && !r.keeps_lock,
    {
        Hidden {
            revisions: 0,
            information: Vec::new(),
            xmp: false,
            embedded_files: 0,
            javascript: false,
            unreachable: 0,
            keeps_lock: false,
        }
    }
}

/// Whether these findings leave nothing worth removing. The lock's copy
/// does not count.
pub open spec fn facts_empty(revisions: int, information: Seq<Seq<char>>, xmp: bool, embedded: int,
    javascript: bool, unreachable: int) -> bool
{
    revisions <= 1 && information.len() == 0 && !xmp && embedded == 0 && !javascript && unreachable == 0
}

/// The sentences that say what was found, in the order they are said.
pub open spec fn findings_of(revisions: int, information: Seq<Seq<char>>, xmp: bool, embedded: int,
    javascript: bool, unreachable: int) -> Seq<Seq<char>>
{
    let a = if revisions > 1 {
        seq![decimal((revisions - 1) as nat) + " earlier version"@ + (if revisions == 2 { ""@ } else { "s"@ })
            + " of the whole document"@]
    } else {
        seq![]
    };
    let b = if information.len() > 0 {
        seq!["document information ("@ + joined(information, ", "@) + ")"@]
    } else {
        seq![]
    };
    let c = if xmp { seq!["an XMP metadata packet"@] } else { seq![] };
    let d = if embedded > 0 { seq![decimal(embedded as nat) + " embedded file(s)"@] } else { seq![] };
    let e = if javascript { seq!["JavaScript"@] } else { seq![] };
    let f = if unreachable > 0 { seq![decimal(unreachable as nat) + " unreachable object(s)"@] } else { seq![] };
    a + b + c + d + e + f
}

/// What was found, in words.
pub open spec fn description_of(revisions: int, information: Seq<Seq<char>>, xmp: bool, embedded: int,
    javascript: bool, unreachable: int) -> Seq<char>
{
    let found = findings_of(revisions, information, xmp, embedded, javascript, unreachable);
    if found.len() == 0 {
        "nothing hidden beyond the pages themselves"@
    } else {
        joined(found, "; "@)
    }
}

/// Whether there is nothing worth removing.
pub open spec fn nothing_hidden(h: Hidden) -> bool {
    facts_empty(h.revisions as int, texts(h.information@), h.xmp, h.embedded_files as int, h.javascript,
        h.unreachable as int)
}

/// What was found, in words.
pub open spec fn hidden_description(h: Hidden) -> Seq<char> {
    description_of(h.revisions as int, texts(h.information@), h.xmp, h.embedded_files as int, h.javascript,
        h.unreachable as int)
}

/// How many revisions a clean took out, counted as a survey counts them:
/// one more than the difference, and at least one.
pub open spec fn revisions_gone(before: int, after: int) -> int {
    if before + 1 - after > 1 { before + 1 - after } else { 1 }
}

/// `a - b`, or nothing.
pub open spec fn less(a: int, b: int) -> int {
    if a > b { a - b } else { 0 }
}

/// The `/Info` entries of `before` that `after` does not have, in order.
pub open spec fn information_gone(before: Seq<String>, after: Seq<String>) -> Seq<String>
    decreases before.len(),
{
    if before.len() == 0 {
        Seq::empty()
    } else {
        let rest = information_gone(before.drop_last(), after);
        if texts(after).contains(before.last()@) { rest } else { rest.push(before.last()) }
    }
}

fn push_text(out: &mut Vec<String>, text: String)
    ensures
        texts(final(out)@) == texts(old(out)@).push(text@),
{
    let ghost before = texts(out@);
    out.push(text);
    proof {
        assert(texts(out@) =~= before.push(text@));
    }
}

fn contains_text(list: &Vec<String>, text: &String) -> (r: bool)
    ensures
        r == texts(list@).contains(text@),
{
    let mut i: usize = 0;
    while i < list.len()
        invariant
            i <= list@.len(),
            forall|j: int| 0 <= j < i ==> list@[j]@ != text@,
        decreases list.len() - i,
    {
        if list[i] == *text {
            proof {
                assert(texts(list@)[i as int] == text@);
            }
            return true;
        }
        i = i + 1;
    }
    proof {
        if texts(list@).contains(text@) {
            let k = choose|k: int| 0 <= k < texts(list@).len() && texts(list@)[k] == text@;
            assert(list@[k]@ == text@);
        }
    }
    false
}

impl Hidden {
    /// Whether there is anything here worth removing.
    pub fn is_empty(&self) -> (r: bool)
        ensures
            r == nothing_hidden(*self),
    {
        self.revisions <= 1 && self.information.len() == 0 && !self.xmp && self.embedded_files == 0
            && !self.javascript && self.unreachable == 0
    }

    /// What was found, in words.
    #[verifier::rlimit(40)]
    pub fn describe(&self) -> (r: String)
        ensures
            r@ == hidden_description(*self),
    {
        let mut found: Vec<String> = Vec::new();
        let ghost mut expected: Seq<Seq<char>> = seq![];
        if self.revisions > 1 {
            let mut s = String::new();
            crate::text::push_decimal(&mut s, (self.revisions - 1) as u64);
            s.append(" earlier version");
            s.append(if self.revisions == 2 { "" } else { "s" });
            s.append(" of the whole document");
            push_text(&mut found, s);
        }
        if self.information.len() > 0 {
            let mut s = String::from_str("document information (");
            let listed = crate::text::join(&self.information, ", ");
            s.append(listed.as_str());
            s.append(")");
            push_text(&mut found, s);
        }
        if self.xmp {
            push_text(&mut found, String::from_str("an XMP metadata packet"));
        }
        if self.embedded_files > 0 {
            let mut s = String::new();
            crate::text::push_decimal(&mut s, self.embedded_files as u64);
            s.append(" embedded file(s)");
            push_text(&mut found, s);
        }
        if self.javascript {
            push_text(&mut found, String::from_str("JavaScript"));
        }
        if self.unreachable > 0 {
            let mut s = String::new();
            crate::text::push_decimal(&mut s, self.unreachable as u64);
            s.append(" unreachable object(s)");
            push_text(&mut found, s);
        }
        proof {
            assert(texts(found@) =~= findings_of(self.revisions as int, texts(self.information@), self.xmp,
                self.embedded_files as int, self.javascript, self.unreachable as int));
        }
        if found.len() == 0 {
            return String::from_str("nothing hidden beyond the pages themselves");
        }
        crate::text::join(&found, "; ")
    }

    /// What was here and is not in `remaining`: the part a clean removed.
    pub fn without(&self, remaining: &Hidden) -> (r: Hidden)
        requires
            self.revisions < usize::MAX,
        ensures
            r.revisions == revisions_gone(self.revisions as int, remaining.revisions as int),
            texts(r.information@) == texts(information_gone(self.information@, remaining.information@)),
            r.xmp == (self.xmp && !remaining.xmp),
            r.embedded_files == less(self.embedded_files as int, remaining.embedded_files as int),
            r.javascript == (self.javascript && !remaining.javascript),
            r.unreachable == less(self.unreachable as int, remaining.unreachable as int),
            r.keeps_lock == self.keeps_lock,
    {
        let more = (self.revisions + 1).saturating_sub(remaining.revisions);
        let revisions = if more > 1 { more } else { 1 };
        let mut information: Vec<String> = Vec::new();
        let mut i: usize = 0;
        while i < self.information.len()
            invariant
                i <= self.information@.len(),
                texts(information@) == texts(information_gone(self.information@.subrange(0, i as int),
                    remaining.information@)),
            decreases self.information.len() - i,
        {
            proof {
                assert(self.information@.subrange(0, i + 1).drop_last() =~= self.information@.subrange(0, i as int));
            }
            if !contains_text(&remaining.information, &self.information[i]) {
                push_text(&mut information, self.information[i].clone());
                proof {
                    assert(texts(information_gone(self.information@.subrange(0, i + 1), remaining.information@))
                        =~= texts(information_gone(self.information@.subrange(0, i as int),
                        remaining.information@)).push(self.information@[i as int]@));
                }
            }
            i = i + 1;
        }
        proof {
            assert(self.information@.subrange(0, i as int) =~= self.information@);
        }
        Hidden {
            revisions,
            information,
            xmp: self.xmp && !remaining.xmp,
            embedded_files: self.embedded_files.saturating_sub(remaining.embedded_files),
            javascript: self.javascript && !remaining.javascript,
            unreachable: self.unreachable.saturating_sub(remaining.unreachable),
            keeps_lock: self.keeps_lock,
        }
    }
}

/// What a clean did: what the file carried, and what it still carries.
///
/// **Reported from a second survey of the cleaned bytes, not from the first
/// one**, so that what it says came out is measured rather than assumed.
#[derive(Debug, Clone, PartialEq, Eq)]
pub struct Sanitised {
    /// What the file carried before.
    pub before: Hidden,
    /// What a survey of the cleaned bytes still finds.
    pub after: Hidden,
}

/// What a clean took out, in words.
pub open spec fn removed_description(s: Sanitised) -> Seq<char> {
    description_of(revisions_gone(s.before.revisions as int, s.after.revisions as int),
        texts(information_gone(s.before.information@, s.after.information@)), s.before.xmp && !s.after.xmp,
        less(s.before.embedded_files as int, s.after.embedded_files as int),
        s.before.javascript && !s.after.javascript, less(s.before.unreachable as int, s.after.unreachable as int))
}

/// Whether a clean took nothing out.
pub open spec fn removed_nothing(s: Sanitised) -> bool {
    facts_empty(revisions_gone(s.before.revisions as int, s.after.revisions as int),
        texts(information_gone(s.before.information@, s.after.information@)), s.before.xmp && !s.after.xmp,
        less(s.before.embedded_files as int, s.after.embedded_files as int),
        s.before.javascript && !s.after.javascript, less(s.before.unreachable as int, s.after.unreachable as int))
}

impl Sanitised {
    /// What actually came out.
    pub fn removed(&self) -> (r: Hidden)
        requires
            self.before.revisions < usize::MAX,
        ensures
            r.revisions == revisions_gone(self.before.revisions as int, self.after.revisions as int),
            texts(r.information@) == texts(information_gone(self.before.information@, self.after.information@)),
            r.xmp == (self.before.xmp && !self.after.xmp),
            r.embedded_files == less(self.before.embedded_files as int, self.after.embedded_files as int),
            r.javascript == (self.before.javascript && !self.after.javascript),
            r.unreachable == less(self.before.unreachable as int, self.after.unreachable as int),
            r.keeps_lock == self.before.keeps_lock,
    {
        self.before.without(&self.after)
    }

    /// Whether everything that was found came out.
    pub fn is_clean(&self) -> (r: bool)
        ensures
            r == nothing_hidden(self.after),
    {
        self.after.is_empty()
    }

    /// In words: what came out, and, first because it matters more, what
    /// did not.
    pub fn describe(&self) -> (r: String)
        requires
            self.before.revisions < usize::MAX,
        ensures
            r@ == if removed_nothing(*self) && nothing_hidden(self.after) {
                "there was nothing hidden to remove"@
            } else if nothing_hidden(self.after) {
                "removed: "@ + removed_description(*self)
            } else if removed_nothing(*self) {
                "NOTHING REMOVED — still there: "@ + hidden_description(self.after)
            } else {
                "STILL THERE: "@ + hidden_description(self.after) + ". Removed: "@ + removed_description(*self)
            },
    {
        let removed = self.removed();
        let gone = removed.is_empty();
        let left = self.after.is_empty();
        if gone && left {
            String::from_str("there was nothing hidden to remove")
        } else if left {
            String::from_str("removed: ").concat(removed.describe().as_str())
        } else if gone {
            String::from_str("NOTHING REMOVED — still there: ").concat(self.after.describe().as_str())
        } else {
            let mut out = String::from_str("STILL THERE: ");
            out.append(self.after.describe().as_str());
            out.append(". Removed: ");
            out.append(removed.describe().as_str());
            out
        }
    }
}


// ---------------------------------------------------------------------------
// Looking.

pub open spec fn h_info() -> Seq<u8> { seq![73u8, 110u8, 102u8, 111u8] }

fn hb_info() -> (r: Vec<u8>)
    ensures
        r@ == h_info(),
{
    let r = vec![73u8, 110u8, 102u8, 111u8];
    assert(r@ =~= h_info());
    r
}

pub open spec fn h_root() -> Seq<u8> { seq![82u8, 111u8, 111u8, 116u8] }

fn hb_root() -> (r: Vec<u8>)
    ensures
        r@ == h_root(),
{
    let r = vec![82u8, 111u8, 111u8, 116u8];
    assert(r@ =~= h_root());
    r
}

pub open spec fn h_metadata() -> Seq<u8> { seq![77u8, 101u8, 116u8, 97u8, 100u8, 97u8, 116u8, 97u8] }

fn hb_metadata() -> (r: Vec<u8>)
    ensures
        r@ == h_metadata(),
{
    let r = vec![77u8, 101u8, 116u8, 97u8, 100u8, 97u8, 116u8, 97u8];
    assert(r@ =~= h_metadata());
    r
}

pub open spec fn h_names() -> Seq<u8> { seq![78u8, 97u8, 109u8, 101u8, 115u8] }

fn hb_names() -> (r: Vec<u8>)
    ensures
        r@ == h_names(),
{
    let r = vec![78u8, 97u8, 109u8, 101u8, 115u8];
    assert(r@ =~= h_names());
    r
}

pub open spec fn h_javascript() -> Seq<u8> { seq![74u8, 97u8, 118u8, 97u8, 83u8, 99u8, 114u8, 105u8, 112u8, 116u8] }

fn hb_javascript() -> (r: Vec<u8>)
    ensures
        r@ == h_javascript(),
{
    let r = vec![74u8, 97u8, 118u8, 97u8, 83u8, 99u8, 114u8, 105u8, 112u8, 116u8];
    assert(r@ =~= h_javascript());
    r
}

pub open spec fn h_embedded_files() -> Seq<u8> { seq![69u8, 109u8, 98u8, 101u8, 100u8, 100u8, 101u8, 100u8, 70u8, 105u8, 108u8, 101u8, 115u8] }

fn hb_embedded_files() -> (r: Vec<u8>)
    ensures
        r@ == h_embedded_files(),
{
    let r = vec![69u8, 109u8, 98u8, 101u8, 100u8, 100u8, 101u8, 100u8, 70u8, 105u8, 108u8, 101u8, 115u8];
    assert(r@ =~= h_embedded_files());
    r
}

pub open spec fn h_kids() -> Seq<u8> { seq![75u8, 105u8, 100u8, 115u8] }

fn hb_kids() -> (r: Vec<u8>)
    ensures
        r@ == h_kids(),
{
    let r = vec![75u8, 105u8, 100u8, 115u8];
    assert(r@ =~= h_kids());
    r
}

pub open spec fn h_s() -> Seq<u8> { seq![83u8] }

fn hb_s() -> (r: Vec<u8>)
    ensures
        r@ == h_s(),
{
    let r = vec![83u8];
    assert(r@ =~= h_s());
    r
}

pub open spec fn h_js() -> Seq<u8> { seq![74u8, 83u8] }

fn hb_js() -> (r: Vec<u8>)
    ensures
        r@ == h_js(),
{
    let r = vec![74u8, 83u8];
    assert(r@ =~= h_js());
    r
}

pub open spec fn h_startxref() -> Seq<u8> { seq![115u8, 116u8, 97u8, 114u8, 116u8, 120u8, 114u8, 101u8, 102u8] }

fn hb_startxref() -> (r: Vec<u8>)
    ensures
        r@ == h_startxref(),
{
    let r = vec![115u8, 116u8, 97u8, 114u8, 116u8, 120u8, 114u8, 101u8, 102u8];
    assert(r@ =~= h_startxref());
    r
}

pub open spec fn h_a() -> Seq<u8> { seq![65u8] }

fn hb_a() -> (r: Vec<u8>)
    ensures
        r@ == h_a(),
{
    let r = vec![65u8];
    assert(r@ =~= h_a());
    r
}

pub open spec fn h_open_action() -> Seq<u8> { seq![79u8, 112u8, 101u8, 110u8, 65u8, 99u8, 116u8, 105u8, 111u8, 110u8] }

fn hb_open_action() -> (r: Vec<u8>)
    ensures
        r@ == h_open_action(),
{
    let r = vec![79u8, 112u8, 101u8, 110u8, 65u8, 99u8, 116u8, 105u8, 111u8, 110u8];
    assert(r@ =~= h_open_action());
    r
}

pub open spec fn h_next() -> Seq<u8> { seq![78u8, 101u8, 120u8, 116u8] }

fn hb_next() -> (r: Vec<u8>)
    ensures
        r@ == h_next(),
{
    let r = vec![78u8, 101u8, 120u8, 116u8];
    assert(r@ =~= h_next());
    r
}

pub open spec fn h_aa() -> Seq<u8> { seq![65u8, 65u8] }

fn hb_aa() -> (r: Vec<u8>)
    ensures
        r@ == h_aa(),
{
    let r = vec![65u8, 65u8];
    assert(r@ =~= h_aa());
    r
}

/// The name of the lock's attachment, which is hidden data that must survive
/// sanitising.
pub open spec fn keep_name() -> Seq<char> {
    "pagify-lock.json"@
}

/// How many times `pat` occurs starting before `n`.
pub open spec fn occurrences(s: Seq<u8>, pat: Seq<u8>, n: int) -> nat
    decreases n,
{
    if n <= 0 { 0 } else { occurrences(s, pat, n - 1) + if occurs_at(s, pat, n - 1) { 1nat } else { 0nat } }
}

/// How many revisions a file's bytes hold: one per `startxref`, and at least
/// one.
pub open spec fn revision_count(bytes: Seq<u8>) -> nat {
    let n = occurrences(bytes, h_startxref(), bytes.len() as int);
    if n > 1 { n } else { 1 }
}

fn count_revisions(bytes: &[u8]) -> (r: usize)
    ensures
        r == revision_count(bytes@),
{
    let pat = hb_startxref();
    let mut count: usize = 0;
    let mut i: usize = 0;
    while i < bytes.len()
        invariant
            i <= bytes@.len(),
            pat@ == h_startxref(),
            count == occurrences(bytes@, pat@, i as int),
            count <= i,
        decreases bytes.len() - i,
    {
        if crate::text::bytes_at(bytes, pat.as_slice(), i) {
            count = count + 1;
        }
        i = i + 1;
    }
    if count > 1 { count } else { 1 }
}

/// The references in a value, in the order they are written.
pub open spec fn refs_of(v: Value) -> Seq<u32>
    decreases v,
{
    match v {
        Value::Reference(n, _) => seq![n],
        Value::Array(items) => refs_of_items(items),
        Value::Dict(entries) => refs_of_entries(entries),
        Value::Stream(entries, _, _) => refs_of_entries(entries),
        _ => Seq::empty(),
    }
}

pub open spec fn refs_of_items(items: Seq<Value>) -> Seq<u32>
    decreases items,
{
    if items.len() == 0 {
        Seq::empty()
    } else {
        refs_of_items(items.drop_last()) + refs_of(items.last())
    }
}

pub open spec fn refs_of_entries(entries: Seq<(Seq<u8>, Value)>) -> Seq<u32>
    decreases entries,
{
    if entries.len() == 0 {
        Seq::empty()
    } else {
        refs_of_entries(entries.drop_last()) + refs_of(entries.last().1)
    }
}

/// The references in an object.
fn references(object: &Object) -> (r: Vec<u32>)
    ensures
        r@ == refs_of(object.value()),
    decreases object,
{
    match object {
        Object::Reference(n, _) => vec![*n],
        Object::Array(items) => {
            let mut out: Vec<u32> = Vec::new();
            let mut i: usize = 0;
            while i < items.len()
                invariant
                    *object == Object::Array(*items),
                    i <= items@.len(),
                    out@ == refs_of_items(object.value()->Array_0.subrange(0, i as int)),
                decreases items.len() - i,
            {
                proof {
                    assert(decreases_to!(*object => object->Array_0));
                    assert(decreases_to!(object->Array_0 => object->Array_0[i as int])) by {
                        broadcast use vstd::std_specs::vec::axiom_vec_index_decreases;
                    }
                    let all = object.value()->Array_0;
                    assert(all.subrange(0, i + 1).drop_last() =~= all.subrange(0, i as int));
                    assert(all[i as int] == items@[i as int].value());
                }
                let more = references(&items[i]);
                let mut j: usize = 0;
                let ghost before = out@;
                while j < more.len()
                    invariant
                        j <= more@.len(),
                        out@ == before + more@.subrange(0, j as int),
                    decreases more.len() - j,
                {
                    out.push(more[j]);
                    proof {
                        assert(out@ =~= before + more@.subrange(0, j + 1));
                    }
                    j = j + 1;
                }
                proof {
                    assert(more@.subrange(0, j as int) =~= more@);
                }
                i = i + 1;
            }
            proof {
                assert(object.value()->Array_0.subrange(0, i as int) =~= object.value()->Array_0);
            }
            out
        },
        Object::Dict(d) => references_in(d, object),
        Object::Stream(d, _) => references_in(d, object),
        _ => Vec::new(),
    }
}

/// The references in a dictionary's values.
fn references_in(d: &Dict, whole: &Object) -> (r: Vec<u32>)
    requires
        *whole == Object::Dict(*d) || (whole matches Object::Stream(e, _) && e == *d),
    ensures
        r@ == refs_of_entries(d.entries()),
    decreases whole, 0nat,
{
    let mut out: Vec<u32> = Vec::new();
    let mut i: usize = 0;
    while i < d.0.len()
        invariant
            *whole == Object::Dict(*d) || (whole matches Object::Stream(e, _) && e == *d),
            i <= d.0@.len(),
            out@ == refs_of_entries(d.entries().subrange(0, i as int)),
        decreases d.0.len() - i,
    {
        proof {
            assert(decreases_to!(*d => d.0@[i as int].1));
            if *whole == Object::Dict(*d) {
                assert(decreases_to!(*whole => whole->Dict_0));
            } else {
                assert(decreases_to!(*whole => whole->Stream_0));
            }
            let all = d.entries();
            assert(all.subrange(0, i + 1).drop_last() =~= all.subrange(0, i as int));
            assert(all[i as int].1 == d.0@[i as int].1.value());
        }
        let more = references(&d.0[i].1);
        let mut j: usize = 0;
        let ghost before = out@;
        while j < more.len()
            invariant
                j <= more@.len(),
                out@ == before + more@.subrange(0, j as int),
            decreases more.len() - j,
        {
            out.push(more[j]);
            proof {
                assert(out@ =~= before + more@.subrange(0, j + 1));
            }
            j = j + 1;
        }
        proof {
            assert(more@.subrange(0, j as int) =~= more@);
        }
        i = i + 1;
    }
    proof {
        assert(d.entries().subrange(0, i as int) =~= d.entries());
    }
    out
}


/// Everything a walk from `number` reaches, with `seen` reached already:
/// depth first, references in the order they are written, and no deeper
/// than 96 references.
pub open spec fn walked(s: Seq<u8>, rows: Seq<(u32, usize)>, number: u32, seen: Set<u32>, depth: nat) -> Set<u32>
    decreases 97 - depth, 0int,
{
    if depth > 96 || seen.contains(number) {
        seen
    } else {
        match object_at(s, rows, number) {
            Ok((v, _)) => walked_all(s, rows, refs_of(v), 0, seen.insert(number), depth + 1),
            Err(_) => seen.insert(number),
        }
    }
}

/// The walks from `refs[i..]`, one after another.
pub open spec fn walked_all(s: Seq<u8>, rows: Seq<(u32, usize)>, refs: Seq<u32>, i: int, seen: Set<u32>, depth: nat)
    -> Set<u32>
    decreases 97 - depth, refs.len() - i + 1,
{
    if i < 0 || i >= refs.len() {
        seen
    } else {
        walked_all(s, rows, refs, i + 1, walked(s, rows, refs[i], seen, depth), depth)
    }
}

fn walk(file: &File, number: u32, seen: &mut BTreeSet<u32>, depth: usize)
    requires
        depth <= 97,
    ensures
        final(seen)@ == walked(file.source(), file.rows(), number, old(seen)@, depth as nat),
    decreases 97 - depth,
{
    // A depth cap rather than trust: a file can point an object at itself,
    // and a sanitiser that hangs is a sanitiser nobody runs.
    if depth > 96 {
        return;
    }
    if !seen.insert(number) {
        return;
    }
    let ghost start = seen@;
    let object = match file.object(number) {
        Ok(o) => o,
        Err(_) => {
            return;
        },
    };
    let refs = references(&object);
    let mut i: usize = 0;
    while i < refs.len()
        invariant
            depth <= 96,
            i <= refs@.len(),
            walked_all(file.source(), file.rows(), refs@, i as int, seen@, (depth + 1) as nat)
                == walked_all(file.source(), file.rows(), refs@, 0, start, (depth + 1) as nat),
        decreases refs.len() - i,
    {
        walk(file, refs[i], seen, depth + 1);
        i = i + 1;
    }
}

/// Everything reachable from the catalogue, and from `/Info`, as the file
/// stands.
pub open spec fn reachable(s: Seq<u8>, rows: Seq<(u32, usize)>, trailer: Seq<(Seq<u8>, Value)>) -> Set<u32> {
    let from_root = match lookup(trailer, h_root()) {
        Some(Value::Reference(n, _)) => walked(s, rows, n, Set::empty(), 0),
        _ => Set::empty(),
    };
    match lookup(trailer, h_info()) {
        Some(Value::Reference(n, _)) => walked(s, rows, n, from_root, 0),
        _ => from_root,
    }
}

/// Everything reachable from the catalogue as the file stands, following
/// references. `/Info` counts as reached because it still is.
fn reachable_from_root(file: &File) -> (r: BTreeSet<u32>)
    ensures
        r@ == reachable(file.source(), file.rows(), file.trailer_entries()),
{
    let mut seen: BTreeSet<u32> = BTreeSet::new();
    let root_word = hb_root();
    if let Some(Object::Reference(number, _)) = file.trailer().get(root_word.as_slice()) {
        walk(file, *number, &mut seen, 0);
    }
    let info_word = hb_info();
    if let Some(Object::Reference(number, _)) = file.trailer().get(info_word.as_slice()) {
        walk(file, *number, &mut seen, 0);
    }
    seen
}

/// How many of the table's objects a set leaves out.
pub open spec fn count_outside(rows: Seq<(u32, usize)>, set: Set<u32>) -> nat
    decreases rows.len(),
{
    if rows.len() == 0 {
        0
    } else {
        count_outside(rows.drop_last(), set) + if set.contains(rows.last().0) { 0nat } else { 1nat }
    }
}

/// Whether an action runs script: `/S /JavaScript`, or a `/JS` entry, which
/// only a JavaScript action carries.
pub open spec fn runs_script(s: Seq<u8>, rows: Seq<(u32, usize)>, action: Value) -> bool {
    match resolved(s, rows, action) {
        Ok(a) => match entries_of(a) {
            Some(d) => lookup(d, h_s()) == Some(Value::Name(h_javascript())) || lookup(d, h_js()) is Some,
            None => false,
        },
        Err(_) => false,
    }
}

/// Whether anything in a value, at any depth up to 32 and without following
/// references, is an action that runs script.
pub open spec fn holds_script(s: Seq<u8>, rows: Seq<(u32, usize)>, v: Value, depth: nat) -> bool
    decreases 33 - depth,
{
    if depth > 32 {
        false
    } else {
        match v {
            Value::Dict(d) => runs_script(s, rows, v)
                || exists|i: int| 0 <= i < d.len() && holds_script(s, rows, #[trigger] d[i].1, depth + 1),
            Value::Stream(d, _, _) => runs_script(s, rows, v)
                || exists|i: int| 0 <= i < d.len() && holds_script(s, rows, #[trigger] d[i].1, depth + 1),
            Value::Array(items) => exists|i: int| 0 <= i < items.len()
                && holds_script(s, rows, #[trigger] items[i], depth + 1),
            _ => false,
        }
    }
}

fn runs_script_in(file: &File, action: &Object) -> (r: bool)
    ensures
        r == runs_script(file.source(), file.rows(), action.value()),
{
    let action = match file.resolve(action) {
        Ok(a) => a,
        Err(_) => {
            return false;
        },
    };
    let dict = match action.as_dict() {
        Some(d) => d,
        None => {
            return false;
        },
    };
    let s_word = hb_s();
    let js_word = hb_js();
    let javascript = hb_javascript();
    let by_name = match dict.get(s_word.as_slice()) {
        Some(Object::Name(n)) => crate::pdf::object::same_bytes(n.as_slice(), javascript.as_slice()),
        _ => false,
    };
    by_name || dict.get(js_word.as_slice()).is_some()
}

fn holds_script_in(file: &File, object: &Object, depth: usize) -> (r: bool)
    requires
        depth <= 33,
    ensures
        r == holds_script(file.source(), file.rows(), object.value(), depth as nat),
    decreases 33 - depth,
{
    if depth > 32 {
        return false;
    }
    match object {
        Object::Dict(d) | Object::Stream(d, _) => {
            if runs_script_in(file, object) {
                return true;
            }
            let mut i: usize = 0;
            while i < d.0.len()
                invariant
                    depth <= 32,
                    (object.value() matches Value::Dict(e) && e == d.entries())
                        || (object.value() matches Value::Stream(e, _, _) && e == d.entries()),
                    i <= d.0@.len(),
                    forall|j: int| 0 <= j < i ==> !holds_script(file.source(), file.rows(),
                        #[trigger] d.entries()[j].1, (depth + 1) as nat),
                decreases d.0.len() - i,
            {
                proof {
                    assert(d.entries()[i as int].1 == d.0@[i as int].1.value());
                }
                if holds_script_in(file, &d.0[i].1, depth + 1) {
                    return true;
                }
                i = i + 1;
            }
            false
        },
        Object::Array(items) => {
            let mut i: usize = 0;
            while i < items.len()
                invariant
                    depth <= 32,
                    object.value() matches Value::Array(v) && (v.len() == items@.len()
                        && forall|j: int| 0 <= j < v.len() ==> #[trigger] v[j] == items@[j].value()),
                    i <= items@.len(),
                    forall|j: int| 0 <= j < i ==> !holds_script(file.source(), file.rows(),
                        #[trigger] object.value()->Array_0[j], (depth + 1) as nat),
                decreases items.len() - i,
            {
                if holds_script_in(file, &items[i], depth + 1) {
                    proof {
                        assert(object.value()->Array_0[i as int] == items@[i as int].value());
                    }
                    return true;
                }
                i = i + 1;
            }
            false
        },
        _ => false,
    }
}


/// Whether a name-tree key spells the lock's attachment.
pub open spec fn is_lock_name(v: Value) -> bool {
    match v {
        Value::Literal(raw) => occurs(utf8_lossy(raw), keep_name()),
        Value::Hex(raw) => occurs(utf8_lossy(raw), keep_name()),
        _ => false,
    }
}

/// A count that stops at the largest `usize`.
pub open spec fn capped(n: nat) -> nat {
    if n > usize::MAX { usize::MAX as nat } else { n }
}

/// The `[key value]` pairs of a leaf: how many keys, and whether one is the
/// lock's.
pub open spec fn leaf_names(items: Seq<Value>) -> (nat, bool) {
    (((items.len() + 1) / 2) as nat, exists|j: int| 0 <= j < (items.len() + 1) / 2 && is_lock_name(#[trigger] items[2 * j]))
}

/// **A leaf counts one attachment per key**, not per item: a `/Names`
/// array of `n` key/value pairs counts `n`, and a lone key left at the end
/// counts too; a leaf with no items counts none.
pub proof fn law_a_leaf_counts_its_keys(items: Seq<Value>)
    ensures
        2 * leaf_names(items).0 == items.len() || 2 * leaf_names(items).0 == items.len() + 1,
        items.len() == 0 ==> leaf_names(items).0 == 0,
        leaf_names(items).0 <= items.len(),
{
}

/// How many names a name tree holds below `node`, and whether one is the
/// lock's: `/Names` pairs at the leaves, `/Kids` above, no deeper than 32.
pub open spec fn names_in(s: Seq<u8>, rows: Seq<(u32, usize)>, node: Value, depth: nat) -> (nat, bool)
    decreases 33 - depth, 0int,
{
    if depth > 32 {
        (0, false)
    } else {
        match entries_of(node) {
            None => (0, false),
            Some(d) => {
                let here = match lookup(d, h_names()) {
                    Some(n) => match resolved(s, rows, n) {
                        Ok(Value::Array(items)) => leaf_names(items),
                        _ => (0, false),
                    },
                    None => (0, false),
                };
                let below = match lookup(d, h_kids()) {
                    Some(k) => match resolved(s, rows, k) {
                        Ok(Value::Array(kids)) => kids_names(s, rows, kids, 0, depth + 1),
                        _ => (0, false),
                    },
                    None => (0, false),
                };
                (here.0 + below.0, here.1 || below.1)
            },
        }
    }
}

/// The names below `kids[i..]`, each kid followed if it is a reference.
pub open spec fn kids_names(s: Seq<u8>, rows: Seq<(u32, usize)>, kids: Seq<Value>, i: int, depth: nat) -> (nat, bool)
    decreases 33 - depth, kids.len() - i + 1,
{
    if i < 0 || i >= kids.len() {
        (0, false)
    } else {
        let here = match resolved(s, rows, kids[i]) {
            Ok(k) => names_in(s, rows, k, depth),
            Err(_) => (0, false),
        };
        let rest = kids_names(s, rows, kids, i + 1, depth);
        (here.0 + rest.0, here.1 || rest.1)
    }
}

fn is_lock_name_in(name: &Object) -> (r: bool)
    ensures
        r == is_lock_name(name.value()),
{
    let raw = match name {
        Object::LiteralString(raw) => raw,
        Object::HexString(raw) => raw,
        _ => {
            return false;
        },
    };
    let spelled = crate::pdf::object::lossy_text(raw.as_slice());
    let hay = crate::text::chars_of(spelled.as_str());
    let needle = crate::text::chars_of("pagify-lock.json");
    proof {
        reveal_strlit("pagify-lock.json");
    }
    crate::text::chars_contain(&hay, &needle)
}

fn leaf_names_in(items: &Vec<Object>) -> (r: (usize, bool))
    ensures
        r.0 == leaf_names(crate::pdf::object::values_of(items@)).0,
        r.1 == leaf_names(crate::pdf::object::values_of(items@)).1,
{
    let ghost values = crate::pdf::object::values_of(items@);
    let n = items.len();
    let pairs = n / 2 + n % 2;
    let mut lock = false;
    let mut j: usize = 0;
    while j < pairs
        invariant
            n == items@.len(),
            pairs == (n + 1) / 2,
            values == crate::pdf::object::values_of(items@),
            j <= pairs,
            lock == exists|k: int| 0 <= k < j && is_lock_name(#[trigger] values[2 * k]),
        decreases pairs - j,
    {
        if is_lock_name_in(&items[2 * j]) {
            proof {
                assert(values[2 * j as int] == items@[2 * j as int].value());
            }
            lock = true;
        } else {
            proof {
                assert(values[2 * j as int] == items@[2 * j as int].value());
                assert forall|k: int| 0 <= k < j + 1 && is_lock_name(#[trigger] values[2 * k]) implies k < j by {}
            }
        }
        j = j + 1;
    }
    (pairs, lock)
}

proof fn lemma_capped_sum(a: nat, b: nat)
    ensures
        capped(capped(a) + capped(b)) == capped(a + b),
{
}

fn collect_names(file: &File, node: &Object, depth: usize) -> (r: (usize, bool))
    requires
        depth <= 33,
    ensures
        r.0 == capped(names_in(file.source(), file.rows(), node.value(), depth as nat).0),
        r.1 == names_in(file.source(), file.rows(), node.value(), depth as nat).1,
    decreases 33 - depth,
{
    if depth > 32 {
        return (0, false);
    }
    let dict = match node.as_dict() {
        Some(d) => d,
        None => {
            return (0, false);
        },
    };
    let names_word = hb_names();
    let (count, lock) = match dict.get(names_word.as_slice()) {
        Some(n) => match file.resolve(n) {
            Ok(Object::Array(items)) => {
                proof {
                    crate::pdf::object::lemma_array_value(items);
                }
                leaf_names_in(&items)
            },
            _ => (0, false),
        },
        None => (0, false),
    };
    let kids_word = hb_kids();
    let kids: Vec<Object> = match dict.get(kids_word.as_slice()) {
        Some(k) => match file.resolve(k) {
            Ok(Object::Array(items)) => {
                proof {
                    crate::pdf::object::lemma_array_value(items);
                }
                items
            },
            _ => Vec::new(),
        },
        None => Vec::new(),
    };
    let ghost kid_values = crate::pdf::object::values_of(kids@);
    let mut total = count;
    let mut any_lock = lock;
    let mut i: usize = kids.len();
    let ghost here = (count as nat, lock);
    proof {
        assert(kids_names(file.source(), file.rows(), kid_values, kids@.len() as int, (depth + 1) as nat) == (0nat, false));
    }
    // Summed from the last kid back, which gives the same total.
    while i > 0
        invariant
            depth <= 32,
            i <= kids@.len(),
            kid_values == crate::pdf::object::values_of(kids@),
            total == capped(here.0 + kids_names(file.source(), file.rows(), kid_values, i as int, (depth + 1) as nat).0),
            any_lock == (here.1 || kids_names(file.source(), file.rows(), kid_values, i as int, (depth + 1) as nat).1),
        decreases i,
    {
        i = i - 1;
        let (c, l) = match file.resolve(&kids[i]) {
            Ok(kid) => collect_names(file, &kid, depth + 1),
            Err(_) => (0, false),
        };
        proof {
            assert(kid_values[i as int] == kids@[i as int].value());
            lemma_capped_sum(c as nat, total as nat);
        }
        total = total.saturating_add(c);
        any_lock = any_lock || l;
    }
    proof {
        if kids@.len() == 0 {
            assert(kid_values.len() == 0);
        }
    }
    (total, any_lock)
}


/// How many files a `/Names` dictionary carries inside, and whether one of
/// them is the lock's.
pub open spec fn attachments(s: Seq<u8>, rows: Seq<(u32, usize)>, names: Seq<(Seq<u8>, Value)>) -> (nat, bool) {
    match lookup(names, h_embedded_files()) {
        Some(e) => match resolved(s, rows, e) {
            Ok(tree) => names_in(s, rows, tree, 0),
            Err(_) => (0, false),
        },
        None => (0, false),
    }
}

fn count_attachments(file: &File, names: &Dict) -> (r: (usize, bool))
    ensures
        r.0 == capped(attachments(file.source(), file.rows(), names.entries()).0),
        r.1 == attachments(file.source(), file.rows(), names.entries()).1,
{
    let word = hb_embedded_files();
    let tree = match names.get(word.as_slice()) {
        Some(e) => match file.resolve(e) {
            Ok(t) => t,
            Err(_) => {
                return (0, false);
            },
        },
        None => {
            return (0, false);
        },
    };
    collect_names(file, &tree, 0)
}

/// A dictionary found by following a trailer or dictionary entry.
pub open spec fn dictionary_at(s: Seq<u8>, rows: Seq<(u32, usize)>, entries: Seq<(Seq<u8>, Value)>, key: Seq<u8>)
    -> Option<Seq<(Seq<u8>, Value)>>
{
    match lookup(entries, key) {
        Some(v) => match resolved(s, rows, v) {
            Ok(x) => entries_of(x),
            Err(_) => None,
        },
        None => None,
    }
}

fn dictionary_in(file: &File, entries: &Dict, key: &[u8]) -> (r: Option<Dict>)
    ensures
        match dictionary_at(file.source(), file.rows(), entries.entries(), key@) {
            Some(d) => r matches Some(e) && e.entries() == d,
            None => r is None,
        },
{
    match entries.get(key) {
        Some(v) => match file.resolve(v) {
            Ok(x) => match x.as_dict() {
                Some(d) => Some(d.duplicate()),
                None => None,
            },
            Err(_) => None,
        },
        None => None,
    }
}

/// What a survey of a file finds.
pub open spec fn surveyed(s: Seq<u8>, rows: Seq<(u32, usize)>, trailer: Seq<(Seq<u8>, Value)>, bytes: Seq<u8>,
    h: Hidden) -> bool
{
    let root = dictionary_at(s, rows, trailer, h_root());
    let names = match root {
        Some(r) => dictionary_at(s, rows, r, h_names()),
        None => None,
    };
    let found = reachable(s, rows, trailer);
    &&& h.revisions == revision_count(bytes)
    &&& texts(h.information@) == match dictionary_at(s, rows, trailer, h_info()) {
        Some(info) => info.map_values(|e: (Seq<u8>, Value)| utf8_lossy(e.0)),
        None => Seq::empty(),
    }
    &&& h.xmp == (root matches Some(r) && lookup(r, h_metadata()) is Some)
    &&& h.embedded_files == match names {
        Some(n) => less(capped(attachments(s, rows, n).0) as int, if attachments(s, rows, n).1 { 1 } else { 0 }),
        None => 0,
    }
    &&& h.keeps_lock == (names matches Some(n) && attachments(s, rows, n).1)
    &&& h.unreachable == count_outside(rows, found)
    &&& h.javascript == ((names matches Some(n) && lookup(n, h_javascript()) is Some)
        || exists|i: int| 0 <= i < rows.len() && found.contains(#[trigger] rows[i].0)
            && (object_at(s, rows, rows[i].0) matches Ok((v, _)) && holds_script(s, rows, v, 0)))
}

/// Read what a file carries beyond its pages. Changes nothing.
///
/// **Script is wherever an action can run it**, not only in the name tree:
/// every reachable object is searched for an action that runs script, so
/// what this reports is what [`strip`] takes out.
pub fn survey(file: &File, bytes: &[u8]) -> (r: Result<Hidden>)
    ensures
        r matches Ok(h) && surveyed(file.source(), file.rows(), file.trailer_entries(), bytes@, h),
{
    let mut found = Hidden::default();
    // Each save writes one `startxref`, so counting them counts revisions.
    found.revisions = count_revisions(bytes);

    let info_word = hb_info();
    if let Some(info) = dictionary_in(file, file.trailer(), info_word.as_slice()) {
        let mut keys: Vec<String> = Vec::new();
        let mut i: usize = 0;
        while i < info.0.len()
            invariant
                i <= info.0@.len(),
                texts(keys@) == info.entries().subrange(0, i as int).map_values(
                    |e: (Seq<u8>, Value)| utf8_lossy(e.0)),
            decreases info.0.len() - i,
        {
            let text = crate::pdf::object::lossy_text(info.0[i].0.as_slice());
            let ghost before = texts(keys@);
            keys.push(text);
            proof {
                assert(texts(keys@) =~= before.push(text@));
                assert(info.entries()[i as int].0 == info.0@[i as int].0@);
                assert(info.entries().subrange(0, i + 1).map_values(|e: (Seq<u8>, Value)| utf8_lossy(e.0))
                    =~= info.entries().subrange(0, i as int).map_values(|e: (Seq<u8>, Value)| utf8_lossy(e.0))
                        .push(utf8_lossy(info.entries()[i as int].0)));
            }
            i = i + 1;
        }
        proof {
            assert(info.entries().subrange(0, i as int) =~= info.entries());
        }
        found.information = keys;
    } else {
        proof {
            assert(texts(found.information@) =~= Seq::<Seq<char>>::empty());
        }
    }

    let root_word = hb_root();
    let root = dictionary_in(file, file.trailer(), root_word.as_slice());
    let mut names_script = false;
    if let Some(root) = &root {
        let metadata_word = hb_metadata();
        found.xmp = root.get(metadata_word.as_slice()).is_some();
        let names_word = hb_names();
        if let Some(names) = dictionary_in(file, root, names_word.as_slice()) {
            let js_word = hb_javascript();
            names_script = names.get(js_word.as_slice()).is_some();
            let (all, lock) = count_attachments(file, &names);
            found.embedded_files = all.saturating_sub(if lock { 1 } else { 0 });
            found.keeps_lock = lock;
        }
    }

    let reachable_set = reachable_from_root(file);
    let numbers = file.numbers();
    let ghost rows = file.rows();
    let mut unreachable: usize = 0;
    let mut script = names_script;
    let mut i: usize = 0;
    while i < numbers.len()
        invariant
            rows == file.rows(),
            numbers@ == rows.map_values(|row: (u32, usize)| row.0),
            i <= numbers@.len(),
            unreachable == count_outside(rows.subrange(0, i as int), reachable_set@),
            unreachable <= i,
            script == (names_script || exists|j: int| 0 <= j < i && reachable_set@.contains(#[trigger] rows[j].0)
                && (object_at(file.source(), rows, rows[j].0) matches Ok((v, _))
                && holds_script(file.source(), rows, v, 0))),
        decreases numbers.len() - i,
    {
        let n = numbers[i];
        proof {
            assert(rows.subrange(0, i + 1).drop_last() =~= rows.subrange(0, i as int));
            assert(n == rows[i as int].0);
        }
        if !reachable_set.contains(&n) {
            unreachable = unreachable + 1;
        } else if !script {
            if let Ok(object) = file.object(n) {
                if holds_script_in(file, &object, 0) {
                    script = true;
                }
            }
        }
        i = i + 1;
    }
    proof {
        assert(rows.subrange(0, i as int) =~= rows);
    }
    found.unreachable = unreachable;
    found.javascript = script;
    Ok(found)
}


// ---------------------------------------------------------------------------
// Taking script out.

/// The keys an action hangs from, besides `/AA`: each holds one action, or
/// an array of them.
pub open spec fn is_action_key(k: Seq<u8>) -> bool {
    k == h_a() || k == h_open_action() || k == h_next()
}

/// The entries whose action does not run script, in order.
pub open spec fn entries_without_script(s: Seq<u8>, rows: Seq<(u32, usize)>, t: Seq<(Seq<u8>, Value)>)
    -> Seq<(Seq<u8>, Value)>
    decreases t.len(),
{
    if t.len() == 0 {
        Seq::empty()
    } else {
        let rest = entries_without_script(s, rows, t.drop_last());
        if runs_script(s, rows, t.last().1) { rest } else { rest.push(t.last()) }
    }
}

/// The actions that do not run script, in order.
pub open spec fn actions_without_script(s: Seq<u8>, rows: Seq<(u32, usize)>, a: Seq<Value>) -> Seq<Value>
    decreases a.len(),
{
    if a.len() == 0 {
        Seq::empty()
    } else {
        let rest = actions_without_script(s, rows, a.drop_last());
        if runs_script(s, rows, a.last()) { rest } else { rest.push(a.last()) }
    }
}

/// A value with every action that runs script taken out of it, and whether
/// anything was. References are not followed, and nothing deeper than 32 is
/// looked at.
pub open spec fn scrubbed_value(s: Seq<u8>, rows: Seq<(u32, usize)>, v: Value, depth: nat) -> (Value, bool)
    decreases 33 - depth, 1int, 0int,
{
    if depth > 32 {
        (v, false)
    } else {
        match v {
            Value::Dict(d) => {
                let (d2, c) = scrubbed_entries(s, rows, d, depth);
                (Value::Dict(d2), c)
            },
            // A stream's bytes are never touched; its dictionary is a
            // dictionary.
            Value::Stream(d, a, b) => {
                let (d2, c) = scrubbed_entries(s, rows, d, depth);
                (Value::Stream(d2, a, b), c)
            },
            Value::Array(items) => {
                let (kept, c) = scrubbed_items(s, rows, items, depth);
                (Value::Array(kept), c)
            },
            other => (other, false),
        }
    }
}

/// An array's items scrubbed one after another, one level deeper.
pub open spec fn scrubbed_items(s: Seq<u8>, rows: Seq<(u32, usize)>, items: Seq<Value>, depth: nat)
    -> (Seq<Value>, bool)
    decreases 33 - depth, 0int, items.len() + 1,
{
    if items.len() == 0 || depth > 32 {
        (Seq::empty(), false)
    } else {
        let (before, c1) = scrubbed_items(s, rows, items.drop_last(), depth);
        let (last, c2) = scrubbed_value(s, rows, items.last(), depth + 1);
        (before.push(last), c1 || c2)
    }
}

/// A dictionary's entries scrubbed one after another.
pub open spec fn scrubbed_entries(s: Seq<u8>, rows: Seq<(u32, usize)>, d: Seq<(Seq<u8>, Value)>, depth: nat)
    -> (Seq<(Seq<u8>, Value)>, bool)
    decreases 33 - depth, 0int, d.len() + 1,
{
    if d.len() == 0 {
        (Seq::empty(), false)
    } else {
        let (before, c1) = scrubbed_entries(s, rows, d.drop_last(), depth);
        let (last, c2) = scrubbed_entry(s, rows, d.last().0, d.last().1, depth);
        (before + last, c1 || c2)
    }
}

/// One entry scrubbed: none, one, or the entry with its value scrubbed.
/// `/AA` keeps the triggers whose action is not script, and goes when none
/// are; `/A`, `/OpenAction` and `/Next` lose the actions that run script,
/// and go when nothing is left.
pub open spec fn scrubbed_entry(s: Seq<u8>, rows: Seq<(u32, usize)>, key: Seq<u8>, value: Value, depth: nat)
    -> (Seq<(Seq<u8>, Value)>, bool)
    decreases 33 - depth, 0int, 0int,
{
    if depth > 32 {
        (seq![(key, value)], false)
    } else {
        let plain = (seq![(key, scrubbed_value(s, rows, value, depth + 1).0)],
            scrubbed_value(s, rows, value, depth + 1).1);
        if key == h_aa() {
            match resolved(s, rows, value) {
                Ok(Value::Dict(triggers)) => {
                    let kept = entries_without_script(s, rows, triggers);
                    if kept.len() != triggers.len() {
                        (if kept.len() > 0 { seq![(key, Value::Dict(kept))] } else { Seq::empty() }, true)
                    } else {
                        plain
                    }
                },
                _ => (seq![(key, value)], false),
            }
        } else if is_action_key(key) {
            match resolved(s, rows, value) {
                Ok(Value::Array(actions)) => {
                    let kept = actions_without_script(s, rows, actions);
                    if kept.len() != actions.len() {
                        (if kept.len() > 0 { seq![(key, Value::Array(kept))] } else { Seq::empty() }, true)
                    } else {
                        plain
                    }
                },
                _ => if runs_script(s, rows, value) { (Seq::empty(), true) } else { plain },
            }
        } else {
            plain
        }
    }
}

fn triggers_kept(file: &File, triggers: &Dict) -> (r: Vec<(Vec<u8>, Object)>)
    ensures
        Dict(r).entries() == entries_without_script(file.source(), file.rows(), triggers.entries()),
{
    let mut out: Vec<(Vec<u8>, Object)> = Vec::new();
    let mut i: usize = 0;
    while i < triggers.0.len()
        invariant
            i <= triggers.0@.len(),
            Dict(out).entries() == entries_without_script(file.source(), file.rows(),
                triggers.entries().subrange(0, i as int)),
        decreases triggers.0.len() - i,
    {
        proof {
            assert(triggers.entries().subrange(0, i + 1).drop_last() =~= triggers.entries().subrange(0, i as int));
            assert(triggers.entries()[i as int] == (triggers.0@[i as int].0@, triggers.0@[i as int].1.value()));
        }
        if !runs_script_in(file, &triggers.0[i].1) {
            let ghost before = Dict(out).entries();
            let key = vstd::slice::slice_to_vec(triggers.0[i].0.as_slice());
            let value = triggers.0[i].1.duplicate();
            let ghost entry = (key@, value.value());
            out.push((key, value));
            proof {
                assert(Dict(out).entries() =~= before.push(entry));
            }
        }
        i = i + 1;
    }
    proof {
        assert(triggers.entries().subrange(0, i as int) =~= triggers.entries());
    }
    out
}

fn actions_kept(file: &File, actions: &Vec<Object>) -> (r: Vec<Object>)
    ensures
        crate::pdf::object::values_of(r@) == actions_without_script(file.source(), file.rows(),
            crate::pdf::object::values_of(actions@)),
{
    let ghost all = crate::pdf::object::values_of(actions@);
    let mut out: Vec<Object> = Vec::new();
    let mut i: usize = 0;
    while i < actions.len()
        invariant
            i <= actions@.len(),
            all == crate::pdf::object::values_of(actions@),
            crate::pdf::object::values_of(out@) == actions_without_script(file.source(), file.rows(),
                all.subrange(0, i as int)),
        decreases actions.len() - i,
    {
        proof {
            assert(all.subrange(0, i + 1).drop_last() =~= all.subrange(0, i as int));
        }
        if !runs_script_in(file, &actions[i]) {
            let ghost before = crate::pdf::object::values_of(out@);
            out.push(actions[i].duplicate());
            proof {
                assert(crate::pdf::object::values_of(out@) =~= before.push(all[i as int]));
            }
        }
        i = i + 1;
    }
    proof {
        assert(all.subrange(0, i as int) =~= all);
    }
    out
}

fn scrubbed(file: &File, object: &Object, depth: usize) -> (r: (Object, bool))
    requires
        depth <= 33,
    ensures
        r.0.value() == scrubbed_value(file.source(), file.rows(), object.value(), depth as nat).0,
        r.1 == scrubbed_value(file.source(), file.rows(), object.value(), depth as nat).1,
    decreases 33 - depth, 2nat,
{
    if depth > 32 {
        return (object.duplicate(), false);
    }
    match object {
        Object::Dict(dict) => {
            let (d, changed) = scrubbed_dict(file, dict, depth);
            (Object::Dict(d), changed)
        },
        Object::Stream(dict, data) => {
            let (d, changed) = scrubbed_dict(file, dict, depth);
            (Object::Stream(d, std::ops::Range { start: data.start, end: data.end }), changed)
        },
        Object::Array(items) => {
            let ghost values = object.value()->Array_0;
            let mut changed = false;
            let mut out: Vec<Object> = Vec::new();
            let mut i: usize = 0;
            while i < items.len()
                invariant
                    depth <= 32,
                    values == object.value()->Array_0,
                    values.len() == items@.len(),
                    forall|j: int| 0 <= j < values.len() ==> #[trigger] values[j] == items@[j].value(),
                    i <= items@.len(),
                    crate::pdf::object::values_of(out@)
                        == scrubbed_items(file.source(), file.rows(), values.subrange(0, i as int), depth as nat).0,
                    changed == scrubbed_items(file.source(), file.rows(), values.subrange(0, i as int), depth as nat).1,
                decreases items.len() - i,
            {
                let (item, c) = scrubbed(file, &items[i], depth + 1);
                proof {
                    assert(values[i as int] == items@[i as int].value());
                    assert(values.subrange(0, i + 1).drop_last() =~= values.subrange(0, i as int));
                }
                let ghost before = crate::pdf::object::values_of(out@);
                changed = changed || c;
                out.push(item);
                proof {
                    assert(crate::pdf::object::values_of(out@) =~= before.push(item.value()));
                }
                i = i + 1;
            }
            let r = Object::Array(out);
            proof {
                crate::pdf::object::lemma_array_value(out);
                assert(values.subrange(0, i as int) =~= values);
            }
            (r, changed)
        },
        other => (other.duplicate(), false),
    }
}

fn scrubbed_dict(file: &File, dict: &Dict, depth: usize) -> (r: (Dict, bool))
    requires
        depth <= 32,
    ensures
        r.0.entries() == scrubbed_entries(file.source(), file.rows(), dict.entries(), depth as nat).0,
        r.1 == scrubbed_entries(file.source(), file.rows(), dict.entries(), depth as nat).1,
    decreases 33 - depth, 1nat,
{
    let mut out = Dict(Vec::new());
    let mut changed = false;
    let mut i: usize = 0;
    let aa = hb_aa();
    let a = hb_a();
    let open_action = hb_open_action();
    let next = hb_next();
    while i < dict.0.len()
        invariant
            depth <= 32,
            aa@ == h_aa(),
            a@ == h_a(),
            open_action@ == h_open_action(),
            next@ == h_next(),
            i <= dict.0@.len(),
            out.entries() == scrubbed_entries(file.source(), file.rows(), dict.entries().subrange(0, i as int),
                depth as nat).0,
            changed == scrubbed_entries(file.source(), file.rows(), dict.entries().subrange(0, i as int),
                depth as nat).1,
        decreases dict.0.len() - i,
    {
        let key = &dict.0[i].0;
        let value = &dict.0[i].1;
        let ghost before = out.entries();
        proof {
            assert(dict.entries().subrange(0, i + 1).drop_last() =~= dict.entries().subrange(0, i as int));
            assert(dict.entries()[i as int] == (key@, value.value()));
        }
        let (more, c) = scrubbed_entry_in(file, key, value, depth, &aa, &a, &open_action, &next);
        if let Some((k, v)) = more {
            out.append(k, v);
        }
        proof {
            assert(out.entries() =~= before + scrubbed_entry(file.source(), file.rows(), key@, value.value(),
                depth as nat).0);
        }
        changed = changed || c;
        i = i + 1;
    }
    proof {
        assert(dict.entries().subrange(0, i as int) =~= dict.entries());
    }
    (out, changed)
}

fn scrubbed_entry_in(file: &File, key: &Vec<u8>, value: &Object, depth: usize, aa: &Vec<u8>, a: &Vec<u8>,
    open_action: &Vec<u8>, next: &Vec<u8>) -> (r: (Option<(Vec<u8>, Object)>, bool))
    requires
        depth <= 32,
        aa@ == h_aa(),
        a@ == h_a(),
        open_action@ == h_open_action(),
        next@ == h_next(),
    ensures
        match r.0 {
            Some((k, v)) => seq![(k@, v.value())],
            None => Seq::empty(),
        } == scrubbed_entry(file.source(), file.rows(), key@, value.value(), depth as nat).0,
        r.1 == scrubbed_entry(file.source(), file.rows(), key@, value.value(), depth as nat).1,
    decreases 33 - depth, 0nat,
{
    let the_key = vstd::slice::slice_to_vec(key.as_slice());
    if crate::pdf::object::same_bytes(key.as_slice(), aa.as_slice()) {
        // One action per trigger: keep the triggers whose action is not
        // script, drop the entry when none are.
        let triggers = match file.resolve(value) {
            Ok(Object::Dict(t)) => t,
            _ => {
                return (Some((the_key, value.duplicate())), false);
            },
        };
        let kept = triggers_kept(file, &triggers);
        if kept.len() != triggers.0.len() {
            if kept.len() > 0 {
                return (Some((the_key, Object::Dict(Dict(kept)))), true);
            }
            return (None, true);
        }
    } else if crate::pdf::object::same_bytes(key.as_slice(), a.as_slice())
        || crate::pdf::object::same_bytes(key.as_slice(), open_action.as_slice())
        || crate::pdf::object::same_bytes(key.as_slice(), next.as_slice()) {
        match file.resolve(value) {
            Ok(Object::Array(actions)) => {
                proof {
                    crate::pdf::object::lemma_array_value(actions);
                }
                let kept = actions_kept(file, &actions);
                if kept.len() != actions.len() {
                    if kept.len() > 0 {
                        let r = Object::Array(kept);
                        proof {
                            crate::pdf::object::lemma_array_value(kept);
                        }
                        return (Some((the_key, r)), true);
                    }
                    return (None, true);
                }
            },
            Ok(other) => {
                proof {
                    assert(!(other.value() is Array));
                }
                if runs_script_in(file, value) {
                    return (None, true);
                }
            },
            Err(_) => {
                if runs_script_in(file, value) {
                    return (None, true);
                }
            },
        }
    }
    let (v, c) = scrubbed(file, value, depth + 1);
    (Some((the_key, v)), c)
}


// ---------------------------------------------------------------------------
// What the lock keeps.

/// The `[name value]` pairs among the first `n` whole pairs of a leaf that
/// are the lock's own.
pub open spec fn lock_leaf(items: Seq<Value>, n: int) -> Seq<Value>
    decreases n,
{
    if n <= 0 {
        Seq::empty()
    } else {
        lock_leaf(items, n - 1) + if is_lock_name(items[2 * n - 2]) {
            seq![items[2 * n - 2], items[2 * n - 1]]
        } else {
            Seq::empty()
        }
    }
}

/// The lock's `[name value]` pairs in a name tree below `node`: a leaf's
/// first, then each kid's in order, no deeper than 32.
pub open spec fn lock_entries_of(s: Seq<u8>, rows: Seq<(u32, usize)>, node: Value, depth: nat) -> Seq<Value>
    decreases 33 - depth, 0int,
{
    if depth > 32 {
        Seq::empty()
    } else {
        match entries_of(node) {
            None => Seq::empty(),
            Some(d) => {
                let here = match lookup(d, h_names()) {
                    Some(n) => match resolved(s, rows, n) {
                        Ok(Value::Array(items)) => lock_leaf(items, (items.len() / 2) as int),
                        _ => Seq::empty(),
                    },
                    None => Seq::empty(),
                };
                let below = match lookup(d, h_kids()) {
                    Some(k) => match resolved(s, rows, k) {
                        Ok(Value::Array(kids)) => kids_locks(s, rows, kids, 0, depth + 1),
                        _ => Seq::empty(),
                    },
                    None => Seq::empty(),
                };
                here + below
            },
        }
    }
}

/// The lock's pairs below `kids[i..]`, in order.
pub open spec fn kids_locks(s: Seq<u8>, rows: Seq<(u32, usize)>, kids: Seq<Value>, i: int, depth: nat) -> Seq<Value>
    decreases 33 - depth, kids.len() - i + 1,
{
    if i < 0 || i >= kids.len() {
        Seq::empty()
    } else {
        let here = match resolved(s, rows, kids[i]) {
            Ok(k) => lock_entries_of(s, rows, k, depth),
            Err(_) => Seq::empty(),
        };
        here + kids_locks(s, rows, kids, i + 1, depth)
    }
}

fn lock_leaf_in(items: &Vec<Object>, out: &mut Vec<Object>)
    ensures
        crate::pdf::object::values_of(final(out)@) == crate::pdf::object::values_of(old(out)@)
            + lock_leaf(crate::pdf::object::values_of(items@), (items@.len() / 2) as int),
{
    let ghost values = crate::pdf::object::values_of(items@);
    let ghost start = crate::pdf::object::values_of(out@);
    let pairs = items.len() / 2;
    let mut j: usize = 0;
    while j < pairs
        invariant
            pairs == items@.len() / 2,
            items@.len() <= usize::MAX,
            values == crate::pdf::object::values_of(items@),
            j <= pairs,
            crate::pdf::object::values_of(out@) == start + lock_leaf(values, j as int),
        decreases pairs - j,
    {
        proof {
            assert(2 * j + 1 < items@.len());
            assert(values[2 * j as int] == items@[2 * j as int].value());
            assert(values[2 * j + 1] == items@[2 * j + 1].value());
        }
        if is_lock_name_in(&items[2 * j]) {
            let ghost before = crate::pdf::object::values_of(out@);
            out.push(items[2 * j].duplicate());
            out.push(items[2 * j + 1].duplicate());
            proof {
                assert(crate::pdf::object::values_of(out@) =~= before + seq![values[2 * j as int], values[2 * j + 1]]);
            }
        }
        proof {
            assert(lock_leaf(values, j + 1) == lock_leaf(values, j as int) + if is_lock_name(values[2 * j as int]) {
                seq![values[2 * j as int], values[2 * j + 1]]
            } else {
                Seq::<Value>::empty()
            });
        }
        j = j + 1;
    }
}

/// The `[name value]` pairs in an attachment tree that are the lock's own.
fn lock_entries(file: &File, node: &Object, out: &mut Vec<Object>, depth: usize)
    requires
        depth <= 33,
    ensures
        crate::pdf::object::values_of(final(out)@) == crate::pdf::object::values_of(old(out)@)
            + lock_entries_of(file.source(), file.rows(), node.value(), depth as nat),
    decreases 33 - depth,
{
    if depth > 32 {
        proof {
            assert(crate::pdf::object::values_of(out@) =~= crate::pdf::object::values_of(out@) + Seq::<Value>::empty());
        }
        return;
    }
    let ghost start = crate::pdf::object::values_of(out@);
    let dict = match node.as_dict() {
        Some(d) => d,
        None => {
            proof {
                assert(crate::pdf::object::values_of(out@) =~= start + Seq::<Value>::empty());
            }
            return;
        },
    };
    let names_word = hb_names();
    match dict.get(names_word.as_slice()) {
        Some(n) => match file.resolve(n) {
            Ok(Object::Array(items)) => {
                proof {
                    crate::pdf::object::lemma_array_value(items);
                }
                lock_leaf_in(&items, out);
            },
            _ => {},
        },
        None => {},
    }
    let ghost after_leaf = crate::pdf::object::values_of(out@);
    let kids_word = hb_kids();
    let kids: Vec<Object> = match dict.get(kids_word.as_slice()) {
        Some(k) => match file.resolve(k) {
            Ok(Object::Array(items)) => {
                proof {
                    crate::pdf::object::lemma_array_value(items);
                }
                items
            },
            _ => Vec::new(),
        },
        None => Vec::new(),
    };
    let ghost kid_values = crate::pdf::object::values_of(kids@);
    let mut i: usize = 0;
    while i < kids.len()
        invariant
            depth <= 32,
            i <= kids@.len(),
            kid_values == crate::pdf::object::values_of(kids@),
            crate::pdf::object::values_of(out@) + kids_locks(file.source(), file.rows(), kid_values, i as int,
                (depth + 1) as nat) == after_leaf + kids_locks(file.source(), file.rows(), kid_values, 0,
                (depth + 1) as nat),
        decreases kids.len() - i,
    {
        let ghost before = crate::pdf::object::values_of(out@);
        proof {
            assert(kid_values[i as int] == kids@[i as int].value());
        }
        match file.resolve(&kids[i]) {
            Ok(kid) => lock_entries(file, &kid, out, depth + 1),
            Err(_) => {},
        }
        proof {
            let rest = kids_locks(file.source(), file.rows(), kid_values, i + 1, (depth + 1) as nat);
            assert(crate::pdf::object::values_of(out@) + rest =~= before + kids_locks(file.source(), file.rows(),
                kid_values, i as int, (depth + 1) as nat));
        }
        i = i + 1;
    }
    proof {
        assert(crate::pdf::object::values_of(out@) =~= crate::pdf::object::values_of(out@) + kids_locks(
            file.source(), file.rows(), kid_values, i as int, (depth + 1) as nat));
        assert(crate::pdf::object::values_of(out@) =~= start + lock_entries_of(file.source(), file.rows(),
            node.value(), depth as nat));
    }
}

/// The `/Names` entries without the script and without any attachment but
/// the lock's, which is kept as a flat tree of its own entries.
pub open spec fn names_kept_entries(s: Seq<u8>, rows: Seq<(u32, usize)>, names: Seq<(Seq<u8>, Value)>)
    -> Seq<(Seq<u8>, Value)>
    decreases names.len(),
{
    if names.len() == 0 {
        Seq::empty()
    } else {
        let rest = names_kept_entries(s, rows, names.drop_last());
        let (key, value) = names.last();
        if key == h_javascript() {
            rest
        } else if key == h_embedded_files() {
            match resolved(s, rows, value) {
                Ok(tree) => {
                    let lock = lock_entries_of(s, rows, tree, 0);
                    if lock.len() == 0 {
                        rest
                    } else {
                        rest.push((key, Value::Dict(seq![(h_names(), Value::Array(lock))])))
                    }
                },
                Err(_) => rest,
            }
        } else {
            rest.push((key, value))
        }
    }
}

/// The `/Names` dictionary without its script and without any attachment
/// but the lock's; `None` when nothing in it is left.
fn names_kept(file: &File, names: &Dict) -> (r: Option<Dict>)
    ensures
        names_kept_entries(file.source(), file.rows(), names.entries()).len() == 0 ==> r is None,
        names_kept_entries(file.source(), file.rows(), names.entries()).len() > 0 ==> (r matches Some(d)
            && d.entries() == names_kept_entries(file.source(), file.rows(), names.entries())),
{
    let js = hb_javascript();
    let embedded = hb_embedded_files();
    let mut out = Dict(Vec::new());
    let mut i: usize = 0;
    while i < names.0.len()
        invariant
            js@ == h_javascript(),
            embedded@ == h_embedded_files(),
            i <= names.0@.len(),
            out.entries() == names_kept_entries(file.source(), file.rows(), names.entries().subrange(0, i as int)),
        decreases names.0.len() - i,
    {
        let key = &names.0[i].0;
        let value = &names.0[i].1;
        proof {
            assert(names.entries().subrange(0, i + 1).drop_last() =~= names.entries().subrange(0, i as int));
            assert(names.entries()[i as int] == (key@, value.value()));
        }
        if crate::pdf::object::same_bytes(key.as_slice(), js.as_slice()) {
        } else if crate::pdf::object::same_bytes(key.as_slice(), embedded.as_slice()) {
            if let Ok(tree) = file.resolve(value) {
                let mut lock: Vec<Object> = Vec::new();
                lock_entries(file, &tree, &mut lock, 0);
                proof {
                    assert(crate::pdf::object::values_of(Seq::<Object>::empty()) =~= Seq::<Value>::empty());
                    assert(crate::pdf::object::values_of(lock@) =~= lock_entries_of(file.source(), file.rows(),
                        tree.value(), 0));
                }
                if lock.len() > 0 {
                    // A flat tree holding only the lock's entry: the shape
                    // every reader accepts, and the whole of what is kept.
                    let mut leaf = Dict(Vec::new());
                    proof {
                        crate::pdf::object::lemma_array_value(lock);
                    }
                    leaf.append(hb_names(), Object::Array(lock));
                    proof {
                        assert(leaf.entries() =~= seq![(h_names(), Value::Array(lock_entries_of(file.source(),
                            file.rows(), tree.value(), 0)))]);
                    }
                    out.append(vstd::slice::slice_to_vec(key.as_slice()), Object::Dict(leaf));
                }
            }
        } else {
            out.append(vstd::slice::slice_to_vec(key.as_slice()), value.duplicate());
        }
        i = i + 1;
    }
    proof {
        assert(names.entries().subrange(0, i as int) =~= names.entries());
    }
    if out.0.len() > 0 { Some(out) } else { None }
}


// ---------------------------------------------------------------------------
// Taking it out.

/// The catalogue's number, when the trailer names it by reference.
pub open spec fn root_number(trailer: Seq<(Seq<u8>, Value)>) -> Option<u32> {
    match lookup(trailer, h_root()) {
        Some(Value::Reference(n, _)) => Some(n),
        _ => None,
    }
}

/// The catalogue without its metadata pointer, its script, its attachments
/// but the lock's, and its actions that run script.
pub open spec fn cleaned_root(s: Seq<u8>, rows: Seq<(u32, usize)>, root: Seq<(Seq<u8>, Value)>) -> Value {
    let r1 = remove_entry(root, h_metadata());
    let r2 = match dictionary_at(s, rows, r1, h_names()) {
        Some(names) => {
            let kept = names_kept_entries(s, rows, names);
            if kept.len() > 0 { set_entry(r1, h_names(), Value::Dict(kept)) } else { remove_entry(r1, h_names()) }
        },
        None => r1,
    };
    scrubbed_value(s, rows, Value::Dict(r2), 0).0
}

/// The catalogue, cleaned, when the trailer names a dictionary as one.
pub open spec fn root_rewrite(s: Seq<u8>, rows: Seq<(u32, usize)>, trailer: Seq<(Seq<u8>, Value)>) -> Map<u32, Value> {
    match root_number(trailer) {
        Some(n) => match object_at(s, rows, n) {
            Ok((Value::Dict(root), _)) => Map::empty().insert(n, cleaned_root(s, rows, root)),
            _ => Map::empty(),
        },
        None => Map::empty(),
    }
}

/// The objects a clean rewrites, among the table's first `i`: the
/// catalogue, and every other object whose script actions came out.
pub open spec fn rewrites_upto(s: Seq<u8>, rows: Seq<(u32, usize)>, trailer: Seq<(Seq<u8>, Value)>, i: int)
    -> Map<u32, Value>
    decreases i,
{
    if i <= 0 {
        root_rewrite(s, rows, trailer)
    } else {
        let m = rewrites_upto(s, rows, trailer, i - 1);
        let n = rows[i - 1].0;
        if root_number(trailer) == Some(n) {
            m
        } else {
            match object_at(s, rows, n) {
                Ok((v, _)) => if scrubbed_value(s, rows, v, 0).1 { m.insert(n, scrubbed_value(s, rows, v, 0).0) } else { m },
                Err(_) => m,
            }
        }
    }
}

/// The body a rewritten object is written as: a stream keeps its data,
/// taken from the file where it lies, under its new dictionary; anything
/// else is written as it now is.
pub open spec fn body_of(s: Seq<u8>, v: Value) -> Seq<u8> {
    match v {
        Value::Stream(d, start, end) => if 0 <= start <= end <= s.len() {
            crate::pdf::reader::stream_written(d, s.subrange(start, end))
        } else {
            written(v)
        },
        other => written(other),
    }
}

/// The rewritten objects among the table's first `i`, in the table's order,
/// each with its new body.
pub open spec fn rewritten_bodies(s: Seq<u8>, rows: Seq<(u32, usize)>, m: Map<u32, Value>, i: int) -> Seq<(u32, Seq<u8>)>
    decreases i,
{
    if i <= 0 {
        Seq::empty()
    } else {
        rewritten_bodies(s, rows, m, i - 1) + if m.contains_key(rows[i - 1].0) {
            seq![(rows[i - 1].0, body_of(s, m[rows[i - 1].0]))]
        } else {
            Seq::empty()
        }
    }
}

/// The bytes a rewritten object is written as, its stream data kept.
fn body_bytes(file: &File, object: &Object) -> (r: Vec<u8>)
    ensures
        r@ == body_of(file.source(), object.value()),
{
    match object {
        Object::Stream(dict, range) => {
            let bytes = file.bytes();
            if range.start <= range.end && range.end <= bytes.len() {
                let data = vstd::slice::slice_subrange(bytes, range.start, range.end);
                crate::pdf::reader::write_stream(dict, data)
            } else {
                let mut body: Vec<u8> = Vec::new();
                crate::pdf::reader::write_object(&mut body, object);
                body
            }
        },
        _ => {
            let mut body: Vec<u8> = Vec::new();
            crate::pdf::reader::write_object(&mut body, object);
            body
        },
    }
}

/// [`walked`], reading rewritten objects where there are any.
pub open spec fn walked_through(s: Seq<u8>, rows: Seq<(u32, usize)>, m: Map<u32, Value>, number: u32, seen: Set<u32>,
    depth: nat) -> Set<u32>
    decreases 97 - depth, 0int,
{
    if depth > 96 || seen.contains(number) {
        seen
    } else if m.contains_key(number) {
        walked_through_all(s, rows, m, refs_of(m[number]), 0, seen.insert(number), depth + 1)
    } else {
        match object_at(s, rows, number) {
            Ok((v, _)) => walked_through_all(s, rows, m, refs_of(v), 0, seen.insert(number), depth + 1),
            Err(_) => seen.insert(number),
        }
    }
}

pub open spec fn walked_through_all(s: Seq<u8>, rows: Seq<(u32, usize)>, m: Map<u32, Value>, refs: Seq<u32>, i: int,
    seen: Set<u32>, depth: nat) -> Set<u32>
    decreases 97 - depth, refs.len() - i + 1,
{
    if i < 0 || i >= refs.len() {
        seen
    } else {
        walked_through_all(s, rows, m, refs, i + 1, walked_through(s, rows, m, refs[i], seen, depth), depth)
    }
}

/// The table's numbers that a set leaves out, in order.
pub open spec fn left_out(rows: Seq<(u32, usize)>, set: Set<u32>, i: int) -> Seq<u32>
    decreases i,
{
    if i <= 0 {
        Seq::empty()
    } else {
        left_out(rows, set, i - 1) + if set.contains(rows[i - 1].0) { Seq::empty() } else { seq![rows[i - 1].0] }
    }
}

/// The values of a map of objects.
pub open spec fn values_in(m: Map<u32, Object>) -> Map<u32, Value> {
    m.map_values(|o: Object| o.value())
}

fn walk_through(file: &File, rewritten: &BTreeMap<u32, Object>, number: u32, seen: &mut BTreeSet<u32>, depth: usize)
    requires
        depth <= 97,
    ensures
        final(seen)@ == walked_through(file.source(), file.rows(), values_in(rewritten@), number, old(seen)@,
            depth as nat),
    decreases 97 - depth,
{
    if depth > 96 {
        return;
    }
    if !seen.insert(number) {
        return;
    }
    let ghost start = seen@;
    let object = match rewritten.get(&number) {
        Some(object) => object.duplicate(),
        None => match file.object(number) {
            Ok(object) => object,
            Err(_) => {
                return;
            },
        },
    };
    let refs = references(&object);
    let mut i: usize = 0;
    while i < refs.len()
        invariant
            depth <= 96,
            i <= refs@.len(),
            walked_through_all(file.source(), file.rows(), values_in(rewritten@), refs@, i as int, seen@,
                (depth + 1) as nat) == walked_through_all(file.source(), file.rows(), values_in(rewritten@), refs@, 0,
                start, (depth + 1) as nat),
        decreases refs.len() - i,
    {
        walk_through(file, rewritten, refs[i], seen, depth + 1);
        i = i + 1;
    }
}

/// The catalogue, cleaned, when the trailer names a dictionary as one.
fn clean_root(file: &File, root: Dict) -> (r: Object)
    ensures
        r.value() == cleaned_root(file.source(), file.rows(), root.entries()),
{
    let mut root = root;
    let metadata = hb_metadata();
    root.remove(metadata.as_slice());
    let names_word = hb_names();
    if let Some(names) = dictionary_in(file, &root, names_word.as_slice()) {
        match names_kept(file, &names) {
            Some(kept) => root.set(names_word.as_slice(), Object::Dict(kept)),
            None => root.remove(names_word.as_slice()),
        }
    }
    let whole = Object::Dict(root);
    let (cleaned, _) = scrubbed(file, &whole, 0);
    cleaned
}

/// Every stream a strip rewrites keeps the data it had: its new bytes are
/// its dictionary as rewritten, `stream`, exactly the data bytes it had in the
/// file it came from, and `endstream`.
pub proof fn law_a_rewritten_stream_keeps_its_data(s: Seq<u8>, rows: Seq<(u32, usize)>, m: Map<u32, Value>, i: int,
    k: int)
    requires
        0 <= k < rewritten_bodies(s, rows, m, i).len(),
    ensures
        ({
            let (n, body) = rewritten_bodies(s, rows, m, i)[k];
            &&& m.contains_key(n)
            &&& match m[n] {
                Value::Stream(d, start, end) => 0 <= start <= end <= s.len() ==> body == written(Value::Dict(
                    crate::pdf::object::set_entry(d, crate::pdf::object::word_length(),
                    Value::Number(crate::text::decimal_bytes((end - start) as nat)))))
                    + crate::pdf::reader::word_stream_open() + s.subrange(start, end)
                    + crate::pdf::reader::word_stream_close(),
                _ => true,
            }
        }),
    decreases i,
{
    if i > 0 {
        let before = rewritten_bodies(s, rows, m, i - 1);
        if k < before.len() {
            law_a_rewritten_stream_keeps_its_data(s, rows, m, i - 1, k);
        } else {
            let n = rows[i - 1].0;
            let body = body_of(s, m[n]);
            if let Value::Stream(d, start, end) = m[n] {
                if 0 <= start <= end <= s.len() {
                    let data = s.subrange(start, end);
                    let head = written(Value::Dict(crate::pdf::object::set_entry(d, crate::pdf::object::word_length(),
                        Value::Number(crate::text::decimal_bytes(data.len()))))) + crate::pdf::reader::word_stream_open();
                    assert(body == head + data + crate::pdf::reader::word_stream_close());
                }
            }
        }
    }
}

/// Taking a key out of some entries leaves no entry under it, and every entry
/// left is under a key some entry had: one no entry had is still absent.
proof fn lemma_removed(e: Seq<(Seq<u8>, Value)>, key: Seq<u8>, absent: Seq<u8>)
    requires
        forall|j: int| 0 <= j < e.len() ==> #[trigger] e[j].0 != absent,
    ensures
        forall|j: int| 0 <= j < remove_entry(e, key).len() ==> #[trigger] remove_entry(e, key)[j].0 != key
            && remove_entry(e, key)[j].0 != absent,
    decreases e.len(),
{
    reveal(Seq::filter);
    if e.len() > 0 {
        let rest = e.drop_last();
        assert forall|j: int| 0 <= j < rest.len() implies #[trigger] rest[j].0 != absent by {
            assert(rest[j] == e[j]);
        }
        lemma_removed(rest, key, absent);
        lemma_removed_plain(e, key);
        let g = remove_entry(rest, key);
        assert(e.last() == e[e.len() - 1]);
        assert(remove_entry(e, key) == (if e.last().0 != key { g.push(e.last()) } else { g }));
        assert forall|j: int| 0 <= j < remove_entry(e, key).len() implies
            #[trigger] remove_entry(e, key)[j].0 != absent by {
            if j < g.len() {
                assert(remove_entry(e, key)[j] == g[j]);
            }
        }
    }
}

/// Taking a key out of some entries leaves no entry under it.
proof fn lemma_removed_plain(e: Seq<(Seq<u8>, Value)>, key: Seq<u8>)
    ensures
        forall|j: int| 0 <= j < remove_entry(e, key).len() ==> #[trigger] remove_entry(e, key)[j].0 != key,
    decreases e.len(),
{
    reveal(Seq::filter);
    if e.len() > 0 {
        lemma_removed_plain(e.drop_last(), key);
    }
}

/// The trailer a stripped file is written with names no `/Info` and no
/// `/Prev`: the one revision left carries no metadata dictionary and points
/// at no earlier table.
pub proof fn law_a_stripped_trailer_has_no_info_and_no_prev(t: Seq<(Seq<u8>, Value)>, size: nat)
    ensures
        forall|j: int| 0 <= j < crate::pdf::reader::new_trailer(t, size, seq![(h_info(), Value::Null)]).len()
            ==> #[trigger] crate::pdf::reader::new_trailer(t, size, seq![(h_info(), Value::Null)])[j].0 != h_info()
            && crate::pdf::reader::new_trailer(t, size, seq![(h_info(), Value::Null)])[j].0
                != crate::pdf::reader::word_prev(),
{
    let edits = seq![(h_info(), Value::Null)];
    let a = set_entry(t, crate::pdf::reader::word_size(), Value::Number(crate::text::decimal_bytes(size)));
    let b = remove_entry(a, crate::pdf::reader::word_prev());
    let c = remove_entry(b, crate::pdf::reader::word_xrefstm());
    let n = remove_entry(c, h_info());
    assert(edits.drop_last() =~= Seq::<(Seq<u8>, Value)>::empty());
    assert(crate::pdf::reader::edited(c, edits.drop_last()) == c);
    assert(crate::pdf::reader::new_trailer(t, size, edits) == n);
    lemma_removed_plain(a, crate::pdf::reader::word_prev());
    lemma_removed(b, crate::pdf::reader::word_xrefstm(), crate::pdf::reader::word_prev());
    lemma_removed(c, h_info(), crate::pdf::reader::word_prev());
}

/// A copy with the hidden data taken out.
///
/// Everything on the pages is untouched: this rewrites the file's
/// *structure*, never a content stream: a kept stream is written with the
/// very data bytes it had, whatever is scrubbed from its dictionary. Objects
/// nothing reaches are left out;
/// `/Info`, the XMP packet, the attachments but the lock's, the script name
/// tree and every action that runs script go; and the result is one
/// revision rather than several, which is what removes the earlier versions.
///
/// **Reachability is computed against the file as it will be, not as it
/// is**, and what it says it removed is measured: the cleaned bytes are
/// surveyed again, and the second survey is what the caller shows.
#[verifier::spinoff_prover]
pub fn strip(file: &File, bytes: &[u8]) -> (r: Result<(Vec<u8>, Sanitised)>)
    ensures
        ({
            let s = file.source();
            let rows = file.rows();
            let trailer = file.trailer_entries();
            let m = rewrites_upto(s, rows, trailer, rows.len() as int);
            let reached = match root_number(trailer) {
                Some(n) => walked_through(s, rows, m, n, Set::empty(), 0),
                None => Set::empty(),
            };
            match rewritten(s, rows, trailer, rewritten_bodies(s, rows, m, rows.len() as int), Seq::empty(),
                seq![(h_info(), Value::Null)], left_out(rows, reached, rows.len() as int)) {
                Ok(cleaned) => match read_file(cleaned) {
                    Ok((rows2, t2)) => r matches Ok((c, san)) && c@ == cleaned
                        && surveyed(s, rows, trailer, bytes@, san.before)
                        && surveyed(cleaned, rows2, t2, cleaned, san.after),
                    Err(f) => r matches Err(e) && crate::pdf::object::reports(f, e),
                },
                Err(f) => r matches Err(e) && crate::pdf::object::reports(f, e),
            }
        }),
{
    let ghost s = file.source();
    let ghost rows = file.rows();
    let ghost trailer = file.trailer_entries();
    let before = match survey(file, bytes) {
        Ok(h) => h,
        Err(e) => {
            return Err(e);
        },
    };

    let mut rewritten_objects: BTreeMap<u32, Object> = BTreeMap::new();

    // The catalogue without its metadata pointer, its script, its
    // attachments but the lock's, and its opening action if that runs script.
    let root_word = hb_root();
    let root_number: Option<u32> = match file.trailer().get(root_word.as_slice()) {
        Some(Object::Reference(number, _)) => Some(*number),
        _ => None,
    };
    if let Some(number) = root_number {
        if let Ok(Object::Dict(root)) = file.object(number) {
            let cleaned = clean_root(file, root);
            rewritten_objects.insert(number, cleaned);
        }
    }
    proof {
        assert(values_in(rewritten_objects@) =~= rewrites_upto(s, rows, trailer, 0));
    }

    // Every other object with its script actions taken out. Only objects
    // that change are rewritten; the rest are copied through byte for byte.
    let numbers = file.numbers();
    let mut i: usize = 0;
    while i < numbers.len()
        invariant
            s == file.source(),
            rows == file.rows(),
            trailer == file.trailer_entries(),
            numbers@ == rows.map_values(|row: (u32, usize)| row.0),
            root_number == crate::pdf::hidden::root_number(trailer),
            i <= numbers@.len(),
            values_in(rewritten_objects@) == rewrites_upto(s, rows, trailer, i as int),
        decreases numbers.len() - i,
    {
        let number = numbers[i];
        proof {
            assert(number == rows[i as int].0);
        }
        let skip = match root_number {
            Some(n) => n == number,
            None => false,
        };
        if !skip {
            if let Ok(object) = file.object(number) {
                let (object, changed) = scrubbed(file, &object, 0);
                if changed {
                    rewritten_objects.insert(number, object);
                }
            }
        }
        proof {
            assert(values_in(rewritten_objects@) =~= rewrites_upto(s, rows, trailer, i + 1));
        }
        i = i + 1;
    }
    let ghost m = values_in(rewritten_objects@);

    // The rewritten objects in the table's order, which is the order of
    // their numbers.
    let mut replacements: Vec<(u32, Vec<u8>)> = Vec::new();
    let mut k: usize = 0;
    while k < numbers.len()
        invariant
            numbers@ == rows.map_values(|row: (u32, usize)| row.0),
            m == values_in(rewritten_objects@),
            k <= numbers@.len(),
            bodies(replacements@) == rewritten_bodies(s, rows, m, k as int),
            s == file.source(),
        decreases numbers.len() - k,
    {
        let number = numbers[k];
        proof {
            assert(number == rows[k as int].0);
        }
        if let Some(object) = rewritten_objects.get(&number) {
            let body = body_bytes(file, object);
            let ghost before = bodies(replacements@);
            replacements.push((number, body));
            proof {
                assert(m[number] == object.value());
                assert(bodies(replacements@) =~= before + seq![(number, body_of(s, m[number]))]);
            }
        } else {
            proof {
                assert(rewritten_bodies(s, rows, m, k + 1) =~= rewritten_bodies(s, rows, m, k as int));
            }
        }
        k = k + 1;
    }

    // **Reachability is computed against the file as it will be, not as it
    // is.** Taking `/Info` off the trailer and `/Metadata` off the catalogue
    // orphans those objects; walking the original would still count them as
    // reached and copy them through.
    let mut reached: BTreeSet<u32> = BTreeSet::new();
    if let Some(number) = root_number {
        walk_through(file, &rewritten_objects, number, &mut reached, 0);
    }
    let mut drop: Vec<u32> = Vec::new();
    let mut j: usize = 0;
    while j < numbers.len()
        invariant
            numbers@ == rows.map_values(|row: (u32, usize)| row.0),
            j <= numbers@.len(),
            drop@ == left_out(rows, reached@, j as int),
        decreases numbers.len() - j,
    {
        let number = numbers[j];
        proof {
            assert(number == rows[j as int].0);
        }
        if !reached.contains(&number) {
            drop.push(number);
        }
        proof {
            assert(drop@ =~= left_out(rows, reached@, j + 1));
        }
        j = j + 1;
    }

    // The trailer loses `/Info` entirely. An empty `/Info` dictionary would
    // still say a tool had been over the file.
    let mut trailer_edits = Dict(Vec::new());
    trailer_edits.append(hb_info(), Object::Null);
    proof {
        assert(trailer_edits.entries() =~= seq![(h_info(), Value::Null)]);
        assert(bodies(Seq::<(u32, Vec<u8>)>::empty()) =~= Seq::<(u32, Seq<u8>)>::empty());
    }
    let none: Vec<(u32, Vec<u8>)> = Vec::new();
    let cleaned = match file.rewrite_dropping(replacements.as_slice(), none.as_slice(), &trailer_edits,
        drop.as_slice()) {
        Ok(c) => c,
        Err(e) => {
            return Err(e);
        },
    };

    // Measured on the result, not assumed from the intent.
    let after = {
        let again = match File::parse(cleaned.as_slice()) {
            Ok(f) => f,
            Err(e) => {
                return Err(e);
            },
        };
        match survey(&again, cleaned.as_slice()) {
            Ok(h) => h,
            Err(e) => {
                return Err(e);
            },
        }
    };
    Ok((cleaned, Sanitised { before, after }))
}

} // verus!
