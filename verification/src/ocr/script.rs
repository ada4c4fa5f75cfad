//! Which script a page is written in, and how sure we are.
//!
//! The rule this module exists to enforce: **never default silently to
//! Latin.** A page that says it could not decide is worth more than one that
//! quietly returns a plausible wrong part number.

use vstd::prelude::*;

verus! {

/// A script family, which is the unit a recognition model covers.
#[derive(Debug, Clone, Copy, PartialEq, Eq, Hash, Structural)]
pub enum Script {
    Latin,
    Cyrillic,
    Greek,
    Arabic,
    Hebrew,
    Devanagari,
    Thai,
    Han,
    Kana,
    Hangul,
}

/// The script a character belongs to, if it belongs to one that matters.
pub open spec fn script_of(ch: char) -> Option<Script> {
    let code = ch as u32;
    if (0x0041 <= code <= 0x005A) || (0x0061 <= code <= 0x007A) || (0x00C0 <= code <= 0x024F) {
        Some(Script::Latin)
    } else if (0x0370 <= code <= 0x03FF) || (0x1F00 <= code <= 0x1FFF) {
        Some(Script::Greek)
    } else if (0x0400 <= code <= 0x04FF) || (0x0500 <= code <= 0x052F) {
        Some(Script::Cyrillic)
    } else if (0x0590 <= code <= 0x05FF) || (0xFB1D <= code <= 0xFB4F) {
        Some(Script::Hebrew)
    } else if (0x0600 <= code <= 0x06FF) || (0x0750 <= code <= 0x077F) || (0xFB50 <= code <= 0xFDFF)
        || (0xFE70 <= code <= 0xFEFF) {
        Some(Script::Arabic)
    } else if 0x0900 <= code <= 0x097F {
        Some(Script::Devanagari)
    } else if 0x0E00 <= code <= 0x0E7F {
        Some(Script::Thai)
    } else if (0x3040 <= code <= 0x309F) || (0x30A0 <= code <= 0x30FF) {
        Some(Script::Kana)
    } else if (0x3400 <= code <= 0x4DBF) || (0x4E00 <= code <= 0x9FFF) || (0xF900 <= code <= 0xFAFF) {
        Some(Script::Han)
    } else if (0xAC00 <= code <= 0xD7AF) || (0x1100 <= code <= 0x11FF) {
        Some(Script::Hangul)
    } else {
        None
    }
}

/// A script's place in alphabetical order of its name, which breaks ties
/// between scripts with the same number of characters.
pub open spec fn name_rank(s: Script) -> int {
    match s {
        Script::Arabic => 0,
        Script::Cyrillic => 1,
        Script::Devanagari => 2,
        Script::Greek => 3,
        Script::Han => 4,
        Script::Hangul => 5,
        Script::Hebrew => 6,
        Script::Kana => 7,
        Script::Latin => 8,
        Script::Thai => 9,
    }
}

pub open spec fn script_at_rank(i: int) -> Script {
    if i == 0 { Script::Arabic } else if i == 1 { Script::Cyrillic } else if i == 2 { Script::Devanagari }
    else if i == 3 { Script::Greek } else if i == 4 { Script::Han } else if i == 5 { Script::Hangul }
    else if i == 6 { Script::Hebrew } else if i == 7 { Script::Kana } else if i == 8 { Script::Latin }
    else { Script::Thai }
}

proof fn lemma_rank_roundtrip(s: Script)
    ensures
        script_at_rank(name_rank(s)) == s,
        0 <= name_rank(s) < 10,
{
}

proof fn lemma_rank_roundtrip_back(i: int)
    requires
        0 <= i < 10,
    ensures
        name_rank(script_at_rank(i)) == i,
{
}

fn rank_of(s: Script) -> (r: usize)
    ensures
        r == name_rank(s),
        script_at_rank(r as int) == s,
{
    match s {
        Script::Arabic => 0,
        Script::Cyrillic => 1,
        Script::Devanagari => 2,
        Script::Greek => 3,
        Script::Han => 4,
        Script::Hangul => 5,
        Script::Hebrew => 6,
        Script::Kana => 7,
        Script::Latin => 8,
        Script::Thai => 9,
    }
}

fn script_from_rank(i: usize) -> (s: Script)
    requires
        i < 10,
    ensures
        s == script_at_rank(i as int),
        name_rank(s) == i,
{
    if i == 0 { Script::Arabic } else if i == 1 { Script::Cyrillic } else if i == 2 { Script::Devanagari }
    else if i == 3 { Script::Greek } else if i == 4 { Script::Han } else if i == 5 { Script::Hangul }
    else if i == 6 { Script::Hebrew } else if i == 7 { Script::Kana } else if i == 8 { Script::Latin }
    else { Script::Thai }
}

impl Script {
    /// The script a character belongs to. Digits, punctuation and spaces
    /// return `None` on purpose: they appear in every script.
    pub fn of(ch: char) -> (r: Option<Script>)
        ensures
            r == script_of(ch),
    {
        let code = ch as u32;
        if (0x0041 <= code && code <= 0x005A) || (0x0061 <= code && code <= 0x007A) || (0x00C0 <= code && code <= 0x024F) {
            Some(Script::Latin)
        } else if (0x0370 <= code && code <= 0x03FF) || (0x1F00 <= code && code <= 0x1FFF) {
            Some(Script::Greek)
        } else if (0x0400 <= code && code <= 0x04FF) || (0x0500 <= code && code <= 0x052F) {
            Some(Script::Cyrillic)
        } else if (0x0590 <= code && code <= 0x05FF) || (0xFB1D <= code && code <= 0xFB4F) {
            Some(Script::Hebrew)
        } else if (0x0600 <= code && code <= 0x06FF) || (0x0750 <= code && code <= 0x077F)
            || (0xFB50 <= code && code <= 0xFDFF) || (0xFE70 <= code && code <= 0xFEFF) {
            Some(Script::Arabic)
        } else if 0x0900 <= code && code <= 0x097F {
            Some(Script::Devanagari)
        } else if 0x0E00 <= code && code <= 0x0E7F {
            Some(Script::Thai)
        } else if (0x3040 <= code && code <= 0x309F) || (0x30A0 <= code && code <= 0x30FF) {
            Some(Script::Kana)
        } else if (0x3400 <= code && code <= 0x4DBF) || (0x4E00 <= code && code <= 0x9FFF) || (0xF900 <= code && code <= 0xFAFF) {
            Some(Script::Han)
        } else if (0xAC00 <= code && code <= 0xD7AF) || (0x1100 <= code && code <= 0x11FF) {
            Some(Script::Hangul)
        } else {
            None
        }
    }

    pub fn is_rtl(self) -> (r: bool)
        ensures
            r == (self == Script::Arabic || self == Script::Hebrew),
    {
        matches!(self, Script::Arabic | Script::Hebrew)
    }

    /// Whether this script needs a dictionary to find word boundaries.
    pub fn needs_segmentation(self) -> (r: bool)
        ensures
            r == (self == Script::Han || self == Script::Kana || self == Script::Thai || self == Script::Hangul),
    {
        matches!(self, Script::Han | Script::Kana | Script::Thai | Script::Hangul)
    }
}

/// What the evidence says about a page's script.
#[derive(Debug, Clone, PartialEq)]
pub enum Guess {
    /// One script clearly dominates.
    Certain(Script),
    /// Several scripts in play, with the leader first. **Ask, do not pick.**
    Ambiguous(Vec<Script>),
    /// Nothing to go on.
    Unknown,
}

impl Guess {
    /// The script to recognise with, or `None` if the user must be asked.
    pub fn settled(&self) -> (r: Option<Script>)
        ensures
            r == match self {
                Guess::Certain(s) => Some(*s),
                _ => None::<Script>,
            },
    {
        match self {
            Guess::Certain(script) => Some(*script),
            Guess::Ambiguous(_) | Guess::Unknown => None,
        }
    }
}

/// How many characters of `text` belong to `script`.
pub open spec fn count_in(text: Seq<char>, script: Script) -> nat
    decreases text.len(),
{
    if text.len() == 0 {
        0
    } else {
        count_in(text.drop_last(), script) + if script_of(text.last()) == Some(script) { 1nat } else { 0nat }
    }
}

/// How many characters of `text` belong to any script at all.
pub open spec fn votes(text: Seq<char>) -> nat
    decreases text.len(),
{
    if text.len() == 0 {
        0
    } else {
        votes(text.drop_last()) + if script_of(text.last()) is Some { 1nat } else { 0nat }
    }
}

/// `a` ranks ahead of `b`: more characters, or as many and an earlier name.
pub open spec fn ahead(text: Seq<char>, a: Script, b: Script) -> bool {
    count_in(text, a) > count_in(text, b)
        || (count_in(text, a) == count_in(text, b) && name_rank(a) < name_rank(b))
}

/// Every script that occurs in `text`, each once, leader first.
pub open spec fn ranked(text: Seq<char>, r: Seq<Script>) -> bool {
    &&& forall|i: int, j: int| 0 <= i < j < r.len() ==> ahead(text, r[i], r[j])
    &&& forall|s: Script| r.contains(s) <==> count_in(text, s) > 0
}

/// At least four fifths of the votes, compared in whole numbers, exactly; a
/// single-precision ratio can round a count just short of it up to it on very
/// long texts.
pub open spec fn dominant(part: int, total: int) -> bool {
    5 * part >= 4 * total
}

/// Kana and Han together, which is ordinary Japanese rather than two
/// scripts fighting.
pub open spec fn japanese(text: Seq<char>) -> bool {
    let kana = count_in(text, Script::Kana);
    let han = count_in(text, Script::Han);
    20 * kana > votes(text) && dominant((kana + han) as int, votes(text) as int)
}

/// What `detect` concludes from a page's text.
pub open spec fn guess_for(text: Seq<char>, g: Guess) -> bool {
    if votes(text) == 0 {
        g == Guess::Unknown
    } else {
        exists|r: Seq<Script>| #[trigger] ranked(text, r) && r.len() > 0 && {
            if dominant(count_in(text, r[0]) as int, votes(text) as int) {
                g == Guess::Certain(r[0])
            } else if japanese(text) {
                g == Guess::Certain(Script::Kana)
            } else {
                g matches Guess::Ambiguous(v) && v@ == r
            }
        }
    }
}

proof fn lemma_votes_split(text: Seq<char>)
    ensures
        votes(text) == count_in(text, Script::Arabic) + count_in(text, Script::Cyrillic)
            + count_in(text, Script::Devanagari) + count_in(text, Script::Greek)
            + count_in(text, Script::Han) + count_in(text, Script::Hangul)
            + count_in(text, Script::Hebrew) + count_in(text, Script::Kana)
            + count_in(text, Script::Latin) + count_in(text, Script::Thai),
    decreases text.len(),
{
    if text.len() > 0 {
        lemma_votes_split(text.drop_last());
    }
}

/// Guess a page's script from text already extracted from it.
pub fn detect(text: &str) -> (g: Guess)
    ensures
        guess_for(text@, g),
{
    broadcast use vstd::string::axiom_spec_iter;
    let mut counts: Vec<usize> = vec![0usize; 10];
    let mut total: usize = 0;
    let n = text.unicode_len();
    for ch in it: text.chars()
        invariant
            it.seq() == text@,
            n == text@.len(),
            counts@.len() == 10,
            total == votes(text@.subrange(0, it.index() as int)),
            total <= it.index(),
            forall|k: int| 0 <= k < 10 ==> #[trigger] counts@[k] == count_in(text@.subrange(0, it.index() as int), script_at_rank(k)),
            forall|k: int| 0 <= k < 10 ==> #[trigger] counts@[k] <= it.index(),
    {
        let ghost prefix = text@.subrange(0, it.index() as int);
        let ghost next = text@.subrange(0, it.index() + 1);
        proof {
            assert(next.drop_last() =~= prefix);
            assert(next.last() == ch);
        }
        match Script::of(ch) {
            Some(script) => {
                let k = rank_of(script);
                let c = counts[k];
                counts.set(k, c + 1);
                total = total + 1;
            },
            None => {},
        }
        proof {
            assert forall|k: int| 0 <= k < 10 implies #[trigger] counts@[k] == count_in(next, script_at_rank(k)) by {
                if script_of(ch) is Some {
                    assert(script_at_rank(name_rank(script_of(ch)->0)) == script_of(ch)->0);
                }
            }
        }
    }
    proof {
        assert(text@.subrange(0, text@.len() as int) =~= text@);
        lemma_votes_split(text@);
    }
    if total == 0 {
        return Guess::Unknown;
    }

    // Insertion into a list kept in ranking order.
    let ghost t = text@;
    let mut order: Vec<usize> = Vec::new();
    let mut k: usize = 0;
    while k < 10
        invariant
            counts@.len() == 10,
            forall|j: int| 0 <= j < 10 ==> #[trigger] counts@[j] == count_in(t, script_at_rank(j)),
            k <= 10,
            forall|i: int| 0 <= i < order@.len() ==> #[trigger] order@[i] < k,
            forall|i: int, j: int| 0 <= i < j < order@.len() ==>
                ahead(t, script_at_rank(order@[i] as int), script_at_rank(order@[j] as int)),
            forall|j: int| 0 <= j < k ==> (order@.contains(j as usize) <==> #[trigger] counts@[j] > 0),
            order@.len() <= k,
        decreases 10 - k,
    {
        if counts[k] > 0 {
            let mut p: usize = 0;
            while p < order.len() && (counts[order[p]] > counts[k] || (counts[order[p]] == counts[k] && order[p] < k))
                invariant
                    counts@.len() == 10,
                    forall|j: int| 0 <= j < 10 ==> #[trigger] counts@[j] == count_in(t, script_at_rank(j)),
                    forall|i: int| 0 <= i < order@.len() ==> #[trigger] order@[i] < k,
                    k < 10,
                    p <= order@.len(),
                    forall|i: int| 0 <= i < p ==> ahead(t, script_at_rank(order@[i] as int), script_at_rank(k as int)),
                decreases order.len() - p,
            {
                p = p + 1;
            }
            let ghost before = order@;
            order.insert(p, k);
            proof {
                assert forall|i: int| 0 <= i < order@.len() implies #[trigger] order@[i] < k + 1 by {
                    if i < p { assert(order@[i] == before[i]); } else if i > p { assert(order@[i] == before[i - 1]); }
                }
                // Everything from p on ranks behind k.
                assert forall|i: int| p <= i < before.len() implies
                    ahead(t, script_at_rank(k as int), #[trigger] script_at_rank(before[i] as int)) by {
                    if i == p {
                    } else {
                        assert(ahead(t, script_at_rank(before[p as int] as int), script_at_rank(before[i] as int)));
                    }
                }
                assert forall|i: int, j: int| 0 <= i < j < order@.len() implies
                    ahead(t, script_at_rank(order@[i] as int), script_at_rank(order@[j] as int)) by {
                    if j < p {
                        assert(order@[i] == before[i] && order@[j] == before[j]);
                    } else if j == p {
                        assert(order@[i] == before[i]);
                    } else if i == p {
                        assert(order@[j] == before[j - 1]);
                    } else if i < p {
                        assert(order@[i] == before[i] && order@[j] == before[j - 1]);
                    } else {
                        assert(order@[i] == before[i - 1] && order@[j] == before[j - 1]);
                    }
                }
                assert forall|j: int| 0 <= j < k + 1 implies (order@.contains(j as usize) <==> #[trigger] counts@[j] > 0) by {
                    if j == k as int {
                        assert(order@[p as int] == k);
                    } else {
                        if before.contains(j as usize) {
                            let w = choose|w: int| 0 <= w < before.len() && before[w] == j as usize;
                            if w < p { assert(order@[w] == j as usize); } else { assert(order@[w + 1] == j as usize); }
                        }
                        if order@.contains(j as usize) {
                            let w = choose|w: int| 0 <= w < order@.len() && order@[w] == j as usize;
                            if w < p { assert(before[w] == j as usize); } else if w > p { assert(before[w - 1] == j as usize); }
                        }
                    }
                }
            }
        }
        k = k + 1;
    }

    let mut ranked_scripts: Vec<Script> = Vec::new();
    let mut i: usize = 0;
    while i < order.len()
        invariant
            i <= order@.len(),
            forall|j: int| 0 <= j < order@.len() ==> #[trigger] order@[j] < 10,
            counts@.len() == 10,
            forall|j: int| 0 <= j < 10 ==> #[trigger] counts@[j] == count_in(t, script_at_rank(j)),
            forall|a: int, b: int| 0 <= a < b < order@.len() ==>
                ahead(t, script_at_rank(order@[a] as int), script_at_rank(order@[b] as int)),
            forall|j: int| 0 <= j < 10 ==> (order@.contains(j as usize) <==> #[trigger] counts@[j] > 0),
            total == votes(t),
            ranked_scripts@.len() == i,
            forall|j: int| 0 <= j < i ==> #[trigger] ranked_scripts@[j] == script_at_rank(order@[j] as int),
        decreases order.len() - i,
    {
        ranked_scripts.push(script_from_rank(order[i]));
        i = i + 1;
    }
    let ghost r = ranked_scripts@;
    proof {
        assert forall|s: Script| r.contains(s) <==> count_in(t, s) > 0 by {
            let j = name_rank(s);
            lemma_rank_roundtrip(s);
            if r.contains(s) {
                let w = choose|w: int| 0 <= w < r.len() && r[w] == s;
                lemma_rank_roundtrip_back(order@[w] as int);
                assert(order@[w] as int == j);
                assert(order@.contains(j as usize));
                assert(counts@[j] > 0);
            }
            if count_in(t, s) > 0 {
                assert(counts@[j] > 0);
                assert(order@.contains(j as usize));
                let w = choose|w: int| 0 <= w < order@.len() && order@[w] == j as usize;
                assert(r[w] == s);
            }
        }
        assert(ranked(t, r));
        assert(r.len() > 0) by {
            let s = choose|s: Script| count_in(t, s) > 0;
            if !(exists|s: Script| count_in(t, s) > 0) {
                assert(votes(t) == 0);
            }
            assert(r.contains(s));
        }
    }
    let leader = ranked_scripts[0];
    let lead = counts[rank_of(leader)];
    let kana = counts[7];
    let han = counts[4];
    proof {
        assert(script_at_rank(7) == Script::Kana);
        assert(script_at_rank(4) == Script::Han);
        assert(lead as int * 5 <= usize::MAX * 5);
    }
    if 5 * (lead as u128) >= 4 * (total as u128) {
        return Guess::Certain(leader);
    }
    if 20 * (kana as u128) > total as u128 && 5 * ((kana as u128) + (han as u128)) >= 4 * (total as u128) {
        return Guess::Certain(Script::Kana);
    }
    Guess::Ambiguous(ranked_scripts)
}

} // verus!
