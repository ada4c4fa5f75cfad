//! LRU cache of rasterised pages, budgeted in **bytes, not entries**.
//!
//! The entries are kept in one list in order of use, least recently used
//! first, and no key appears twice; the front of the list is what goes when
//! room is needed.

use vstd::prelude::*;
use crate::render::bitmap::Bitmap;

verus! {

/// What a cached raster is: a page, at a quantised zoom, at a rotation.
#[derive(Debug, Clone, Copy, PartialEq, Eq, Hash, Structural)]
pub struct CacheKey {
    pub page_index: usize,
    /// Quantised zoom, in quarter steps.
    pub zoom_step: u32,
    pub rotation_quarter_turns: u8,
}

impl CacheKey {
    /// A key at a zoom already quantised to whole steps. Quarter turns wrap.
    pub fn at_step(page_index: usize, zoom_step: u32, rotation_quarter_turns: u8) -> (r: Self)
        ensures
            r == (CacheKey { page_index, zoom_step, rotation_quarter_turns: rotation_quarter_turns % 4 }),
    {
        CacheKey { page_index, zoom_step, rotation_quarter_turns: rotation_quarter_turns % 4 }
    }
}

/// The bytes a list of entries holds.
pub open spec fn bytes_of(s: Seq<(CacheKey, Bitmap)>) -> nat
    decreases s.len(),
{
    if s.len() == 0 { 0 } else { bytes_of(s.drop_last()) + s.last().1.data@.len() }
}

/// No key twice.
pub open spec fn keys_distinct(s: Seq<(CacheKey, Bitmap)>) -> bool {
    forall|i: int, j: int| 0 <= i < j < s.len() ==> s[i].0 != s[j].0
}

pub open spec fn has_key(s: Seq<(CacheKey, Bitmap)>, key: CacheKey) -> bool {
    exists|i: int| 0 <= i < s.len() && s[i].0 == key
}

/// The entries left after dropping the least recently used ones until
/// `incoming` more bytes fit in `budget`, or nothing is left.
pub open spec fn evicted(s: Seq<(CacheKey, Bitmap)>, incoming: nat, budget: nat) -> Seq<(CacheKey, Bitmap)>
    decreases s.len(),
{
    if s.len() == 0 || bytes_of(s) + incoming <= budget { s } else { evicted(s.drop_first(), incoming, budget) }
}

pub struct PageCache {
    budget_bytes: usize,
    used_bytes: usize,
    /// Least recently used first.
    entries: Vec<(CacheKey, Bitmap)>,
    hits: u64,
    misses: u64,
}

#[derive(Debug, Clone, Copy, PartialEq, Eq, Structural)]
pub struct CacheStats {
    pub hits: u64,
    pub misses: u64,
    pub entries: usize,
    pub used_bytes: usize,
    pub budget_bytes: usize,
}

proof fn lemma_bytes_push(s: Seq<(CacheKey, Bitmap)>, e: (CacheKey, Bitmap))
    ensures
        bytes_of(s.push(e)) == bytes_of(s) + e.1.data@.len(),
{
    assert(s.push(e).drop_last() =~= s);
}

proof fn lemma_bytes_first(s: Seq<(CacheKey, Bitmap)>)
    requires
        s.len() > 0,
    ensures
        bytes_of(s) == s[0].1.data@.len() + bytes_of(s.drop_first()),
    decreases s.len(),
{
    if s.len() > 1 {
        lemma_bytes_first(s.drop_last());
        assert(s.drop_last().drop_first() =~= s.drop_first().drop_last());
        assert(s.drop_first().last() == s.last());
        assert(s.drop_last()[0] == s[0]);
        assert(bytes_of(s.drop_first()) == bytes_of(s.drop_first().drop_last()) + s.drop_first().last().1.data@.len());
    } else {
        assert(s.drop_first() =~= Seq::<(CacheKey, Bitmap)>::empty());
        assert(s.drop_last() =~= Seq::<(CacheKey, Bitmap)>::empty());
        assert(bytes_of(s) == bytes_of(s.drop_last()) + s.last().1.data@.len());
    }
}

proof fn lemma_bytes_remove(s: Seq<(CacheKey, Bitmap)>, i: int)
    requires
        0 <= i < s.len(),
    ensures
        bytes_of(s) == s[i].1.data@.len() + bytes_of(s.remove(i)),
    decreases s.len(),
{
    if i == s.len() - 1 {
        assert(s.remove(i) =~= s.drop_last());
    } else {
        lemma_bytes_remove(s.drop_last(), i);
        assert(s.remove(i).drop_last() =~= s.drop_last().remove(i));
    }
}

proof fn lemma_evicted_fits(s: Seq<(CacheKey, Bitmap)>, incoming: nat, budget: nat)
    ensures
        bytes_of(evicted(s, incoming, budget)) + incoming <= budget || evicted(s, incoming, budget).len() == 0,
        keys_distinct(s) ==> keys_distinct(evicted(s, incoming, budget)),
        forall|k: CacheKey| has_key(evicted(s, incoming, budget), k) ==> has_key(s, k),
    decreases s.len(),
{
    if !(s.len() == 0 || bytes_of(s) + incoming <= budget) {
        lemma_evicted_fits(s.drop_first(), incoming, budget);
        assert forall|k: CacheKey| has_key(s.drop_first(), k) implies has_key(s, k) by {
            let i = choose|i: int| 0 <= i < s.drop_first().len() && s.drop_first()[i].0 == k;
            assert(s[i + 1].0 == k);
        }
    }
}

/// Filtering keeps keys distinct and accounts its bytes.
proof fn lemma_filter_distinct(s: Seq<(CacheKey, Bitmap)>, f: spec_fn((CacheKey, Bitmap)) -> bool)
    requires
        keys_distinct(s),
    ensures
        keys_distinct(s.filter(f)),
        forall|k: CacheKey| has_key(s.filter(f), k) <==> exists|i: int| 0 <= i < s.len() && s[i].0 == k && f(s[i]),
    decreases s.len(),
{
    broadcast use vstd::seq_lib::group_filter_ensures;
    reveal(Seq::filter);
    if s.len() > 0 {
        lemma_filter_distinct(s.drop_last(), f);
        let t = s.drop_last().filter(f);
        assert forall|k: CacheKey| has_key(s.filter(f), k) <==> exists|i: int| 0 <= i < s.len() && s[i].0 == k && f(s[i]) by {
            if has_key(s.filter(f), k) {
                let i = choose|i: int| 0 <= i < s.filter(f).len() && s.filter(f)[i].0 == k;
                if f(s.last()) && i == t.len() {
                    assert(s[s.len() - 1].0 == k);
                } else {
                    assert(has_key(t, k));
                    let j = choose|j: int| 0 <= j < s.drop_last().len() && s.drop_last()[j].0 == k && f(s.drop_last()[j]);
                    assert(s[j] == s.drop_last()[j]);
                }
            }
            if exists|i: int| 0 <= i < s.len() && s[i].0 == k && f(s[i]) {
                let i = choose|i: int| 0 <= i < s.len() && s[i].0 == k && f(s[i]);
                if i == s.len() - 1 {
                    assert(s.filter(f)[t.len() as int] == s[i]);
                } else {
                    assert(s.drop_last()[i] == s[i]);
                    assert(has_key(t, k));
                    let j = choose|j: int| 0 <= j < t.len() && t[j].0 == k;
                    assert(s.filter(f)[j] == t[j]);
                }
            }
        }
        if f(s.last()) {
            assert forall|i: int, j: int| 0 <= i < j < s.filter(f).len() implies s.filter(f)[i].0 != s.filter(f)[j].0 by {
                if j == t.len() {
                    if s.filter(f)[i].0 == s.last().0 {
                        assert(has_key(t, s.last().0));
                        let w = choose|w: int| 0 <= w < s.drop_last().len() && s.drop_last()[w].0 == s.last().0 && f(s.drop_last()[w]);
                        assert(s[w].0 == s[s.len() - 1].0);
                    }
                }
            }
        }
    }
}

proof fn lemma_filter_bytes(s: Seq<(CacheKey, Bitmap)>, key: CacheKey)
    requires
        keys_distinct(s),
    ensures
        has_key(s, key) ==> exists|i: int| 0 <= i < s.len() && s[i].0 == key
            && bytes_of(s) == s[i].1.data@.len() + bytes_of(s.filter(|e: (CacheKey, Bitmap)| e.0 != key)),
        !has_key(s, key) ==> s.filter(|e: (CacheKey, Bitmap)| e.0 != key) == s,
    decreases s.len(),
{
    broadcast use vstd::seq_lib::group_filter_ensures;
    reveal(Seq::filter);
    let f = |e: (CacheKey, Bitmap)| e.0 != key;
    if s.len() > 0 {
        lemma_filter_bytes(s.drop_last(), key);
        let t = s.drop_last();
        assert(s.filter(f) == if f(s.last()) { t.filter(f).push(s.last()) } else { t.filter(f) });
        if s.last().0 == key {
            assert(!has_key(t, key)) by {
                if has_key(t, key) {
                    let w = choose|w: int| 0 <= w < t.len() && t[w].0 == key;
                    assert(s[w].0 == s[s.len() - 1].0);
                }
            }
            assert(s[s.len() - 1].0 == key);
        } else {
            lemma_bytes_push(t.filter(f), s.last());
            if has_key(s, key) {
                let i = choose|i: int| 0 <= i < s.len() && s[i].0 == key;
                assert(t[i].0 == key);
                let j = choose|j: int| 0 <= j < t.len() && t[j].0 == key
                    && bytes_of(t) == t[j].1.data@.len() + bytes_of(t.filter(f));
                assert(s[j] == t[j]);
            } else {
                assert forall|w: int| 0 <= w < t.len() implies t[w].0 != key by {
                    assert(s[w] == t[w]);
                }
                assert(s =~= t.push(s.last()));
            }
        }
    } else {
        assert(s.filter(f) =~= s);
    }
}

impl PageCache {
    /// The entries, least recently used first.
    pub closed spec fn entries(&self) -> Seq<(CacheKey, Bitmap)> {
        self.entries@
    }

    pub closed spec fn budget(&self) -> nat {
        self.budget_bytes as nat
    }

    pub closed spec fn hit_count(&self) -> u64 {
        self.hits
    }

    pub closed spec fn miss_count(&self) -> u64 {
        self.misses
    }

    /// The list never holds a key twice, what it holds fits the budget, and
    /// the running total is what the bitmaps hold.
    pub closed spec fn wf(&self) -> bool {
        &&& keys_distinct(self.entries@)
        &&& self.used_bytes == bytes_of(self.entries@)
        &&& self.used_bytes <= self.budget_bytes
    }

    pub fn new(budget_bytes: usize) -> (r: Self)
        ensures
            r.wf(),
            r.entries() == Seq::<(CacheKey, Bitmap)>::empty(),
            r.budget() == budget_bytes,
            r.hit_count() == 0,
            r.miss_count() == 0,
    {
        PageCache { budget_bytes, used_bytes: 0, entries: Vec::new(), hits: 0, misses: 0 }
    }

    fn position(&self, key: &CacheKey) -> (r: Option<usize>)
        ensures
            match r {
                Some(i) => i < self.entries@.len() && self.entries@[i as int].0 == *key,
                None => !has_key(self.entries@, *key),
            },
    {
        let mut i: usize = 0;
        while i < self.entries.len()
            invariant
                i <= self.entries@.len(),
                forall|j: int| 0 <= j < i ==> self.entries@[j].0 != *key,
            decreases self.entries.len() - i,
        {
            if self.entries[i].0 == *key {
                return Some(i);
            }
            i = i + 1;
        }
        None
    }

    /// A cached raster, marking it most recently used; counted as a hit or a miss.
    pub fn get(&mut self, key: &CacheKey) -> (r: Option<&Bitmap>)
        requires
            old(self).wf(),
        ensures
            final(self).wf(),
            final(self).budget() == old(self).budget(),
            has_key(old(self).entries(), *key) ==> exists|i: int| 0 <= i < old(self).entries().len()
                && old(self).entries()[i].0 == *key
                && final(self).entries() == old(self).entries().remove(i).push(old(self).entries()[i])
                && r == Some(&old(self).entries()[i].1),
            has_key(old(self).entries(), *key) ==> final(self).hit_count() == old(self).hit_count().saturating_add(1)
                && final(self).miss_count() == old(self).miss_count(),
            !has_key(old(self).entries(), *key) ==> r is None && final(self).entries() == old(self).entries()
                && final(self).miss_count() == old(self).miss_count().saturating_add(1)
                && final(self).hit_count() == old(self).hit_count(),
    {
        match self.position(key) {
            Some(pos) => {
                let ghost before = self.entries@;
                let entry = self.entries.remove(pos);
                self.entries.push(entry);
                self.hits = self.hits.saturating_add(1);
                proof {
                    lemma_bytes_remove(before, pos as int);
                    lemma_bytes_push(before.remove(pos as int), before[pos as int]);
                    assert forall|i: int, j: int| 0 <= i < j < self.entries@.len() implies self.entries@[i].0 != self.entries@[j].0 by {
                        let r = before.remove(pos as int);
                        if j == self.entries@.len() - 1 {
                            if i < pos { assert(r[i] == before[i]); } else { assert(r[i] == before[i + 1]); }
                        } else {
                            if i < pos { assert(r[i] == before[i]); } else { assert(r[i] == before[i + 1]); }
                            if j < pos { assert(r[j] == before[j]); } else { assert(r[j] == before[j + 1]); }
                        }
                    }
                }
                let last = self.entries.len() - 1;
                Some(&self.entries[last].1)
            },
            None => {
                self.misses = self.misses.saturating_add(1);
                None
            },
        }
    }

    pub fn contains(&self, key: &CacheKey) -> (r: bool)
        ensures
            r == has_key(self.entries(), *key),
    {
        self.position(key).is_some()
    }

    /// Insert, evicting least-recently-used entries until the budget is met.
    ///
    /// A bitmap larger than the whole budget is dropped rather than stored, so
    /// a single huge page cannot evict everything else and then be evicted
    /// itself.
    pub fn put(&mut self, key: CacheKey, bitmap: Bitmap)
        requires
            old(self).wf(),
        ensures
            final(self).wf(),
            final(self).budget() == old(self).budget(),
            final(self).hit_count() == old(self).hit_count(),
            final(self).miss_count() == old(self).miss_count(),
            final(self).entries() == if bitmap.data@.len() > old(self).budget() {
                old(self).entries()
            } else {
                evicted(old(self).entries().filter(|e: (CacheKey, Bitmap)| e.0 != key),
                    bitmap.data@.len(), old(self).budget()).push((key, bitmap))
            },
    {
        let size = bitmap.byte_len();
        if size > self.budget_bytes {
            return;
        }
        let ghost start = self.entries@;
        let ghost without = start.filter(|e: (CacheKey, Bitmap)| e.0 != key);
        proof {
            lemma_filter_bytes(start, key);
            lemma_filter_distinct(start, |e: (CacheKey, Bitmap)| e.0 != key);
        }
        match self.position(&key) {
            Some(pos) => {
                let old_entry = self.entries.remove(pos);
                proof {
                    lemma_bytes_remove(start, pos as int);
                    assert(start.remove(pos as int) =~= without) by {
                        lemma_remove_is_filter(start, pos as int, key);
                    }
                }
                self.used_bytes = self.used_bytes - old_entry.1.byte_len();
            },
            None => {},
        }
        assert(self.entries@ == without);
        while self.entries.len() > 0 && self.used_bytes > self.budget_bytes - size
            invariant
                keys_distinct(self.entries@),
                self.used_bytes == bytes_of(self.entries@),
                size <= self.budget_bytes,
                size == bitmap.data@.len(),
                self.budget_bytes == old(self).budget_bytes,
                self.hits == old(self).hits,
                self.misses == old(self).misses,
                evicted(self.entries@, size as nat, self.budget_bytes as nat)
                    == evicted(without, size as nat, self.budget_bytes as nat),
                forall|k: CacheKey| has_key(self.entries@, k) ==> has_key(without, k),
                !has_key(without, key),
            decreases self.entries.len(),
        {
            let ghost before = self.entries@;
            let victim = self.entries.remove(0);
            proof {
                lemma_bytes_first(before);
                assert(before.remove(0) =~= before.drop_first());
                assert forall|k: CacheKey| has_key(self.entries@, k) implies has_key(without, k) by {
                    let i = choose|i: int| 0 <= i < self.entries@.len() && self.entries@[i].0 == k;
                    assert(before[i + 1].0 == k);
                }
            }
            self.used_bytes = self.used_bytes - victim.1.byte_len();
        }
        proof {
            assert(evicted(self.entries@, size as nat, self.budget_bytes as nat) == self.entries@);
            lemma_bytes_push(self.entries@, (key, bitmap));
            assert forall|i: int, j: int| 0 <= i < j < self.entries@.len() + 1 implies
                self.entries@.push((key, bitmap))[i].0 != self.entries@.push((key, bitmap))[j].0 by {
                if j == self.entries@.len() {
                    if self.entries@[i].0 == key {
                        assert(has_key(self.entries@, key));
                    }
                }
            }
        }
        self.used_bytes = self.used_bytes + size;
        self.entries.push((key, bitmap));
    }

    /// Drop the entries that match: every one for `page_index` when
    /// `by_page`, otherwise the one for `key`.
    fn drop_matching(&mut self, page_index: usize, key: CacheKey, by_page: bool)
        requires
            old(self).wf(),
        ensures
            final(self).wf(),
            final(self).budget() == old(self).budget(),
            final(self).hit_count() == old(self).hit_count(),
            final(self).miss_count() == old(self).miss_count(),
            final(self).entries() == old(self).entries().filter(|e: (CacheKey, Bitmap)| !matches_entry(e, page_index, key, by_page)),
    {
        let ghost start = self.entries@;
        let ghost f = |e: (CacheKey, Bitmap)| !matches_entry(e, page_index, key, by_page);
        let ghost n = start.len();
        let mut i: usize = 0;
        let ghost mut j: int = 0;
        proof {
            lemma_filter_distinct(start, f);
            assert(start.subrange(0, 0).filter(f) =~= Seq::<(CacheKey, Bitmap)>::empty()) by {
                reveal(Seq::filter);
            }
            assert(self.entries@ =~= start.subrange(0, 0).filter(f) + start.subrange(0, n as int));
        }
        while i < self.entries.len()
            invariant
                n == start.len(),
                0 <= j <= n,
                self.entries@ == start.subrange(0, j).filter(f) + start.subrange(j, n as int),
                i == start.subrange(0, j).filter(f).len(),
                self.used_bytes == bytes_of(self.entries@),
                self.budget_bytes == old(self).budget_bytes,
                self.hits == old(self).hits,
                self.misses == old(self).misses,
                start == old(self).entries@,
                old(self).wf(),
                f == (|e: (CacheKey, Bitmap)| !matches_entry(e, page_index, key, by_page)),
            decreases self.entries.len() - i,
        {
            let ghost before = self.entries@;
            proof {
                reveal(Seq::filter);
                assert(start.subrange(0, j + 1).drop_last() =~= start.subrange(0, j));
                assert(before[i as int] == start[j]);
            }
            let hit = if by_page { self.entries[i].0.page_index == page_index } else { self.entries[i].0 == key };
            if hit {
                let gone = self.entries.remove(i);
                proof {
                    lemma_bytes_remove(before, i as int);
                    assert(self.entries@ =~= start.subrange(0, j + 1).filter(f) + start.subrange(j + 1, n as int));
                }
                self.used_bytes = self.used_bytes - gone.1.byte_len();
            } else {
                proof {
                    assert(self.entries@ =~= start.subrange(0, j + 1).filter(f) + start.subrange(j + 1, n as int));
                }
                i = i + 1;
            }
            proof { j = j + 1; }
        }
        proof {
            if j < n {
                assert(self.entries@.len() > i);
            }
            assert(start.subrange(0, n as int) =~= start);
            assert(self.entries@ =~= start.filter(f));
            lemma_filter_bytes_le(start, f);
        }
    }

    /// Drop every entry for one page, at any zoom — what an edit to the page
    /// needs.
    pub fn invalidate_page(&mut self, page_index: usize)
        requires
            old(self).wf(),
        ensures
            final(self).wf(),
            final(self).budget() == old(self).budget(),
            final(self).hit_count() == old(self).hit_count(),
            final(self).miss_count() == old(self).miss_count(),
            final(self).entries() == old(self).entries().filter(|e: (CacheKey, Bitmap)| e.0.page_index != page_index),
    {
        let any = CacheKey { page_index, zoom_step: 0, rotation_quarter_turns: 0 };
        self.drop_matching(page_index, any, true);
        assert(old(self).entries().filter(|e: (CacheKey, Bitmap)| !matches_entry(e, page_index, any, true))
            =~= old(self).entries().filter(|e: (CacheKey, Bitmap)| e.0.page_index != page_index)) by {
            assert((|e: (CacheKey, Bitmap)| !matches_entry(e, page_index, any, true))
                =~= (|e: (CacheKey, Bitmap)| e.0.page_index != page_index));
        }
    }

    pub fn remove(&mut self, key: &CacheKey)
        requires
            old(self).wf(),
        ensures
            final(self).wf(),
            final(self).budget() == old(self).budget(),
            final(self).hit_count() == old(self).hit_count(),
            final(self).miss_count() == old(self).miss_count(),
            final(self).entries() == old(self).entries().filter(|e: (CacheKey, Bitmap)| e.0 != *key),
    {
        self.drop_matching(0, *key, false);
        assert(old(self).entries().filter(|e: (CacheKey, Bitmap)| !matches_entry(e, 0, *key, false))
            =~= old(self).entries().filter(|e: (CacheKey, Bitmap)| e.0 != *key)) by {
            assert((|e: (CacheKey, Bitmap)| !matches_entry(e, 0, *key, false))
                =~= (|e: (CacheKey, Bitmap)| e.0 != *key));
        }
    }

    pub fn clear(&mut self)
        ensures
            final(self).wf(),
            final(self).entries() == Seq::<(CacheKey, Bitmap)>::empty(),
            final(self).budget() == old(self).budget(),
            final(self).hit_count() == old(self).hit_count(),
            final(self).miss_count() == old(self).miss_count(),
    {
        self.entries = Vec::new();
        self.used_bytes = 0;
    }

    /// Change the budget, evicting down to it.
    pub fn set_budget(&mut self, budget_bytes: usize)
        requires
            old(self).wf(),
        ensures
            final(self).wf(),
            final(self).budget() == budget_bytes,
            final(self).entries() == evicted(old(self).entries(), 0, budget_bytes as nat),
            final(self).hit_count() == old(self).hit_count(),
            final(self).miss_count() == old(self).miss_count(),
    {
        self.budget_bytes = budget_bytes;
        let ghost start = self.entries@;
        while self.used_bytes > self.budget_bytes
            invariant
                self.used_bytes == bytes_of(self.entries@),
                self.budget_bytes == budget_bytes,
                keys_distinct(self.entries@),
                evicted(self.entries@, 0, budget_bytes as nat) == evicted(start, 0, budget_bytes as nat),
                start == old(self).entries@,
                self.hits == old(self).hits,
                self.misses == old(self).misses,
            decreases self.entries.len(),
        {
            let ghost before = self.entries@;
            if self.entries.len() == 0 {
                assert(false);
            }
            let victim = self.entries.remove(0);
            proof {
                lemma_bytes_first(before);
                assert(before.remove(0) =~= before.drop_first());
            }
            self.used_bytes = self.used_bytes - victim.1.byte_len();
        }
    }

    pub fn used_bytes(&self) -> (r: usize)
        requires
            self.wf(),
        ensures
            r == bytes_of(self.entries()),
    {
        self.used_bytes
    }

    pub fn len(&self) -> (r: usize)
        ensures
            r == self.entries().len(),
    {
        self.entries.len()
    }

    pub fn is_empty(&self) -> (r: bool)
        ensures
            r == (self.entries().len() == 0),
    {
        self.entries.len() == 0
    }

    pub fn stats(&self) -> (r: CacheStats)
        requires
            self.wf(),
        ensures
            r == (CacheStats {
                hits: self.hit_count(),
                misses: self.miss_count(),
                entries: self.entries().len() as usize,
                used_bytes: bytes_of(self.entries()) as usize,
                budget_bytes: self.budget() as usize,
            }),
    {
        CacheStats {
            hits: self.hits,
            misses: self.misses,
            entries: self.entries.len(),
            used_bytes: self.used_bytes,
            budget_bytes: self.budget_bytes,
        }
    }
}

proof fn lemma_filter_bytes_le(s: Seq<(CacheKey, Bitmap)>, f: spec_fn((CacheKey, Bitmap)) -> bool)
    ensures
        bytes_of(s.filter(f)) <= bytes_of(s),
    decreases s.len(),
{
    reveal(Seq::filter);
    if s.len() > 0 {
        lemma_filter_bytes_le(s.drop_last(), f);
        if f(s.last()) {
            lemma_bytes_push(s.drop_last().filter(f), s.last());
        }
    }
}

/// Whether an entry is one a drop is aimed at.
pub open spec fn matches_entry(e: (CacheKey, Bitmap), page_index: usize, key: CacheKey, by_page: bool) -> bool {
    if by_page { e.0.page_index == page_index } else { e.0 == key }
}

impl PageCache {
    /// A well-formed cache never holds a key twice.
    pub proof fn lemma_keys_distinct(&self)
        requires
            self.wf(),
        ensures
            keys_distinct(self.entries()),
    {
    }

    /// What a well-formed cache holds fits its budget.
    pub proof fn lemma_fits_budget(&self)
        requires
            self.wf(),
        ensures
            bytes_of(self.entries()) <= self.budget(),
    {
    }
}

/// Moving an entry to the back and then dropping its key leaves what dropping
/// the key would have left in the first place.
pub proof fn lemma_moved_then_dropped(s: Seq<(CacheKey, Bitmap)>, i: int, key: CacheKey)
    requires
        keys_distinct(s),
        0 <= i < s.len(),
        s[i].0 == key,
    ensures
        s.remove(i).push(s[i]).filter(|e: (CacheKey, Bitmap)| e.0 != key) == s.filter(|e: (CacheKey, Bitmap)| e.0 != key),
{
    let f = |e: (CacheKey, Bitmap)| e.0 != key;
    let t = s.remove(i);
    lemma_removed_key_gone(s, i, key);
    lemma_filter_all(t, key);
    lemma_remove_is_filter(s, i, key);
    lemma_push_dropped(t, s[i], f);
    assert(t.push(s[i]).filter(f) == t.filter(f));
    assert(t.filter(f) == t);
    assert(t == s.filter(f));
}

/// Pushing an item the filter drops leaves the filtered list as it was.
proof fn lemma_push_dropped(t: Seq<(CacheKey, Bitmap)>, x: (CacheKey, Bitmap), f: spec_fn((CacheKey, Bitmap)) -> bool)
    requires
        !f(x),
    ensures
        t.push(x).filter(f) == t.filter(f),
{
    t.lemma_filter_push(x, f);
}

/// Once the one entry for a key is removed, no entry has that key.
proof fn lemma_removed_key_gone(s: Seq<(CacheKey, Bitmap)>, i: int, key: CacheKey)
    requires
        keys_distinct(s),
        0 <= i < s.len(),
        s[i].0 == key,
    ensures
        forall|w: int| 0 <= w < s.remove(i).len() ==> s.remove(i)[w].0 != key,
{
    assert forall|w: int| 0 <= w < s.remove(i).len() implies s.remove(i)[w].0 != key by {
        if w < i {
            assert(s[w].0 != s[i].0);
        } else {
            assert(s[w + 1].0 != s[i].0);
        }
    }
}

/// What eviction keeps is a suffix of the list, and no longer suffix would
/// have left room: the least recently used go first, and only while needed.
proof fn lemma_evicted_suffix(s: Seq<(CacheKey, Bitmap)>, incoming: nat, budget: nat) -> (k: int)
    ensures
        0 <= k <= s.len(),
        evicted(s, incoming, budget) == s.subrange(k, s.len() as int),
        forall|j: int| 0 <= j < k ==> #[trigger] bytes_of(s.subrange(j, s.len() as int)) + incoming > budget,
    decreases s.len(),
{
    if s.len() == 0 || bytes_of(s) + incoming <= budget {
        assert(s.subrange(0, s.len() as int) =~= s);
        0
    } else {
        let rest = s.drop_first();
        let k1 = lemma_evicted_suffix(rest, incoming, budget);
        assert(rest.subrange(k1, rest.len() as int) =~= s.subrange(k1 + 1, s.len() as int));
        assert forall|j: int| 0 <= j < k1 + 1 implies #[trigger] bytes_of(s.subrange(j, s.len() as int)) + incoming > budget by {
            if j == 0 {
                assert(s.subrange(0, s.len() as int) =~= s);
            } else {
                assert(rest.subrange(j - 1, rest.len() as int) =~= s.subrange(j, s.len() as int));
                assert(bytes_of(rest.subrange(j - 1, rest.len() as int)) + incoming > budget);
            }
        }
        k1 + 1
    }
}

/// Storing a raster that fits the budget: every entry under its key goes, the
/// least recently used of the others go first and only while needed to make
/// room, those kept stay in their order, the new raster is the most recently
/// used, and the cache stays within its budget.
pub proof fn law_put_evicts_least_recently_used_first(s: Seq<(CacheKey, Bitmap)>, key: CacheKey,
    bitmap: Bitmap, budget: nat)
    requires
        bitmap.data@.len() <= budget,
    ensures
        ({
            let others = s.filter(|e: (CacheKey, Bitmap)| e.0 != key);
            let after = evicted(others, bitmap.data@.len(), budget).push((key, bitmap));
            &&& exists|k: int| 0 <= k <= others.len()
                && evicted(others, bitmap.data@.len(), budget) == others.subrange(k, others.len() as int)
                && forall|j: int| 0 <= j < k
                    ==> #[trigger] bytes_of(others.subrange(j, others.len() as int)) + bitmap.data@.len() > budget
            &&& after.last() == (key, bitmap)
            &&& !has_key(after.drop_last(), key)
            &&& bytes_of(after) <= budget
        }),
{
    let others = s.filter(|e: (CacheKey, Bitmap)| e.0 != key);
    let kept = evicted(others, bitmap.data@.len(), budget);
    let k = lemma_evicted_suffix(others, bitmap.data@.len(), budget);
    lemma_evicted_fits(others, bitmap.data@.len(), budget);
    lemma_bytes_push(kept, (key, bitmap));
    let after = kept.push((key, bitmap));
    assert(after.drop_last() =~= kept);
    if has_key(kept, key) {
        let i = choose|i: int| 0 <= i < kept.len() && kept[i].0 == key;
        assert(has_key(others, key));
        let w = choose|w: int| 0 <= w < others.len() && others[w].0 == key;
        assert(others.contains(others[w]));
        s.lemma_filter_contains_rev(|e: (CacheKey, Bitmap)| e.0 != key, others[w]);
    }
    if kept.len() == 0 {
        assert(bytes_of(kept) == 0);
    }
}

/// Dropping a key that is not there changes nothing.
pub proof fn lemma_no_key_filter(s: Seq<(CacheKey, Bitmap)>, key: CacheKey)
    requires
        !has_key(s, key),
    ensures
        s.filter(|e: (CacheKey, Bitmap)| e.0 != key) == s,
{
    assert forall|w: int| 0 <= w < s.len() implies s[w].0 != key by {
        if s[w].0 == key { assert(has_key(s, key)); }
    }
    lemma_filter_all(s, key);
}

/// Removing the one entry for a key is the same as keeping every other key.
proof fn lemma_remove_is_filter(s: Seq<(CacheKey, Bitmap)>, i: int, key: CacheKey)
    requires
        keys_distinct(s),
        0 <= i < s.len(),
        s[i].0 == key,
    ensures
        s.remove(i) == s.filter(|e: (CacheKey, Bitmap)| e.0 != key),
    decreases s.len(),
{
    broadcast use vstd::seq_lib::group_filter_ensures;
    reveal(Seq::filter);
    let f = |e: (CacheKey, Bitmap)| e.0 != key;
    if i == s.len() - 1 {
        assert forall|w: int| 0 <= w < s.len() - 1 implies s.drop_last()[w].0 != key by {
            assert(s[w].0 != s[i].0);
        }
        lemma_filter_all(s.drop_last(), key);
        assert(s.remove(i) =~= s.drop_last());
    } else {
        lemma_remove_is_filter(s.drop_last(), i, key);
        assert(s.remove(i) =~= s.drop_last().remove(i).push(s.last()));
        assert(s.last().0 != key) by {
            assert(s[s.len() - 1].0 != s[i].0);
        }
    }
}

proof fn lemma_filter_all(s: Seq<(CacheKey, Bitmap)>, key: CacheKey)
    requires
        forall|w: int| 0 <= w < s.len() ==> s[w].0 != key,
    ensures
        s.filter(|e: (CacheKey, Bitmap)| e.0 != key) == s,
    decreases s.len(),
{
    reveal(Seq::filter);
    if s.len() > 0 {
        lemma_filter_all(s.drop_last(), key);
        assert(s =~= s.drop_last().push(s.last()));
    } else {
        assert(s.filter(|e: (CacheKey, Bitmap)| e.0 != key) =~= s);
    }
}

} // verus!
