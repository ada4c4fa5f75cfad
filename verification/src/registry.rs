//! Ownership of open documents.
//!
//! A caller only ever holds an opaque handle. Handles are monotonically
//! increasing and never reused, so a stale handle from a double close or a
//! leaked reference reliably reports `InvalidHandle` instead of silently
//! addressing whatever document happens to occupy that slot now.

use std::collections::HashMap;
use vstd::prelude::*;
use crate::error::{PdfError, Result};
use crate::render::cache::{CacheKey, PageCache};
use crate::render::bitmap::Bitmap;
use crate::render::DEFAULT_CACHE_BUDGET_BYTES;

verus! {

/// A document plus everything owned alongside it for its lifetime.
pub struct DocumentSession<D> {
    pub document: D,
    pub cache: PageCache,
}

impl<D> DocumentSession<D> {
    pub fn new(document: D) -> (r: Self)
        ensures
            r.document == document,
            r.cache.entries() == Seq::<(CacheKey, Bitmap)>::empty(),
            r.cache.budget() == DEFAULT_CACHE_BUDGET_BYTES,
            r.cache.wf(),
            r.cache.hit_count() == 0,
            r.cache.miss_count() == 0,
    {
        DocumentSession { document, cache: PageCache::new(DEFAULT_CACHE_BUDGET_BYTES) }
    }
}

/// The open documents, by handle, and the handle the next one will get.
pub struct Registry<D> {
    next_handle: i64,
    sessions: HashMap<i64, DocumentSession<D>>,
}

impl<D> Registry<D> {
    /// The open sessions, by handle.
    pub closed spec fn sessions(&self) -> Map<i64, DocumentSession<D>> {
        self.sessions@
    }

    /// The handle the next document will be given.
    pub closed spec fn next(&self) -> int {
        self.next_handle as int
    }

    /// Every handle in use is below the next one to be given out, which is
    /// what keeps a handle from ever being given out twice.
    #[verifier::type_invariant]
    closed spec fn handles_below_next(self) -> bool {
        &&& self.next_handle >= 1
        &&& forall|h: i64| #[trigger] self.sessions@.contains_key(h) ==> 1 <= h < self.next_handle
    }

    /// No documents open; the first will be handle 1.
    pub fn new() -> (r: Self)
        ensures
            r.sessions() == Map::<i64, DocumentSession<D>>::empty(),
            r.next() == 1,
    {
        Registry { next_handle: 1, sessions: HashMap::new() }
    }
}

/// Open a session for a document and hand out its handle: the next one, never
/// one used before.
pub fn insert<D>(registry: &mut Registry<D>, document: D) -> (r: i64)
    requires
        old(registry).next() < i64::MAX,
    ensures
        r == old(registry).next(),
        final(registry).next() == r + 1,
        forall|h: i64| #[trigger] old(registry).sessions().contains_key(h) ==> h < r,
        final(registry).sessions().dom() == old(registry).sessions().dom().insert(r),
        final(registry).sessions()[r].document == document,
        final(registry).sessions()[r].cache.entries() == Seq::<(CacheKey, Bitmap)>::empty(),
        final(registry).sessions()[r].cache.budget() == DEFAULT_CACHE_BUDGET_BYTES,
        final(registry).sessions()[r].cache.wf(),
        forall|h: i64| #[trigger] old(registry).sessions().contains_key(h) ==> final(registry).sessions()[h]
            == old(registry).sessions()[h],
{
    proof {
        use_type_invariant(&*registry);
    }
    let handle = registry.next_handle;
    let mut sessions = HashMap::new();
    std::mem::swap(&mut sessions, &mut registry.sessions);
    sessions.insert(handle, DocumentSession::new(document));
    *registry = Registry { next_handle: handle + 1, sessions };
    handle
}

/// Run `f` against the session for `handle`, or report that there is none.
pub fn with_session<D, T>(registry: &mut Registry<D>, handle: i64, f: impl FnOnce(&mut DocumentSession<D>) -> Result<T>)
    -> (r: Result<T>)
    requires
        forall|s: &mut DocumentSession<D>| f.requires((s,)),
    ensures
        !old(registry).sessions().contains_key(handle) ==> r == Err::<T, PdfError>(PdfError::InvalidHandle(handle))
            && final(registry).sessions() == old(registry).sessions(),
        old(registry).sessions().contains_key(handle) ==> exists|s: &mut DocumentSession<D>| {
            &&& *s == old(registry).sessions()[handle]
            &&& *final(s) == final(registry).sessions()[handle]
            &&& #[trigger] f.ensures((s,), r)
        },
        final(registry).sessions().dom() == old(registry).sessions().dom(),
        final(registry).next() == old(registry).next(),
        forall|h: i64| h != handle && #[trigger] old(registry).sessions().contains_key(h)
            ==> final(registry).sessions()[h] == old(registry).sessions()[h],
{
    proof {
        use_type_invariant(&*registry);
    }
    let next_handle = registry.next_handle;
    let mut sessions = HashMap::new();
    std::mem::swap(&mut sessions, &mut registry.sessions);
    let mut session = match sessions.remove(&handle) {
        Some(s) => s,
        None => {
            *registry = Registry { next_handle, sessions };
            return Err(PdfError::InvalidHandle(handle));
        },
    };
    let r = f(&mut session);
    sessions.insert(handle, session);
    proof {
        assert(sessions@.dom() =~= old(registry).sessions@.dom());
    }
    *registry = Registry { next_handle, sessions };
    r
}

/// Close a document, returning whether a live document was actually closed.
/// A `false` return means a double close.
pub fn remove<D>(registry: &mut Registry<D>, handle: i64) -> (r: bool)
    ensures
        r == old(registry).sessions().contains_key(handle),
        final(registry).sessions() == old(registry).sessions().remove(handle),
        final(registry).next() == old(registry).next(),
        r ==> final(registry).sessions().len() + 1 == old(registry).sessions().len(),
        !r ==> final(registry).sessions().len() == old(registry).sessions().len(),
{
    proof {
        use_type_invariant(&*registry);
    }
    let next_handle = registry.next_handle;
    let mut sessions = HashMap::new();
    std::mem::swap(&mut sessions, &mut registry.sessions);
    let r = sessions.remove(&handle).is_some();
    proof {
        assert(sessions@ =~= old(registry).sessions@.remove(handle));
        vstd::std_specs::hash::axiom_hashmap_view_finite_dom(sessions);
        assert(old(registry).sessions@.dom().finite()) by {
            assert(old(registry).sessions@.dom() =~= sessions@.dom().union(
                if r { set![handle] } else { Set::empty() }));
        }
    }
    *registry = Registry { next_handle, sessions };
    r
}

/// How many documents are open.
pub fn open_count<D>(registry: &Registry<D>) -> (r: usize)
    ensures
        r == registry.sessions().len(),
{
    registry.sessions.len()
}

/// Drop every open document. Handles already given out stay used.
pub fn clear_all<D>(registry: &mut Registry<D>)
    ensures
        final(registry).sessions() == Map::<i64, DocumentSession<D>>::empty(),
        final(registry).next() == old(registry).next(),
{
    proof {
        use_type_invariant(&*registry);
    }
    let next_handle = registry.next_handle;
    *registry = Registry { next_handle, sessions: HashMap::new() };
}

/// Release cached rasters everywhere without closing anything.
pub fn trim_caches<D>(registry: &mut Registry<D>)
    ensures
        final(registry).sessions().dom() == old(registry).sessions().dom(),
        final(registry).next() == old(registry).next(),
        forall|h: i64| #[trigger] old(registry).sessions().contains_key(h) ==> {
            &&& final(registry).sessions()[h].document == old(registry).sessions()[h].document
            &&& final(registry).sessions()[h].cache.entries() == Seq::<(CacheKey, Bitmap)>::empty()
            &&& final(registry).sessions()[h].cache.wf()
            &&& final(registry).sessions()[h].cache.budget() == old(registry).sessions()[h].cache.budget()
        },
{
    proof {
        use_type_invariant(&*registry);
    }
    // Every handle ever given out is below the next one, so walking up to
    // it visits every open session.
    let next_handle = registry.next_handle;
    let mut sessions = HashMap::new();
    std::mem::swap(&mut sessions, &mut registry.sessions);
    let ghost before = sessions@;
    let mut h: i64 = 1;
    while h < next_handle
        invariant
            1 <= h <= next_handle,
            next_handle == old(registry).next_handle,
            before == old(registry).sessions@,
            forall|k: i64| #[trigger] before.contains_key(k) ==> 1 <= k < next_handle,
            sessions@.dom() == before.dom(),
            forall|k: i64| #[trigger] before.contains_key(k) && k < h ==> {
                &&& sessions@[k].document == before[k].document
                &&& sessions@[k].cache.entries() == Seq::<(CacheKey, Bitmap)>::empty()
                &&& sessions@[k].cache.wf()
                &&& sessions@[k].cache.budget() == before[k].cache.budget()
            },
            forall|k: i64| #[trigger] before.contains_key(k) && k >= h ==> sessions@[k] == before[k],
        decreases next_handle - h,
    {
        let ghost current = sessions@;
        match sessions.remove(&h) {
            Some(mut session) => {
                session.cache.clear();
                sessions.insert(h, session);
                proof {
                    assert(sessions@.dom() =~= before.dom());
                }
            },
            None => {
                proof {
                    assert(sessions@ =~= current);
                }
            },
        }
        h = h + 1;
    }
    *registry = Registry { next_handle, sessions };
}

} // verus!
