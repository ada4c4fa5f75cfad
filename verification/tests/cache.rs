use pdf_core::render::bitmap::{Bitmap, PixelOrder};
use pdf_core::render::cache::{CacheKey, PageCache};

/// The zoom quantisation of the app's layer, which works in floating point:
/// rounded up to quarter steps, never below one step.
fn quantise_zoom(zoom: f32) -> u32 {
    let clamped = zoom.max(0.25);
    let steps = (clamped / 0.25).ceil();
    steps.max(1.0) as u32
}

fn key(page: usize, zoom: f32, turns: u8) -> CacheKey {
    CacheKey::at_step(page, quantise_zoom(zoom), turns)
}

fn bitmap_of(px: u32) -> Bitmap {
    Bitmap::new(px, px, PixelOrder::Rgba).unwrap()
}

#[test]
fn rotation_and_page_are_part_of_the_identity() {
    assert_ne!(key(0, 1.0, 0), key(1, 1.0, 0));
    assert_ne!(key(0, 1.0, 0), key(0, 1.0, 1));
    assert_eq!(key(0, 1.0, 4), key(0, 1.0, 0), "quarter turns wrap");
}

#[test]
fn hits_and_misses_are_counted() {
    let mut cache = PageCache::new(1024 * 1024);
    let k = key(0, 1.0, 0);
    assert!(cache.get(&k).is_none());
    cache.put(k, bitmap_of(4));
    assert!(cache.get(&k).is_some());
    let stats = cache.stats();
    assert_eq!(stats.hits, 1);
    assert_eq!(stats.misses, 1);
}

#[test]
fn eviction_removes_the_least_recently_used_entry_first() {
    let mut cache = PageCache::new(800);
    let (a, b, c) = (key(0, 1.0, 0), key(1, 1.0, 0), key(2, 1.0, 0));
    cache.put(a, bitmap_of(10));
    cache.put(b, bitmap_of(10));
    cache.get(&a);
    cache.put(c, bitmap_of(10));
    assert!(cache.contains(&a), "recently used entry survived");
    assert!(!cache.contains(&b), "least recently used entry evicted");
    assert!(cache.contains(&c));
    assert_eq!(cache.used_bytes(), 800);
}

#[test]
fn used_bytes_tracks_insertions_evictions_and_removals() {
    let mut cache = PageCache::new(10_000);
    cache.put(key(0, 1.0, 0), bitmap_of(10));
    cache.put(key(1, 1.0, 0), bitmap_of(20));
    assert_eq!(cache.used_bytes(), 2000);
    cache.remove(&key(0, 1.0, 0));
    assert_eq!(cache.used_bytes(), 1600);
    cache.clear();
    assert_eq!(cache.used_bytes(), 0);
    assert!(cache.is_empty());
}

#[test]
fn reinserting_the_same_key_does_not_double_count_memory() {
    let mut cache = PageCache::new(10_000);
    let k = key(0, 1.0, 0);
    cache.put(k, bitmap_of(10));
    cache.put(k, bitmap_of(10));
    assert_eq!(cache.len(), 1);
    assert_eq!(cache.used_bytes(), 400, "the old entry's bytes were reclaimed");
}

#[test]
fn a_bitmap_larger_than_the_whole_budget_is_refused_without_evicting() {
    let mut cache = PageCache::new(1000);
    let keeper = key(0, 1.0, 0);
    cache.put(keeper, bitmap_of(10));
    cache.put(key(1, 8.0, 0), bitmap_of(100));
    assert!(cache.contains(&keeper));
    assert_eq!(cache.len(), 1);
}

#[test]
fn invalidating_a_page_drops_every_zoom_level_of_it_only() {
    let mut cache = PageCache::new(100_000);
    cache.put(key(3, 1.0, 0), bitmap_of(10));
    cache.put(key(3, 2.0, 0), bitmap_of(10));
    cache.put(key(4, 1.0, 0), bitmap_of(10));
    cache.invalidate_page(3);
    assert_eq!(cache.len(), 1);
    assert!(cache.contains(&key(4, 1.0, 0)));
    assert_eq!(cache.used_bytes(), 400, "byte accounting survives invalidation");
}

#[test]
fn shrinking_the_budget_evicts_down_to_the_new_limit() {
    let mut cache = PageCache::new(10_000);
    for page in 0..5 {
        cache.put(key(page, 1.0, 0), bitmap_of(10));
    }
    assert_eq!(cache.used_bytes(), 2000);
    cache.set_budget(900);
    assert!(cache.used_bytes() <= 900);
    assert_eq!(cache.len(), 2);
}

#[test]
fn the_most_recent_entry_is_what_a_hit_returns_and_the_stats_say_so() {
    let mut cache = PageCache::new(10_000);
    let mut first = bitmap_of(2);
    first.data[0] = 9;
    cache.put(CacheKey::at_step(0, 4, 0), first);
    assert_eq!(cache.get(&CacheKey::at_step(0, 4, 0)).map(|b| b.data[0]), Some(9));
    let stats = cache.stats();
    assert_eq!((stats.entries, stats.used_bytes, stats.budget_bytes), (1, 16, 10_000));
    assert_eq!(CacheKey::at_step(2, 3, 6).rotation_quarter_turns, 2);
}
