use std::sync::Arc;

use article_engine::article::Article;
use article_engine::cache::ArticleCache;
use article_engine::recorder::CacheHit;

fn article(id: i32, title: &str) -> Article {
    Article {
        id,
        title: Arc::new(title.to_string()),
        description: Arc::new(format!("about {title}")),
        content: Arc::new(format!("body of {title}")),
        date: 20240101,
        tags: Arc::new(vec!["t".to_string()]),
        keywords: Arc::new(vec![]),
    }
}

#[test]
fn cache_round_trip() {
    let mut cache = ArticleCache::new(4);
    cache.put(7, article(7, "seven"));
    let got = cache.get(7).expect("stored value must be found");
    assert_eq!(got.id, 7);
    assert_eq!(*got.title, "seven");
    assert_eq!(*got.content, "body of seven");
    assert_eq!(cache.len(), 1);
    cache.clear();
    assert!(cache.get(7).is_none());
    assert_eq!(cache.len(), 0);
}

#[test]
fn eviction_drops_least_recently_used() {
    let mut cache = ArticleCache::new(2);
    cache.put(1, article(1, "one"));
    cache.put(2, article(2, "two"));
    cache.put(3, article(3, "three"));
    assert_eq!(cache.len(), 2);
    assert_eq!(cache.cap(), 2);
    assert!(cache.get(1).is_none(), "least recently used id must be gone");
    assert!(cache.get(2).is_some());
    assert!(cache.get(3).is_some());
}

#[test]
fn get_promotes_against_eviction() {
    let mut cache = ArticleCache::new(2);
    cache.put(1, article(1, "one"));
    cache.put(2, article(2, "two"));
    // Touch 1 so that 2 becomes the least recently used entry.
    assert!(cache.get(1).is_some());
    cache.put(3, article(3, "three"));
    assert!(cache.get(2).is_none());
    assert!(cache.get(1).is_some());
    assert!(cache.get(3).is_some());
}

#[test]
fn put_replaces_value_under_same_key() {
    let mut cache = ArticleCache::new(2);
    cache.put(1, article(1, "first"));
    cache.put(1, article(1, "second"));
    assert_eq!(cache.len(), 1);
    assert_eq!(*cache.get(1).unwrap().title, "second");
}

#[test]
fn recorder_counts_and_resets() {
    let mut rec = CacheHit::new();
    assert_eq!(rec.cache_hit, 0);
    assert_eq!(rec.cache_miss, 0);
    rec.hit();
    rec.hit();
    rec.miss();
    assert_eq!(rec.cache_hit, 2);
    assert_eq!(rec.cache_miss, 1);
    rec.reset();
    assert_eq!(rec.cache_hit, 0);
    assert_eq!(rec.cache_miss, 0);
}
