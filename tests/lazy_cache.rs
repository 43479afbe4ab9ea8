use std::sync::atomic::{AtomicUsize, Ordering};
use std::sync::Arc;
use workpool::lazy::LazyCache;

type FetchFn = dyn Fn(&str) -> Result<String, String> + Sync + Send;

#[test]
fn initial_get_triggers_fetch() {
    let f: Box<FetchFn> = Box::new(|k| Ok(format!("val:{}", k)));
    let mut cache = LazyCache::new(f);
    assert_eq!(cache.get("a"), Ok("val:a".to_string()));
}

#[test]
fn repeated_get_does_not_trigger_fetch_again() {
    let counter = Arc::new(AtomicUsize::new(0));
    let c = counter.clone();
    let f: Box<FetchFn> = Box::new(move |k| {
        c.fetch_add(1, Ordering::SeqCst);
        Ok(format!("v:{}", k))
    });

    let mut cache = LazyCache::new(f);
    assert_eq!(cache.get("x"), Ok("v:x".to_string()));
    assert_eq!(cache.get("x"), Ok("v:x".to_string()));
    assert_eq!(counter.load(Ordering::SeqCst), 1);
}

#[test]
fn fetch_failure_is_not_cached() {
    let counter = Arc::new(AtomicUsize::new(0));
    let c = counter.clone();
    let f: Box<FetchFn> = Box::new(move |_| {
        c.fetch_add(1, Ordering::SeqCst);
        Err("fail".to_string())
    });

    let mut cache = LazyCache::new(f);
    assert_eq!(cache.get("k"), Err("fail".to_string()));
    assert_eq!(cache.get("k"), Err("fail".to_string()));
    assert_eq!(counter.load(Ordering::SeqCst), 2);
}

#[test]
fn distinct_keys_are_fetched_separately() {
    let counter = Arc::new(AtomicUsize::new(0));
    let c = counter.clone();
    let f: Box<FetchFn> = Box::new(move |k| {
        c.fetch_add(1, Ordering::SeqCst);
        Ok(k.to_uppercase())
    });
    let mut cache = LazyCache::new(f);
    assert_eq!(cache.get("a"), Ok("A".to_string()));
    assert_eq!(cache.get("b"), Ok("B".to_string()));
    assert_eq!(cache.get("a"), Ok("A".to_string()));
    assert_eq!(counter.load(Ordering::SeqCst), 2);
}
