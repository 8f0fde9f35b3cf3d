use std::cell::Cell;

use wgpu_tensor::pool::{CacheMap, TensorPool};

#[test]
fn take_returns_the_recycled_buffer() {
    let mut pool: TensorPool<&str> = TensorPool::new();
    assert_eq!(pool.take(256), None);
    pool.recycle(256, "a");
    assert_eq!(pool.take(512), None);
    assert_eq!(pool.take(256), Some("a"));
    assert_eq!(pool.take(256), None);
}

#[test]
fn take_hands_out_latest_first() {
    let mut pool: TensorPool<u32> = TensorPool::new();
    pool.recycle(1024, 1);
    pool.recycle(1024, 2);
    pool.recycle(4096, 3);
    assert_eq!(pool.take(1024), Some(2));
    assert_eq!(pool.take(4096), Some(3));
    assert_eq!(pool.take(1024), Some(1));
    assert_eq!(pool.take(1024), None);
}

#[test]
fn buffers_without_size_are_dropped() {
    let mut pool: TensorPool<u32> = TensorPool::new();
    pool.recycle(0, 7);
    assert_eq!(pool.take(0), None);
}

#[test]
fn clear_drops_everything() {
    let mut pool: TensorPool<u32> = TensorPool::new();
    pool.recycle(256, 1);
    pool.recycle(512, 2);
    pool.clear();
    assert_eq!(pool.take(256), None);
    assert_eq!(pool.take(512), None);
}

#[test]
fn cache_builds_each_key_once() {
    let built = Cell::new(0u32);
    let mut cache: CacheMap<String> = CacheMap::new();
    let first = cache.get(3, || {
        built.set(built.get() + 1);
        "three".to_string()
    });
    let second = cache.get(3, || {
        built.set(built.get() + 1);
        "other".to_string()
    });
    assert_eq!(*first, "three");
    assert_eq!(*second, "three");
    assert_eq!(built.get(), 1);
    let fourth = cache.get(4, || "four".to_string());
    assert_eq!(*fourth, "four");
    assert_eq!(*cache.get(3, || "again".to_string()), "three");
}
