//! Keyed stores the application keeps GPU objects in: the pool of
//! temporary tensor buffers, filed by buffer size, and the cache of objects
//! built once per key.

use vstd::prelude::*;
use std::collections::HashMap;
use std::sync::Arc;

verus! {

broadcast use vstd::std_specs::hash::group_hash_axioms;

/// The buffers filed under `size`, none if there are none.
pub open spec fn filed<T>(pool: Map<u64, Seq<T>>, size: u64) -> Seq<T> {
    if pool.contains_key(size) { pool[size] } else { Seq::empty() }
}

/// The pool after filing `tensor` under `size`: appended to that size's
/// buffers; a buffer without a valid size (zero) is dropped.
pub open spec fn recycled<T>(pool: Map<u64, Seq<T>>, size: u64, tensor: T) -> Map<u64, Seq<T>> {
    if size == 0 {
        pool
    } else {
        pool.insert(size, filed(pool, size).push(tensor))
    }
}

/// Taking from `bucket`: its most recently filed buffer, removed from the
/// pool, or nothing (and the pool unchanged) if it has none.
pub open spec fn taken<T>(pool: Map<u64, Seq<T>>, bucket: u64) -> (Option<T>, Map<u64, Seq<T>>) {
    if filed(pool, bucket).len() > 0 {
        (Some(pool[bucket].last()), pool.insert(bucket, pool[bucket].drop_last()))
    } else {
        (None, pool)
    }
}

/// A buffer filed under a valid size is the one the next take of that size
/// hands out, and that take leaves the buffers filed before it as they were.
pub proof fn lemma_take_returns_recycled<T>(pool: Map<u64, Seq<T>>, size: u64, tensor: T)
    requires
        size != 0,
    ensures
        taken(recycled(pool, size, tensor), size) == (Some(tensor), pool.insert(size, filed(pool, size))),
{
    let after = recycled(pool, size, tensor);
    assert(after[size].drop_last() =~= filed(pool, size));
    assert(after.insert(size, after[size].drop_last()) =~= pool.insert(size, filed(pool, size)));
}

/// Buffers of finished temporary tensors, filed by their size in bytes so
/// that a new temporary of the same bucket size can reuse one.
pub struct TensorPool<T> {
    tensors: HashMap<u64, Vec<T>>,
}

impl<T> TensorPool<T> {
    /// The buffers held, by size, oldest first.
    pub closed spec fn view(&self) -> Map<u64, Seq<T>> {
        self.tensors@.map_values(|v: Vec<T>| v@)
    }

    /// An empty pool.
    pub fn new() -> (r: TensorPool<T>)
        ensures
            r.view() == Map::<u64, Seq<T>>::empty(),
    {
        let r = TensorPool { tensors: HashMap::new() };
        assert(r.view() =~= Map::<u64, Seq<T>>::empty());
        r
    }

    /// Files `tensor`, whose buffer has `size` bytes, for reuse; a buffer
    /// without a valid size (zero) is dropped.
    pub fn recycle(&mut self, size: u64, tensor: T)
        ensures
            final(self).view() == recycled(old(self).view(), size, tensor),
    {
        if size == 0 {
            return;
        }
        let ghost before = self.view();
        let mut bucket = match self.tensors.remove(&size) {
            Some(v) => v,
            None => Vec::new(),
        };
        bucket.push(tensor);
        self.tensors.insert(size, bucket);
        assert(self.view() =~= before.insert(
            size,
            if before.contains_key(size) { before[size] } else { Seq::empty() }.push(tensor),
        ));
    }

    /// Takes the most recently filed buffer of `bucket` bytes, if any.
    pub fn take(&mut self, bucket: u64) -> (r: Option<T>)
        ensures
            (r, final(self).view()) == taken(old(self).view(), bucket),
    {
        let ghost before = self.view();
        match self.tensors.remove(&bucket) {
            Some(mut v) => {
                let r = v.pop();
                self.tensors.insert(bucket, v);
                assert(self.view() =~= if before[bucket].len() > 0 {
                    before.insert(bucket, before[bucket].drop_last())
                } else {
                    before
                });
                r
            },
            None => {
                assert(self.view() =~= before);
                None
            },
        }
    }

    /// Drops every buffer.
    pub fn clear(&mut self)
        ensures
            final(self).view() == Map::<u64, Seq<T>>::empty(),
    {
        self.tensors = HashMap::new();
        assert(self.view() =~= Map::<u64, Seq<T>>::empty());
    }
}

/// Objects built on first use, one per key, and shared afterwards.
pub struct CacheMap<V> {
    inner: HashMap<usize, Arc<V>>,
}

impl<V> CacheMap<V> {
    /// The objects built so far, by key.
    pub closed spec fn view(&self) -> Map<usize, V> {
        self.inner@.map_values(|v: Arc<V>| *v)
    }

    /// An empty cache.
    pub fn new() -> (r: CacheMap<V>)
        ensures
            r.view() == Map::<usize, V>::empty(),
    {
        let r = CacheMap { inner: HashMap::new() };
        assert(r.view() =~= Map::<usize, V>::empty());
        r
    }

    /// The object of `key`: the one built before, or (the first time) the
    /// one `callback` builds, which is kept for later.
    pub fn get(&mut self, key: usize, callback: impl FnOnce() -> V) -> (r: Arc<V>)
        requires
            call_requires(callback, ()),
        ensures
            old(self).view().contains_key(key) ==> *r == old(self).view()[key] && final(self).view() == old(self).view(),
            !old(self).view().contains_key(key) ==> call_ensures(callback, (), *r)
                && final(self).view() == old(self).view().insert(key, *r),
    {
        let ghost before = self.view();
        match self.inner.remove(&key) {
            Some(value) => {
                let shared = Arc::clone(&value);
                self.inner.insert(key, value);
                assert(self.view() =~= before);
                shared
            },
            None => {
                let value = Arc::new(callback());
                let shared = Arc::clone(&value);
                self.inner.insert(key, value);
                assert(self.view() =~= before.insert(key, *shared));
                shared
            },
        }
    }
}

} // verus!
