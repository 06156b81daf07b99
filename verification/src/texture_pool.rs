//! The render-target texture pool: textures of equal size and usage are
//! recycled across frames instead of reallocated.
//!
//! The pool stores textures of any handle type `T` in buckets keyed by
//! [`PoolKey`]. `acquire` hands out the most recently released texture of
//! the bucket, or reports a miss (the caller then creates a texture, which
//! counts as a live allocation). `release` keeps at most
//! [`BUCKET_CAPACITY`] textures per bucket so pathological sizes cannot
//! accumulate.

use vstd::prelude::*;

verus! {

/// Most textures a single bucket keeps.
pub const BUCKET_CAPACITY: usize = 8;

/// Size and usage bits of a pooled texture.
#[derive(Clone, Copy, PartialEq, Eq, Structural, Debug)]
pub struct PoolKey {
    pub width: u32,
    pub height: u32,
    pub usage: u32,
}

/// The abstract state of a pool: the bucket of every key (empty when the
/// key was never used), textures created, and textures reused.
pub struct PoolState<T> {
    pub buckets: Map<PoolKey, Seq<T>>,
    pub live: nat,
    pub reuse: nat,
}

/// Every key has a bucket, and no bucket exceeds the capacity.
pub open spec fn pool_state_wf<T>(s: PoolState<T>) -> bool {
    &&& forall|k: PoolKey| #[trigger] s.buckets.dom().contains(k)
    &&& forall|k: PoolKey| #[trigger] s.buckets[k].len() <= BUCKET_CAPACITY
}

/// The state after acquiring a `key` texture, and the texture handed out
/// (`None` on a miss, which counts a newly created texture).
pub open spec fn pool_acquire<T>(s: PoolState<T>, key: PoolKey) -> (PoolState<T>, Option<T>) {
    let b = s.buckets[key];
    if b.len() > 0 {
        (PoolState { buckets: s.buckets.insert(key, b.drop_last()), live: s.live, reuse: s.reuse + 1 }, Some(b.last()))
    } else {
        (PoolState { buckets: s.buckets, live: s.live + 1, reuse: s.reuse }, None)
    }
}

/// The state after returning `texture` under `key`: kept unless the bucket
/// is full.
pub open spec fn pool_release<T>(s: PoolState<T>, key: PoolKey, texture: T) -> PoolState<T> {
    let b = s.buckets[key];
    if b.len() < BUCKET_CAPACITY {
        PoolState { buckets: s.buckets.insert(key, b.push(texture)), live: s.live, reuse: s.reuse }
    } else {
        s
    }
}

/// A texture pool over texture handles of type `T`.
pub struct TexturePool<T> {
    keys: Vec<PoolKey>,
    buckets: Vec<Vec<T>>,
    live_count: usize,
    reuse_count: u64,
}

impl<T> TexturePool<T> {
    /// The bucket stored under `key`, if any.
    spec fn stored(&self, key: PoolKey) -> Seq<T> {
        if exists|i: int| 0 <= i < self.keys@.len() && self.keys@[i] == key {
            self.buckets@[choose|i: int| 0 <= i < self.keys@.len() && self.keys@[i] == key]@
        } else {
            Seq::empty()
        }
    }

    /// The abstract state of the pool.
    pub closed spec fn state(&self) -> PoolState<T> {
        PoolState {
            buckets: Map::new(|k: PoolKey| true, |k: PoolKey| self.stored(k)),
            live: self.live_count as nat,
            reuse: self.reuse_count as nat,
        }
    }

    /// One bucket per distinct key, none over capacity.
    pub closed spec fn wf(&self) -> bool {
        &&& self.keys@.len() == self.buckets@.len()
        &&& forall|i: int, j: int| 0 <= i < j < self.keys@.len() ==> self.keys@[i] != self.keys@[j]
        &&& forall|i: int| 0 <= i < self.buckets@.len() ==> #[trigger] self.buckets@[i]@.len() <= BUCKET_CAPACITY
    }

    proof fn lemma_stored_at(&self, i: int)
        requires
            self.wf(),
            0 <= i < self.keys@.len(),
        ensures
            self.stored(self.keys@[i]) == self.buckets@[i]@,
    {
        let k = self.keys@[i];
        let j = choose|j: int| 0 <= j < self.keys@.len() && self.keys@[j] == k;
        if j != i {
            if j < i {
                assert(self.keys@[j] != self.keys@[i]);
            } else {
                assert(self.keys@[i] != self.keys@[j]);
            }
        }
    }

    proof fn lemma_state_wf(&self)
        requires
            self.wf(),
        ensures
            pool_state_wf(self.state()),
    {
        assert forall|k: PoolKey| #[trigger] self.state().buckets[k].len() <= BUCKET_CAPACITY by {
            if exists|i: int| 0 <= i < self.keys@.len() && self.keys@[i] == k {
                let i = choose|i: int| 0 <= i < self.keys@.len() && self.keys@[i] == k;
                assert(self.buckets@[i]@.len() <= BUCKET_CAPACITY);
            }
        }
    }

    /// An empty pool.
    pub fn new() -> (pool: Self)
        ensures
            pool.wf(),
            pool.state().buckets == Map::new(|k: PoolKey| true, |k: PoolKey| Seq::<T>::empty()),
            pool.state().live == 0,
            pool.state().reuse == 0,
    {
        let pool = TexturePool { keys: Vec::new(), buckets: Vec::new(), live_count: 0, reuse_count: 0 };
        assert(pool.state().buckets =~= Map::new(|k: PoolKey| true, |k: PoolKey| Seq::<T>::empty()));
        pool
    }

    /// The index of `key`'s bucket, if it has one.
    fn find(&self, key: PoolKey) -> (idx: Option<usize>)
        requires
            self.wf(),
        ensures
            match idx {
                Some(i) => i < self.keys@.len() && self.keys@[i as int] == key,
                None => forall|i: int| 0 <= i < self.keys@.len() ==> self.keys@[i] != key,
            },
    {
        let mut i: usize = 0;
        while i < self.keys.len()
            invariant
                i <= self.keys@.len(),
                forall|j: int| 0 <= j < i ==> self.keys@[j] != key,
            decreases self.keys@.len() - i,
        {
            let k = self.keys[i];
            if k.width == key.width && k.height == key.height && k.usage == key.usage {
                return Some(i);
            }
            i += 1;
        }
        None
    }

    /// Acquires a texture of the given size and usage: the most recently
    /// released one of its bucket, counted as a reuse; or `None`, counted
    /// as a newly created texture that the caller allocates.
    pub fn acquire(&mut self, width: u32, height: u32, usage: u32) -> (texture: Option<T>)
        requires
            old(self).wf(),
            old(self).state().live < usize::MAX,
            old(self).state().reuse < u64::MAX,
        ensures
            final(self).wf(),
            (final(self).state(), texture) == pool_acquire(old(self).state(), PoolKey { width, height, usage }),
    {
        let key = PoolKey { width, height, usage };
        let ghost before = self.state();
        proof {
            self.lemma_state_wf();
        }
        match self.find(key) {
            Some(i) => {
                proof {
                    self.lemma_stored_at(i as int);
                }
                if self.buckets[i].len() > 0 {
                    let ghost old_keys = self.keys@;
                    let ghost old_buckets = self.buckets@;
                    let texture = self.buckets[i].pop();
                    self.reuse_count = self.reuse_count + 1;
                    assert(self.buckets@.len() == old_buckets.len());
                    assert(self.buckets@[i as int]@ == old_buckets[i as int]@.drop_last());
                    assert(forall|j: int| 0 <= j < old_buckets.len() && j != i ==> self.buckets@[j] == old_buckets[j]);
                    proof {
                        self.lemma_stored_at(i as int);
                        assert forall|j: int| 0 <= j < self.buckets@.len() implies #[trigger] self.buckets@[j]@.len()
                            <= BUCKET_CAPACITY by {
                            if j != i {
                                assert(self.buckets@[j] == old_buckets[j]);
                            }
                        }
                        assert forall|k: PoolKey| #[trigger] self.stored(k) == before.buckets.insert(key, before.buckets[key].drop_last())[k] by {
                            if k != key {
                                if exists|j: int| 0 <= j < self.keys@.len() && self.keys@[j] == k {
                                    let j = choose|j: int| 0 <= j < self.keys@.len() && self.keys@[j] == k;
                                    self.lemma_stored_at(j);
                                    assert(j != i);
                                    assert(self.buckets@[j] == old_buckets[j]);
                                    assert(before.buckets[k] == old_buckets[j]@) by {
                                        assert(old_keys[j] == k);
                                    }
                                }
                            }
                        }
                        assert(self.state().buckets =~= before.buckets.insert(key, before.buckets[key].drop_last()));
                    }
                    texture
                } else {
                    self.live_count = self.live_count + 1;
                    assert(self.state().buckets =~= before.buckets);
                    None
                }
            },
            None => {
                self.live_count = self.live_count + 1;
                assert(self.state().buckets =~= before.buckets);
                None
            },
        }
    }

    /// Returns a texture to the pool under its size and usage; it is
    /// dropped when its bucket already holds [`BUCKET_CAPACITY`] textures.
    pub fn release(&mut self, key: PoolKey, texture: T)
        requires
            old(self).wf(),
        ensures
            final(self).wf(),
            final(self).state() == pool_release(old(self).state(), key, texture),
    {
        let ghost before = self.state();
        let ghost old_keys = self.keys@;
        let ghost old_buckets = self.buckets@;
        match self.find(key) {
            Some(i) => {
                proof {
                    self.lemma_stored_at(i as int);
                }
                if self.buckets[i].len() < BUCKET_CAPACITY {
                    self.buckets[i].push(texture);
                    assert(self.buckets@.len() == old_buckets.len());
                    assert(self.buckets@[i as int]@ == old_buckets[i as int]@.push(texture));
                    assert(forall|j: int| 0 <= j < old_buckets.len() && j != i ==> self.buckets@[j] == old_buckets[j]);
                    proof {
                        self.lemma_stored_at(i as int);
                        assert forall|j: int| 0 <= j < self.buckets@.len() implies #[trigger] self.buckets@[j]@.len()
                            <= BUCKET_CAPACITY by {
                            if j != i {
                                assert(self.buckets@[j] == old_buckets[j]);
                            }
                        }
                        assert forall|k: PoolKey| #[trigger] self.stored(k) == before.buckets.insert(key, before.buckets[key].push(texture))[k] by {
                            if k != key {
                                if exists|j: int| 0 <= j < self.keys@.len() && self.keys@[j] == k {
                                    let j = choose|j: int| 0 <= j < self.keys@.len() && self.keys@[j] == k;
                                    self.lemma_stored_at(j);
                                    assert(j != i);
                                    assert(self.buckets@[j] == old_buckets[j]);
                                    assert(before.buckets[k] == old_buckets[j]@) by {
                                        assert(old_keys[j] == k);
                                    }
                                }
                            }
                        }
                        assert(self.state().buckets =~= before.buckets.insert(key, before.buckets[key].push(texture)));
                    }
                }
            },
            None => {
                let mut bucket: Vec<T> = Vec::new();
                bucket.push(texture);
                self.keys.push(key);
                self.buckets.push(bucket);
                proof {
                    let n = old_keys.len() as int;
                    self.lemma_stored_at(n);
                    assert(self.buckets@[n]@ =~= seq![texture]);
                    assert(before.buckets[key] =~= Seq::<T>::empty());
                    assert forall|a: int, b: int| 0 <= a < b < self.keys@.len() implies self.keys@[a] != self.keys@[b] by {
                        if b == n {
                            assert(old_keys[a] != key);
                        }
                    }
                    assert forall|j: int| 0 <= j < self.buckets@.len() implies #[trigger] self.buckets@[j]@.len()
                        <= BUCKET_CAPACITY by {
                        if j < n {
                            assert(self.buckets@[j] == old_buckets[j]);
                        }
                    }
                    assert forall|k: PoolKey| #[trigger] self.stored(k) == before.buckets.insert(key, before.buckets[key].push(texture))[k] by {
                        if k != key {
                            if exists|j: int| 0 <= j < self.keys@.len() && self.keys@[j] == k {
                                let j = choose|j: int| 0 <= j < self.keys@.len() && self.keys@[j] == k;
                                self.lemma_stored_at(j);
                                assert(j != n);
                                assert(self.buckets@[j] == old_buckets[j]);
                                assert(old_keys[j] == k);
                                assert(before.buckets[k] == old_buckets[j]@);
                            } else {
                                assert forall|j: int| 0 <= j < old_keys.len() implies old_keys[j] != k by {
                                    assert(self.keys@[j] == old_keys[j]);
                                }
                            }
                        }
                    }
                    assert(self.state().buckets =~= before.buckets.insert(key, before.buckets[key].push(texture)));
                }
            },
        }
    }

    /// `(textures created, textures reused)`.
    pub fn stats(&self) -> (counts: (usize, u64))
        ensures
            counts.0 == self.state().live,
            counts.1 == self.state().reuse,
    {
        (self.live_count, self.reuse_count)
    }
}

/// Law: a texture released into a bucket with room is the very texture the
/// next acquire of that key hands back, counted as a reuse, and the buckets
/// end as they began.
pub proof fn lemma_release_then_acquire<T>(s: PoolState<T>, key: PoolKey, texture: T)
    requires
        pool_state_wf(s),
        s.buckets[key].len() < BUCKET_CAPACITY,
    ensures
        pool_acquire(pool_release(s, key, texture), key).1 == Some(texture),
        pool_acquire(pool_release(s, key, texture), key).0.buckets == s.buckets,
        pool_acquire(pool_release(s, key, texture), key).0.reuse == s.reuse + 1,
        pool_acquire(pool_release(s, key, texture), key).0.live == s.live,
{
    let r = pool_release(s, key, texture);
    assert(r.buckets[key] == s.buckets[key].push(texture));
    assert(r.buckets[key].drop_last() =~= s.buckets[key]);
    assert(r.buckets.insert(key, r.buckets[key].drop_last()) =~= s.buckets);
}

/// Law: acquiring and releasing keep every bucket within capacity and every
/// key's bucket defined.
pub proof fn lemma_pool_ops_keep_wf<T>(s: PoolState<T>, key: PoolKey, texture: T)
    requires
        pool_state_wf(s),
    ensures
        pool_state_wf(pool_acquire(s, key).0),
        pool_state_wf(pool_release(s, key, texture)),
{
    let a = pool_acquire(s, key).0;
    assert forall|k: PoolKey| #[trigger] a.buckets[k].len() <= BUCKET_CAPACITY by {
        assert(s.buckets[k].len() <= BUCKET_CAPACITY);
    }
    let r = pool_release(s, key, texture);
    assert forall|k: PoolKey| #[trigger] r.buckets[k].len() <= BUCKET_CAPACITY by {
        assert(s.buckets[k].len() <= BUCKET_CAPACITY);
    }
}

/// Law: an acquire of one key, or a release under it, leaves every other
/// key's bucket untouched.
pub proof fn lemma_pool_ops_are_local<T>(s: PoolState<T>, key: PoolKey, other: PoolKey, texture: T)
    requires
        pool_state_wf(s),
        key != other,
    ensures
        pool_acquire(s, key).0.buckets[other] == s.buckets[other],
        pool_release(s, key, texture).buckets[other] == s.buckets[other],
{
}

} // verus!
