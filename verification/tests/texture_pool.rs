use tpt_visual::texture_pool::{PoolKey, TexturePool, BUCKET_CAPACITY};

fn key(width: u32, height: u32, usage: u32) -> PoolKey {
    PoolKey { width, height, usage }
}

#[test]
fn released_texture_is_reused() {
    let mut pool: TexturePool<&str> = TexturePool::new();
    assert_eq!(pool.acquire(64, 32, 0x10), None);
    assert_eq!(pool.stats(), (1, 0));
    pool.release(key(64, 32, 0x10), "t0");
    assert_eq!(pool.acquire(64, 32, 0x10), Some("t0"));
    assert_eq!(pool.stats(), (1, 1));
    assert_eq!(pool.acquire(64, 32, 0x10), None);
    assert_eq!(pool.stats(), (2, 1));
}

#[test]
fn pool_buckets_are_separate_by_size_and_usage() {
    let mut pool: TexturePool<u32> = TexturePool::new();
    pool.release(key(64, 32, 0x10), 1);
    pool.release(key(64, 32, 0x14), 2);
    pool.release(key(32, 64, 0x10), 3);
    assert_eq!(pool.acquire(64, 32, 0x14), Some(2));
    assert_eq!(pool.acquire(64, 32, 0x14), None);
    assert_eq!(pool.acquire(32, 64, 0x10), Some(3));
    assert_eq!(pool.acquire(64, 32, 0x10), Some(1));
    assert_eq!(pool.stats(), (1, 3));
}

#[test]
fn pool_bucket_is_last_in_first_out_and_capped() {
    let mut pool: TexturePool<usize> = TexturePool::new();
    for t in 0..BUCKET_CAPACITY + 3 {
        pool.release(key(8, 8, 1), t);
    }
    for t in (0..BUCKET_CAPACITY).rev() {
        assert_eq!(pool.acquire(8, 8, 1), Some(t));
    }
    assert_eq!(pool.acquire(8, 8, 1), None);
    assert_eq!(pool.stats(), (1, BUCKET_CAPACITY as u64));
}
