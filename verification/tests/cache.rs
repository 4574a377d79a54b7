use hash_ring::HashRing;
use shard_sink::cache::mem_consistent_cache::{
    CacheError, CacheMember, MemCache, DEFAULT_REPLICAS, DEFAULT_SHARDS, RECORD_SEPARATOR,
};

fn same_shard_keys(cache: &MemCache, shard: i8, count: usize) -> Vec<String> {
    let mut keys = Vec::new();
    let mut i = 0u32;
    while keys.len() < count {
        let key = format!("label={}", i);
        if cache.resolve(&key) == shard {
            keys.push(key);
        }
        i += 1;
    }
    keys
}

#[test]
fn member_counts_payload_bytes_only() {
    let mut member = CacheMember::new();
    assert_eq!(member.size(), 0);
    member.push(b"abc".to_vec());
    member.push(Vec::new());
    member.push(b"de".to_vec());
    assert_eq!(member.size(), 5);
    assert_eq!(
        member.into_chunks(),
        vec![
            b"abc".to_vec(),
            vec![RECORD_SEPARATOR],
            Vec::new(),
            vec![RECORD_SEPARATOR],
            b"de".to_vec(),
            vec![RECORD_SEPARATOR]
        ]
    );
}

#[test]
fn new_member_has_no_chunks() {
    assert_eq!(CacheMember::new().into_chunks(), Vec::<Vec<u8>>::new());
}

#[test]
fn separator_is_a_line_feed() {
    assert_eq!(RECORD_SEPARATOR, b'\n');
    assert_eq!(DEFAULT_SHARDS, 5);
    assert_eq!(DEFAULT_REPLICAS, 10);
}

#[test]
fn new_cache_is_empty() {
    let mut cache = MemCache::new();
    assert!(cache.keys().is_empty());
    for shard in 0..5i8 {
        assert_eq!(cache.size(shard), 0);
        assert_eq!(cache.pop(shard), Err(CacheError::Empty));
    }
}

#[test]
fn pop_of_absent_shard_is_not_found() {
    let mut cache = MemCache::new();
    let err = cache.pop(3).unwrap_err();
    assert_eq!(err, CacheError::Empty);
    assert_eq!(err.message(), "Empty result");
    assert_eq!(cache.pop(-1), Err(CacheError::Empty));
    assert_eq!(cache.pop(99), Err(CacheError::Empty));
    assert_eq!(CacheError::Overflow.message(), "Shard is full");
}

#[test]
fn resolve_is_stable() {
    let cache = MemCache::new();
    let other = MemCache::new();
    for i in 0..200 {
        let key = format!("host=h{}zone=z{}", i, i % 7);
        let first = cache.resolve(&key);
        assert_eq!(cache.resolve(&key), first);
        assert_eq!(other.resolve(&key), first);
        assert!((0..5).contains(&first));
    }
}

#[test]
fn resolve_does_not_depend_on_what_is_held() {
    let mut cache = MemCache::new();
    let before: Vec<i8> = (0..100).map(|i| cache.resolve(&format!("k{}", i))).collect();
    for i in 0..100 {
        cache.push(format!("k{}", i), vec![1, 2, 3]).unwrap();
    }
    cache.pop(before[0]).unwrap();
    let after: Vec<i8> = (0..100).map(|i| cache.resolve(&format!("k{}", i))).collect();
    assert_eq!(before, after);
}

#[test]
fn resolve_is_the_ring_owner() {
    let cache = MemCache::new();
    let ring: HashRing<i8> = HashRing::new(vec![0, 1, 2, 3, 4], 10);
    let mut seen = [false; 5];
    for i in 0..500 {
        let key = format!("service=s{}", i);
        let owner = *ring.get_node(key.clone()).unwrap();
        assert_eq!(cache.resolve(&key), owner);
        seen[owner as usize] = true;
    }
    assert_eq!(seen, [true; 5]);
}

#[test]
fn resolve_follows_the_configured_ring() {
    let cache = MemCache::with_shards(3, 4);
    let ring: HashRing<i8> = HashRing::new(vec![0, 1, 2], 4);
    for i in 0..300 {
        let key = format!("k{}", i);
        let id = cache.resolve(&key);
        assert!((0..3).contains(&id));
        assert_eq!(id, *ring.get_node(key).unwrap());
    }
}

#[test]
fn single_shard_ring_takes_every_key() {
    let cache = MemCache::with_shards(1, 1);
    for i in 0..50 {
        assert_eq!(cache.resolve(&format!("k{}", i)), 0);
    }
}

#[test]
fn keys_spread_over_the_shards() {
    let cache = MemCache::new();
    let total = 20000u64;
    let mut counts = [0u64; 5];
    let mut state = 12345u64;
    for _ in 0..total {
        state = state.wrapping_mul(6364136223846793005).wrapping_add(1442695040888963407);
        let key = format!("id={:016x}", state);
        counts[cache.resolve(&key) as usize] += 1;
    }
    for count in counts {
        assert!(count * 5 * 10 >= total, "a shard holds under a tenth of its share: {:?}", counts);
        assert!(count * 5 <= total * 4, "a shard holds over four times its share: {:?}", counts);
    }
}

#[test]
fn drain_gives_payloads_in_push_order() {
    let mut cache = MemCache::new();
    let key = "app=web".to_string();
    let shard = cache.resolve(&key);
    cache.push(key.clone(), b"A".to_vec()).unwrap();
    cache.push(key.clone(), b"BB".to_vec()).unwrap();
    cache.push(key.clone(), b"CCC".to_vec()).unwrap();
    assert_eq!(cache.size(shard), 6);
    let chunks = cache.pop(shard).unwrap();
    assert_eq!(
        chunks,
        vec![
            b"A".to_vec(),
            b"\n".to_vec(),
            b"BB".to_vec(),
            b"\n".to_vec(),
            b"CCC".to_vec(),
            b"\n".to_vec()
        ]
    );
    assert_eq!(chunks.concat(), b"A\nBB\nCCC\n".to_vec());
}

#[test]
fn push_leaves_other_shards_alone() {
    let mut cache = MemCache::new();
    for shard in 0..5i8 {
        let key = same_shard_keys(&cache, shard, 1).remove(0);
        cache.push(key, vec![shard as u8; shard as usize + 1]).unwrap();
    }
    let sizes: Vec<usize> = (0..5i8).map(|s| cache.size(s)).collect();
    assert_eq!(sizes, vec![1, 2, 3, 4, 5]);
    let key = same_shard_keys(&cache, 2, 1).remove(0);
    cache.push(key, b"more".to_vec()).unwrap();
    let sizes: Vec<usize> = (0..5i8).map(|s| cache.size(s)).collect();
    assert_eq!(sizes, vec![1, 2, 7, 4, 5]);
    for shard in [0i8, 1, 3, 4] {
        let chunks = cache.pop(shard).unwrap();
        assert_eq!(chunks, vec![vec![shard as u8; shard as usize + 1], b"\n".to_vec()]);
    }
    assert_eq!(cache.pop(2).unwrap().concat(), b"\x02\x02\x02\nmore\n".to_vec());
}

#[test]
fn drained_shard_is_absent() {
    let mut cache = MemCache::new();
    let key = "app=db".to_string();
    let shard = cache.resolve(&key);
    cache.push(key.clone(), b"row".to_vec()).unwrap();
    assert_eq!(cache.keys(), vec![shard]);
    assert!(cache.pop(shard).is_ok());
    assert_eq!(cache.size(shard), 0);
    assert!(cache.keys().is_empty());
    assert_eq!(cache.pop(shard), Err(CacheError::Empty));
    cache.push(key, b"next".to_vec()).unwrap();
    assert_eq!(cache.size(shard), 4);
    assert_eq!(cache.pop(shard).unwrap().concat(), b"next\n".to_vec());
}

#[test]
fn keys_lists_each_held_shard_once() {
    let mut cache = MemCache::new();
    for shard in [1i8, 3, 4] {
        for key in same_shard_keys(&cache, shard, 3) {
            cache.push(key, b"x".to_vec()).unwrap();
        }
    }
    let mut keys = cache.keys();
    keys.sort();
    assert_eq!(keys, vec![1, 3, 4]);
}

#[test]
fn empty_payload_still_makes_a_buffer() {
    let mut cache = MemCache::new();
    let key = "k".to_string();
    let shard = cache.resolve(&key);
    cache.push(key, Vec::new()).unwrap();
    assert_eq!(cache.size(shard), 0);
    assert_eq!(cache.keys(), vec![shard]);
    assert_eq!(cache.pop(shard).unwrap(), vec![Vec::new(), b"\n".to_vec()]);
}
