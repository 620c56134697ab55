use nim_light::board::BitMatrix;
use nim_light::cache::{estimate_cache_entry_bytes, CacheEntry, CacheProbe, CacheShard};
use nim_light::cache_file::{decode_cache, encode_cache, CacheField, CacheFileError};
use nim_light::evaluator::DfsSolver;
use nim_light::sharded::{compute_shard_limit, ShardedCache};
use nim_light::solver::CanonicalGame;
use nim_light::traversal::stable_matrix_hash;

fn heap(size: usize) -> BitMatrix {
    let mut result = BitMatrix::new(1, size);
    for col in 0..size {
        result.set(0, col, true);
    }
    result
}

#[test]
fn a_shard_holds_many_components() {
    let mut shard = CacheShard::new();
    for size in 1..200 {
        assert_eq!(shard.probe(&heap(size)), CacheProbe::Claimed);
        assert_eq!(shard.probe(&heap(size)), CacheProbe::Busy);
        shard.insert(heap(size), CacheEntry::Done(size));
    }
    assert_eq!(shard.len(), 199);
    for size in 1..200 {
        assert_eq!(shard.get_done(&heap(size)), Some(size));
        assert_eq!(shard.probe(&heap(size)), CacheProbe::Done(size));
    }
    assert_eq!(shard.get(&heap(200)), None);
    assert_eq!(shard.done_entries().len(), 199);
}

#[test]
fn clearing_drops_what_is_being_evaluated() {
    let mut shard = CacheShard::new();
    shard.insert(heap(1), CacheEntry::Done(1));
    assert_eq!(shard.probe(&heap(2)), CacheProbe::Claimed);
    let profile = shard.profile();
    assert_eq!((profile.entries, profile.done, profile.processing), (2, 1, 1));
    assert_eq!(
        profile.estimated_bytes,
        estimate_cache_entry_bytes(&heap(1)) + estimate_cache_entry_bytes(&heap(2))
    );
    shard.clear_processing();
    assert_eq!(shard.len(), 1);
    assert_eq!(shard.get(&heap(2)), None);
    assert_eq!(shard.get_done(&heap(1)), Some(1));
}

#[test]
fn eviction_takes_done_entries_of_the_highest_rank() {
    let mut shard = CacheShard::new();
    for size in 1..=6 {
        shard.insert(heap(size), CacheEntry::Done(size));
    }
    assert_eq!(shard.probe(&heap(7)), CacheProbe::Claimed);
    let new_hash = stable_matrix_hash(&heap(8));
    let rank = |size: usize| stable_matrix_hash(&heap(size)) ^ new_hash.rotate_left(17);
    let mut ranked: Vec<usize> = (1..=6).collect();
    ranked.sort_by_key(|&size| rank(size));
    shard.evict_done_entries(4, new_hash);
    assert_eq!(shard.len(), 4);
    for (place, &size) in ranked.iter().enumerate() {
        assert_eq!(shard.get_done(&heap(size)).is_some(), place < 3);
    }
    assert_eq!(shard.get(&heap(7)), Some(CacheEntry::Processing));
}

#[test]
fn a_full_shard_evicts_before_it_publishes() {
    let mut shard = CacheShard::new();
    for size in 1..=10 {
        assert!(shard.publish(heap(size), size, Some(10), 50));
    }
    assert_eq!(shard.len(), 10);
    assert!(shard.publish(heap(11), 11, Some(10), 50));
    assert_eq!(shard.len(), 6);
    assert_eq!(shard.get_done(&heap(11)), Some(11));
    assert!(!shard.publish(heap(11), 11, None, 50));
}

#[test]
fn limits_are_shared_by_the_shards() {
    assert_eq!(compute_shard_limit(10, 4), 3);
    assert_eq!(compute_shard_limit(8, 4), 2);
    assert_eq!(compute_shard_limit(0, 4), 1);
    assert_eq!(compute_shard_limit(usize::MAX, 1), usize::MAX);
}

#[test]
fn shards_together_are_one_table() {
    let cache = ShardedCache::new(8);
    for size in 1..50 {
        cache.insert_done(heap(size), size);
    }
    assert_eq!(cache.len(), 49);
    assert_eq!(cache.probe(&heap(60)), CacheProbe::Claimed);
    let profile = cache.profile();
    assert_eq!(
        (profile.entries, profile.done, profile.processing),
        (50, 49, 1)
    );
    let copied = cache.clone_done_into_shards(3);
    assert_eq!(copied.len(), 49);
    assert_eq!(copied.get_done(&heap(17)), Some(17));
    assert_eq!(copied.get_done(&heap(60)), None);
    cache.clear_processing();
    assert_eq!(cache.len(), 49);
    cache.clear();
    assert_eq!(cache.len(), 0);
}

#[test]
fn saved_entries_are_read_back() {
    let mut wide = BitMatrix::new(2, 70);
    wide.set(0, 69, true);
    wide.set(1, 0, true);
    let entries = vec![(heap(3), 3), (wide, 7), (BitMatrix::new(0, 0), 0)];
    let bytes = encode_cache(&entries);
    assert_eq!(&bytes[..8], b"NLCACH02");
    assert_eq!(bytes[8..16], 3u64.to_le_bytes());
    assert_eq!(bytes[16..24], 3u64.to_le_bytes());
    assert_eq!(bytes[24..32], 1u64.to_le_bytes());
    assert_eq!(bytes[32..40], 3u64.to_le_bytes());
    assert_eq!(bytes[40..48], 1u64.to_le_bytes());
    assert_eq!(bytes[48..56], 7u64.to_le_bytes());
    let file = decode_cache(&bytes).unwrap();
    assert_eq!(file.error, None);
    assert_eq!(file.entries, entries);
}

#[test]
fn faulty_files_are_refused() {
    assert_eq!(decode_cache(b"NLCA").unwrap_err(), CacheFileError::Truncated);
    assert_eq!(
        decode_cache(b"NLCACH01\0\0\0\0\0\0\0\0").unwrap_err(),
        CacheFileError::NotACacheFile
    );
    assert_eq!(
        decode_cache(b"NLCACH02\0\0\0").unwrap_err(),
        CacheFileError::Truncated
    );
    assert_eq!(
        CacheFileError::NotACacheFile.message(),
        "not a nim_light cache file"
    );
    assert_eq!(
        CacheFileError::TooLarge(CacheField::Nimber).message(),
        "nimber does not fit in usize"
    );
}

fn file_with(numbers: &[u64]) -> Vec<u8> {
    let mut bytes = b"NLCACH02".to_vec();
    for number in numbers {
        bytes.extend_from_slice(&number.to_le_bytes());
    }
    bytes
}

#[test]
fn entries_before_a_faulty_one_are_read() {
    let good = [2, 1, 2, 1, 3];
    let mut numbers = vec![2];
    numbers.extend_from_slice(&good);
    numbers.extend_from_slice(&[5, 1, 70, 1, 0]);
    let file = decode_cache(&file_with(&numbers)).unwrap();
    assert_eq!(file.error, Some(CacheFileError::WordCountMismatch));
    assert_eq!(file.entries, vec![(heap(2), 2)]);

    let file = decode_cache(&file_with(&[1, 0, u64::MAX, 128, 0])).unwrap();
    assert_eq!(file.error, Some(CacheFileError::DimensionsOverflow));
    assert!(file.entries.is_empty());

    let file = decode_cache(&file_with(&[3, 2, 1, 2, 1, 3])).unwrap();
    assert_eq!(file.error, Some(CacheFileError::Truncated));
    assert_eq!(file.entries.len(), 1);
}

#[test]
fn stray_bits_of_a_file_are_dropped() {
    let file = decode_cache(&file_with(&[1, 2, 1, 2, 1, 0xff])).unwrap();
    assert_eq!(file.entries, vec![(heap(2), 2)]);
}

#[test]
fn a_faulty_file_leaves_the_cache_or_replaces_it() {
    let mut solver = DfsSolver::default();
    assert_eq!(solver.nimber(&heap(3)), 3);
    let entries = solver.cache_len();
    assert!(entries > 0);
    assert_eq!(
        solver.load_cache(b"something else").unwrap_err(),
        CacheFileError::NotACacheFile
    );
    assert_eq!(solver.cache_len(), entries);
    assert_eq!(
        solver
            .load_cache(&file_with(&[3, 2, 1, 2, 1, 3]))
            .unwrap_err(),
        CacheFileError::Truncated
    );
    assert_eq!(solver.cache_len(), 1);
    assert_eq!(
        solver.cached_nimber_of_canonical(&CanonicalGame::from_matrix(&BitMatrix::new(1, 1))),
        Some(0)
    );
}
