use nim_light::board::BitMatrix;
use nim_light::nimbers::NimberSet;
use nim_light::stats::{add_worked, cheap_counts, ActiveWorkerClock, DistributionStats, EvaluatorStats};
use nim_light::traversal::{
    coprime_stride, fnv_mix, gcd, mix_usize, stable_matrix_hash, traversal_seed, Stride,
};
use nim_light::workers::{Work, WorkerPool};

#[test]
fn hashes_follow_fnv() {
    let mut expected = 0xcbf2_9ce4_8422_2325u64;
    for value in [1u64, 2, 3] {
        for byte in value.to_le_bytes() {
            expected ^= byte as u64;
            expected = expected.wrapping_mul(0x0000_0100_0000_01b3);
        }
    }
    let mut matrix = BitMatrix::new(1, 2);
    matrix.set(0, 0, true);
    matrix.set(0, 1, true);
    assert_eq!(stable_matrix_hash(&matrix), expected);
    assert_eq!(
        fnv_mix(0xcbf2_9ce4_8422_2325, 0),
        (0..8).fold(0xcbf2_9ce4_8422_2325u64, |hash, _| hash
            .wrapping_mul(0x0000_0100_0000_01b3))
    );
    let seed = fnv_mix(fnv_mix(expected, 4), 5);
    assert_eq!(
        traversal_seed(&matrix, 4, 5),
        (seed ^ seed.rotate_right(32)) as usize
    );
}

#[test]
fn walks_visit_every_index_once() {
    for len in 0..40 {
        for seed in [0, 1, 17, 123_456_789, usize::MAX] {
            let walk = Stride::new(len, seed);
            let mut seen: Vec<usize> = (0..len).map(|visited| walk.index(visited)).collect();
            if len > 0 {
                assert_eq!(seen[0], seed % len);
            }
            seen.sort_unstable();
            assert_eq!(seen, (0..len).collect::<Vec<_>>());
        }
    }
}

#[test]
fn strides_share_no_divisor_with_the_length() {
    assert_eq!(gcd(12, 18), 6);
    assert_eq!(gcd(7, 0), 7);
    for len in 1..50 {
        for seed in 0..20 {
            let stride = coprime_stride(seed, len);
            assert_eq!(gcd(stride, len), 1);
            assert!(stride >= 1 && stride <= len + 1);
        }
    }
    assert_eq!(mix_usize(5, 0), 5);
    assert_eq!(
        mix_usize(0, 1),
        0x9e37_79b9_7f4a_7c15usize.rotate_left(23)
    );
}

#[test]
fn the_least_missing_nimber_is_found() {
    let mut set = NimberSet::new(3);
    assert_eq!(set.mex(), 0);
    for nimber in 0..70 {
        set.insert(nimber);
        assert_eq!(set.mex(), nimber + 1);
    }
    let mut other = NimberSet::default();
    other.insert(71);
    other.insert(70);
    set.union_with(&other);
    assert_eq!(set.mex(), 72);
}

#[test]
fn counts_of_workers_add_up() {
    let mut first = DistributionStats::new();
    first.record_successor_group(4, true, false, false);
    first.record_successor_group(2, false, true, true);
    let mut second = DistributionStats::new();
    second.record_successor_group(1, true, true, false);
    first.merge(second);
    assert_eq!(first.successor_groups_started, 3);
    assert_eq!(first.successor_group_successors, 7);
    assert_eq!(first.successor_groups_with_new_claim, 2);
    assert_eq!(first.successor_groups_with_busy, 2);
    assert_eq!(first.successor_revisit_groups_with_busy, 1);
}

#[test]
fn the_clock_adds_up_the_time_of_all_workers() {
    assert_eq!(add_worked(5, 3, 7), 26);
    assert_eq!(add_worked(u128::MAX, 1, 1), u128::MAX);
    assert_eq!(add_worked(0, usize::MAX, u128::MAX), u128::MAX);
    let mut clock = ActiveWorkerClock::new();
    assert_eq!(clock.active_micros(), 0);
    clock.set_active(2);
    while clock.active_micros() == 0 {}
    assert!(clock.active_micros() > 0);
}

#[test]
fn cheap_counts_come_from_the_stats() {
    let stats = EvaluatorStats {
        unique_positions_claimed: 9,
        completed_positions: 7,
        ..EvaluatorStats::default()
    };
    let counts = cheap_counts(&stats, 8);
    assert_eq!(counts.cache_entries, 8);
    assert_eq!(counts.cache_done_entries, 7);
    assert_eq!(counts.cache_processing_entries, 2);
    assert_eq!(counts.estimated_cache_bytes, 0);
}

/// Asks which thread runs it.
struct Asking<'a> {
    pool: &'a WorkerPool,
}

impl Work for Asking<'_> {
    type Output = usize;

    fn is_ready(&self) -> bool {
        true
    }

    fn may_give(&self, _: usize) -> bool {
        true
    }

    fn run(&self) -> usize {
        self.pool.current_thread_index()
    }
}

#[test]
fn every_worker_thread_takes_part() {
    let pool = WorkerPool::start(Some(3)).unwrap();
    let asking = Asking { pool: &pool };
    assert!(pool.install(&asking) < 3);
    let mut indices = pool.broadcast(&asking);
    indices.sort_unstable();
    assert_eq!(indices, vec![0, 1, 2]);
    let none = WorkerPool::without_threads();
    let asking = Asking { pool: &none };
    assert_eq!(none.install(&asking), 0);
    assert_eq!(none.broadcast(&asking), vec![0]);
}
