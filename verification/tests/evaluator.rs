use nim_light::board::{BitMatrix, Maze};
use nim_light::cache::CacheProbe;
use nim_light::evaluator::{
    recommended_cache_shards, DfsSolver, Evaluator, EvaluatorConfig, NoSymmetryFinder,
    SymmetryFinder,
};
use nim_light::sharded::ShardedCache;
use nim_light::solver::{compile_maze, CanonicalGame, Canonicalizer, PseudoCanonicalizer};
use nim_light::successor::CanonicalMoveGenerator;
use nim_light::symmetry::InvolutionSymmetryFinder;
use std::sync::atomic::{AtomicBool, AtomicUsize, Ordering};
use std::sync::Arc;

fn heap(size: usize) -> BitMatrix {
    let mut result = BitMatrix::new(1, size);
    for col in 0..size {
        result.set(0, col, true);
    }
    result
}

#[test]
fn single_row_positions_have_heap_nimbers() {
    let solver = DfsSolver::default();
    for size in 1..=5 {
        assert_eq!(solver.nimber(&heap(size)), size);
    }
}

#[test]
fn square_grid_is_a_zero_position() {
    let mut square = BitMatrix::new(2, 2);
    for row in 0..2 {
        for col in 0..2 {
            square.set(row, col, true);
        }
    }
    let evaluator = DfsSolver::default();
    assert_eq!(evaluator.nimber(&square), 0);
    assert_eq!(evaluator.stats().symmetry_zero_certificates, 1);
    assert_eq!(evaluator.stats().evaluation_attempts, 1);
}

#[test]
fn dense_five_by_five_grid_has_nimber_zero() {
    let grid = dense_grid(5);

    let evaluator = DfsSolver::default();
    let nimber = evaluator.nimber(&grid);
    let stats = evaluator.stats();
    println!("{stats:#?}");
    assert_eq!(nimber, 0);
    assert_eq!(
        stats.evaluation_attempts,
        stats.unique_positions_claimed + stats.forced_duplicate_evaluations
    );
    assert_eq!(stats.completed_positions, evaluator.cache_len());
}

#[test]
fn independent_components_xor_and_identical_pairs_cancel() {
    let mut pair = BitMatrix::new(2, 2);
    pair.set(0, 0, true);
    pair.set(1, 1, true);
    let solver = DfsSolver::default();
    assert_eq!(solver.nimber(&pair), 0);
    assert_eq!(solver.cache_len(), 0);

    let mut different = BitMatrix::new(2, 3);
    different.set(0, 0, true);
    different.set(1, 1, true);
    different.set(1, 2, true);
    assert_eq!(solver.nimber(&different), 1 ^ 2);
}

#[test]
fn repeated_evaluation_uses_the_shared_cache() {
    let solver = DfsSolver::default();
    let heap = heap(5);
    let first = solver.nimber(&heap);
    let cache_size = solver.cache_len();
    let hits = solver.stats().completed_cache_hits;
    assert_eq!(solver.nimber(&heap), first);
    assert_eq!(solver.cache_len(), cache_size);
    assert!(solver.stats().completed_cache_hits > hits);
}

#[test]
fn cache_can_be_saved_loaded_and_reused() {
    let first = DfsSolver::default();
    assert_eq!(first.nimber(&heap(4)), 4);
    let (bytes, saved) = first.save_cache();
    assert!(saved.entries > 0);

    let mut second = DfsSolver::default();
    let loaded = second.load_cache(&bytes).unwrap();
    assert_eq!(loaded.entries, saved.entries);
    assert_eq!(
        second.cached_nimber_of_canonical(&CanonicalGame::from_matrix(&heap(4))),
        Some(4)
    );
    assert_eq!(second.nimber(&heap(4)), 4);
    assert!(second.stats().completed_cache_hits > 0);
}

#[test]
fn changing_threads_preserves_completed_cache_entries() {
    let solver = DfsSolver::default();
    assert_eq!(solver.nimber(&heap(5)), 5);
    let cache_len = solver.cache_len();
    assert!(cache_len > 0);

    let reconfigured = solver.with_threads_preserving_cache(2, 64).unwrap();
    assert_eq!(reconfigured.cache_len(), cache_len);
    assert_eq!(
        reconfigured.cached_nimber_of_canonical(&CanonicalGame::from_matrix(&heap(5))),
        Some(5)
    );
    assert_eq!(reconfigured.nimber(&heap(5)), 5);
    assert!(reconfigured.stats().completed_cache_hits > 0);
}

#[test]
fn cancellable_evaluation_can_stop_before_claiming_work() {
    let solver = DfsSolver::default();
    let cancel = Arc::new(AtomicBool::new(true));
    assert_eq!(solver.nimber_cancellable(&heap(5), &cancel), None);
    assert_eq!(solver.cache_len(), 0);
}

#[test]
fn cache_claims_processing_positions_before_publishing() {
    let cache = ShardedCache::new(4);
    let component = CanonicalGame::from_matrix(&heap(2)).components()[0].clone();

    assert_eq!(cache.probe(&component), CacheProbe::Claimed);
    assert_eq!(cache.probe(&component), CacheProbe::Busy);
    assert_eq!(cache.get_done(&component), None);
    assert!(cache.insert_if_absent(component.clone(), 2, None, 95));
    assert_eq!(cache.probe(&component), CacheProbe::Done(2));
    assert!(!cache.insert_if_absent(component, 2, None, 95));
}

struct Certificate;

impl SymmetryFinder for Certificate {
    fn proves_zero(&self, component: &BitMatrix) -> bool {
        component.count_ones() == 3
    }
}

#[test]
fn evaluator_calls_the_independent_symmetry_finder() {
    let evaluator = Evaluator::new(
        CanonicalMoveGenerator::new(PseudoCanonicalizer),
        Certificate,
    );
    assert_eq!(evaluator.nimber(&heap(3)), 0);
    assert_eq!(evaluator.stats().symmetry_zero_certificates, 1);
}

struct CountingCanonicalizer {
    calls: Arc<AtomicUsize>,
}

impl Canonicalizer for CountingCanonicalizer {
    fn canonicalize(&self, matrix: BitMatrix) -> CanonicalGame {
        self.calls.fetch_add(1, Ordering::Relaxed);
        PseudoCanonicalizer.canonicalize(matrix)
    }
}

#[test]
fn evaluator_is_generic_over_the_generators_canonicalizer() {
    let calls = Arc::new(AtomicUsize::new(0));
    let evaluator = Evaluator::new(
        CanonicalMoveGenerator::new(CountingCanonicalizer {
            calls: Arc::clone(&calls),
        }),
        NoSymmetryFinder,
    );
    assert_eq!(evaluator.nimber(&heap(3)), 3);
    assert!(calls.load(Ordering::Relaxed) > 1);
}

#[test]
fn parallel_and_sequential_evaluators_agree() {
    let matrix = heap(6);
    let single_threaded = Evaluator::with_config(
        CanonicalMoveGenerator::new(PseudoCanonicalizer),
        NoSymmetryFinder,
        EvaluatorConfig {
            threads: Some(1),
            ..EvaluatorConfig::default()
        },
    )
    .unwrap();
    let parallel = Evaluator::with_config(
        CanonicalMoveGenerator::new(PseudoCanonicalizer),
        NoSymmetryFinder,
        EvaluatorConfig {
            threads: Some(4),
            ..EvaluatorConfig::default()
        },
    )
    .unwrap();

    assert_eq!(parallel.nimber(&matrix), single_threaded.nimber(&matrix));
    assert!(parallel.stats().cooperative_regions > 0);
}

#[test]
fn cooperative_evaluator_is_thread_count_independent() {
    for matrix in [
        heap(6),
        dense_rectangle(3, 4),
        dense_rectangle(2, 5),
        spiral_maze_game(3, 3),
    ] {
        let single_threaded = Evaluator::with_config(
            CanonicalMoveGenerator::new(PseudoCanonicalizer),
            InvolutionSymmetryFinder,
            EvaluatorConfig {
                threads: Some(1),
                ..EvaluatorConfig::default()
            },
        )
        .unwrap();
        let parallel = DfsSolver::default();

        assert_eq!(parallel.nimber(&matrix), single_threaded.nimber(&matrix));
        assert!(parallel.stats().cooperative_regions > 0);
    }
}

#[test]
fn shard_counts_are_powers_of_two() {
    assert_eq!(recommended_cache_shards(1), 64);
    assert_eq!(recommended_cache_shards(6), 64);
    assert_eq!(recommended_cache_shards(9), 128);
    assert_eq!(recommended_cache_shards(63), 512);
    assert_eq!(recommended_cache_shards(64), 2048);
    let config = EvaluatorConfig::default();
    assert_eq!(config.threads, Some(6));
    assert_eq!(config.cache_shards, 64);
    assert_eq!(config.max_cache_entries, None);
    assert_eq!(config.cache_low_watermark, 95);
}

fn dense_grid(size: usize) -> BitMatrix {
    dense_rectangle(size, size)
}

fn dense_rectangle(rows: usize, cols: usize) -> BitMatrix {
    let mut grid = BitMatrix::new(rows, cols);
    for row in 0..rows {
        for col in 0..cols {
            grid.set(row, col, true);
        }
    }
    grid
}

fn spiral_maze_game(rows: usize, cols: usize) -> BitMatrix {
    assert!(rows > 0 && cols > 0);
    let mut maze = closed_maze(rows, cols);
    let path = spiral_path(rows, cols);

    for pair in path.windows(2) {
        let (first_row, first_col) = pair[0];
        let (second_row, second_col) = pair[1];
        if first_row == second_row {
            maze.set_vertical_wall(first_row, first_col.min(second_col), false);
        } else {
            maze.set_horizontal_wall(first_row.min(second_row), first_col, false);
        }
    }

    compile_maze(&maze)
}

fn closed_maze(rows: usize, cols: usize) -> Maze {
    let mut maze = Maze::open(rows, cols);
    for row in 0..rows {
        for col in 0..cols.saturating_sub(1) {
            maze.add_vertical_wall(row, col);
        }
    }
    for row in 0..rows.saturating_sub(1) {
        for col in 0..cols {
            maze.add_horizontal_wall(row, col);
        }
    }
    maze
}

fn spiral_path(rows: usize, cols: usize) -> Vec<(usize, usize)> {
    let mut path = Vec::with_capacity(rows * cols);
    let (mut top, mut bottom, mut left, mut right) = (0, rows - 1, 0, cols - 1);

    while left <= right && top <= bottom {
        for col in left..=right {
            path.push((top, col));
        }
        top += 1;

        for row in top..=bottom {
            path.push((row, right));
        }
        let Some(new_right) = right.checked_sub(1) else {
            break;
        };
        right = new_right;

        if top <= bottom {
            for col in (left..=right).rev() {
                path.push((bottom, col));
            }
            let Some(new_bottom) = bottom.checked_sub(1) else {
                break;
            };
            bottom = new_bottom;
        }

        if left <= right {
            for row in (top..=bottom).rev() {
                path.push((row, left));
            }
            left += 1;
        }
    }
    path
}
