use nim_light::board::BitMatrix;
use nim_light::solver::{CanonicalGame, Canonicalizer, PseudoCanonicalizer};
use nim_light::successor::{increment_masked, CanonicalMoveGenerator, SuccessorGenerator};
use std::collections::HashSet;
use std::sync::atomic::{AtomicUsize, Ordering};
use std::sync::Arc;

fn heap(size: usize) -> BitMatrix {
    let mut result = BitMatrix::new(1, size);
    for col in 0..size {
        result.set(0, col, true);
    }
    result
}

#[test]
fn leaf_nodes_reduce_the_number_of_generated_representatives() {
    let component = heap(3);
    let generator = CanonicalMoveGenerator::new(PseudoCanonicalizer);

    // Three row representatives plus one representative for the three
    // identical singleton-column rows. Brute force would generate ten.
    // Final canonical deduplication is intentionally left to the evaluator
    // cache, so the two ways to reach the empty game are both yielded here.
    assert_eq!(generator.estimated_successors(&component), 4);
    let successors: Vec<_> = generator.successors(&component).into_iter().collect();
    assert_eq!(successors.len(), 4);
    assert_eq!(successors.into_iter().collect::<HashSet<_>>().len(), 3);
}

#[test]
fn dense_five_by_five_grid_has_five_unique_canonical_successors() {
    struct CountingCanonicalizer {
        calls: Arc<AtomicUsize>,
    }

    impl Canonicalizer for CountingCanonicalizer {
        fn canonicalize(&self, matrix: BitMatrix) -> CanonicalGame {
            self.calls.fetch_add(1, Ordering::Relaxed);
            PseudoCanonicalizer.canonicalize(matrix)
        }
    }

    let mut grid = BitMatrix::new(5, 5);
    for row in 0..5 {
        for col in 0..5 {
            grid.set(row, col, true);
        }
    }

    let calls = Arc::new(AtomicUsize::new(0));
    let generator = CanonicalMoveGenerator::new(CountingCanonicalizer {
        calls: Arc::clone(&calls),
    });
    let successors: Vec<_> = generator.successors(&grid).into_iter().collect();
    let unique: HashSet<_> = successors.iter().cloned().collect();
    let mut remaining_nodes: Vec<_> = successors
        .iter()
        .map(|game| {
            game.components()
                .iter()
                .map(BitMatrix::count_ones)
                .sum::<usize>()
        })
        .collect();
    remaining_nodes.sort_unstable();
    remaining_nodes.dedup();

    assert_eq!(unique.len(), 5);
    assert_eq!(remaining_nodes, vec![20, 21, 22, 23, 24]);
    assert_eq!(generator.estimated_successors(&grid), 10);
    assert_eq!(successors.len(), 10);
    assert_eq!(calls.load(Ordering::Relaxed), 10);
}

#[test]
fn identical_shared_columns_are_enumerated_by_removal_count() {
    let mut matrix = BitMatrix::new(2, 3);
    for col in 0..3 {
        matrix.set(0, col, true);
    }
    matrix.set(1, 0, true);
    matrix.set(1, 1, true);

    let canonicalizer = PseudoCanonicalizer;
    let generator = CanonicalMoveGenerator::new(canonicalizer);
    let optimized: Vec<_> = generator.successors(&matrix).into_iter().collect();
    let brute = brute_force_successors(&matrix, canonicalizer);

    assert_eq!(generator.estimated_successors(&matrix), 11);
    assert_eq!(optimized.len(), 11);
    assert_eq!(optimized.into_iter().collect::<HashSet<_>>(), brute);
}

#[test]
fn masked_counter_crosses_word_boundaries() {
    let mut allowed = vec![0; 2];
    allowed[0] = 1 << 63;
    allowed[1] = 1;
    let mut value = vec![0; 2];

    assert!(increment_masked(&mut value, &allowed));
    assert_eq!(value, vec![1 << 63, 0]);
    assert!(increment_masked(&mut value, &allowed));
    assert_eq!(value, vec![0, 1]);
    assert!(increment_masked(&mut value, &allowed));
    assert_eq!(value, vec![1 << 63, 1]);
    assert!(!increment_masked(&mut value, &allowed));
    assert_eq!(value, vec![0, 0]);
}

#[test]
fn optimized_generator_matches_brute_force_on_random_components() {
    let canonicalizer = PseudoCanonicalizer;
    let generator = CanonicalMoveGenerator::new(canonicalizer);
    let mut random = TestRandom(0x51cc_3550);

    for _case in 0..80 {
        let rows = 2 + random.index(6);
        let cols = 2 + random.index(6);
        let mut matrix = BitMatrix::new(rows, cols);
        for row in 0..rows {
            for col in 0..cols {
                if random.index(100) < 45 {
                    matrix.set(row, col, true);
                }
            }
        }

        let game = canonicalizer.canonicalize(matrix);
        for component in game.components() {
            let optimized: HashSet<_> = generator.successors(component).into_iter().collect();
            let brute = brute_force_successors(component, canonicalizer);
            assert_eq!(optimized, brute);
        }
    }
}

fn brute_force_successors(
    component: &BitMatrix,
    canonicalizer: PseudoCanonicalizer,
) -> HashSet<CanonicalGame> {
    let mut successors = HashSet::new();
    for matrix in [component.clone(), component.transposed()] {
        for row in 0..matrix.rows() {
            let columns: Vec<_> = matrix.row_ones(row);
            let mut removed = vec![false; columns.len()];
            while increment_binary(&mut removed) {
                let mut result = matrix.clone();
                for (&col, &is_removed) in columns.iter().zip(&removed) {
                    if is_removed {
                        result.set(row, col, false);
                    }
                }
                successors.insert(canonicalizer.canonicalize(result));
            }
        }
    }
    successors
}

fn increment_binary(bits: &mut [bool]) -> bool {
    for bit in bits {
        if *bit {
            *bit = false;
        } else {
            *bit = true;
            return true;
        }
    }
    false
}

struct TestRandom(u64);

impl TestRandom {
    fn next(&mut self) -> u64 {
        self.0 ^= self.0 << 13;
        self.0 ^= self.0 >> 7;
        self.0 ^= self.0 << 17;
        self.0
    }

    fn index(&mut self, upper: usize) -> usize {
        self.next() as usize % upper
    }
}
