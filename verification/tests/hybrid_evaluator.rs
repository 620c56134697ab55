use nim_light::board::BitMatrix;
use nim_light::evaluator::DfsSolver;
use nim_light::hybrid_evaluator::{bounded_exact, BoundedNimber, HybridEvaluator, ZeroProof};
use nim_light::solver::CanonicalGame;
use std::sync::atomic::AtomicBool;
use std::sync::Arc;

fn dense_rectangle(rows: usize, cols: usize) -> BitMatrix {
    let mut grid = BitMatrix::new(rows, cols);
    for row in 0..rows {
        for col in 0..cols {
            grid.set(row, col, true);
        }
    }
    grid
}

#[test]
fn exact_hybrid_nimber_matches_evaluator() {
    let evaluator = DfsSolver::default();
    let hybrid = HybridEvaluator::new(2);
    let cancel = Arc::new(AtomicBool::new(false));

    for matrix in [
        dense_rectangle(1, 4),
        dense_rectangle(2, 3),
        dense_rectangle(3, 3),
    ] {
        let expected = evaluator.nimber(&matrix);
        assert_eq!(
            hybrid.exact_nimber(&matrix, &evaluator, &cancel),
            BoundedNimber::Exact(expected)
        );
    }
}

#[test]
fn zero_proof_distinguishes_zero_and_nonzero_games() {
    let evaluator = DfsSolver::default();
    let hybrid = HybridEvaluator::new(2);
    let cancel = Arc::new(AtomicBool::new(false));
    let zero = CanonicalGame::from_matrix(&dense_rectangle(2, 2));
    let nonzero = CanonicalGame::from_matrix(&dense_rectangle(1, 3));

    assert_eq!(
        hybrid.prove_zero_of_canonical(&zero, &evaluator, &cancel),
        ZeroProof::Zero
    );
    assert_eq!(
        hybrid.prove_zero_of_canonical(&nonzero, &evaluator, &cancel),
        ZeroProof::NonZero
    );
}

#[test]
fn ruled_out_facts_are_reused() {
    let evaluator = DfsSolver::default();
    let hybrid = HybridEvaluator::new(2);
    let cancel = Arc::new(AtomicBool::new(false));
    let game = CanonicalGame::from_matrix(&dense_rectangle(1, 4));

    assert_eq!(
        hybrid.prove_zero_of_canonical(&game, &evaluator, &cancel),
        ZeroProof::NonZero
    );
    assert!(hybrid.ruled_out_cache_len() > 0);
    assert_eq!(
        hybrid.prove_zero_of_canonical(&game, &evaluator, &cancel),
        ZeroProof::NonZero
    );
}

#[test]
fn hybrid_search_works_from_scratch() {
    let cancel = Arc::new(AtomicBool::new(false));
    for depth in 0..4 {
        let evaluator = DfsSolver::default();
        let hybrid = HybridEvaluator::for_evaluator(depth, &evaluator);
        assert_eq!(
            hybrid.exact_nimber(&dense_rectangle(1, 5), &evaluator, &cancel),
            BoundedNimber::Exact(5)
        );
        assert_eq!(
            hybrid.exact_nimber(&dense_rectangle(3, 3), &evaluator, &cancel),
            BoundedNimber::Exact(DfsSolver::default().nimber(&dense_rectangle(3, 3)))
        );
    }
}

#[test]
fn bounds_are_respected() {
    let evaluator = DfsSolver::default();
    let hybrid = HybridEvaluator::new(3);
    let cancel = Arc::new(AtomicBool::new(false));
    let game = CanonicalGame::from_matrix(&dense_rectangle(1, 3));
    assert_eq!(
        hybrid.bounded_nimber_of_canonical(&game, Some(2), &evaluator, &cancel),
        BoundedNimber::ExceedsBound
    );
    assert_eq!(
        hybrid.bounded_nimber_of_canonical(&game, Some(3), &evaluator, &cancel),
        BoundedNimber::Exact(3)
    );
    assert_eq!(
        hybrid.bounded_nimber_of_canonical(&game, None, &evaluator, &cancel),
        BoundedNimber::Exact(3)
    );
    assert_eq!(bounded_exact(4, Some(3)), BoundedNimber::ExceedsBound);
    assert_eq!(bounded_exact(4, Some(4)), BoundedNimber::Exact(4));
    assert_eq!(bounded_exact(4, None), BoundedNimber::Exact(4));
}

#[test]
fn split_games_add_up() {
    let mut matrix = BitMatrix::new(2, 5);
    for col in 0..2 {
        matrix.set(0, col, true);
    }
    for col in 2..5 {
        matrix.set(1, col, true);
    }
    let evaluator = DfsSolver::default();
    let hybrid = HybridEvaluator::new(3);
    let cancel = Arc::new(AtomicBool::new(false));
    assert_eq!(
        hybrid.exact_nimber(&matrix, &evaluator, &cancel),
        BoundedNimber::Exact(2 ^ 3)
    );
}

#[test]
fn a_set_flag_cancels_the_ruling_out() {
    let evaluator = DfsSolver::default();
    let hybrid = HybridEvaluator::new(2);
    let cancel = Arc::new(AtomicBool::new(true));
    let game = CanonicalGame::from_matrix(&dense_rectangle(1, 3));
    assert_eq!(
        hybrid.exact_nimber_of_canonical(&game, &evaluator, &cancel),
        BoundedNimber::Cancelled
    );
    assert_eq!(
        hybrid.prove_zero_of_canonical(&game, &evaluator, &cancel),
        ZeroProof::Cancelled
    );
}
