//! What the answers of evaluators and of the solver have in common, whoever is asked: the rules of the
//! game decide them, where machine words can count its moves.
use crate::board::{Axis, Board, Cell, Maze};
use crate::compile::lemma_no_fault;
use crate::components::{lemma_parts, parts, values};
use crate::corridors::{alive_on, lemma_alive_on};
use crate::evaluator::{xor_all, DfsSolver, Evaluator, SymmetryFinder};
use crate::game::{lemma_corridor_move, Move};
use crate::grid::{lemma_cells_finite, Grid};
use crate::hybrid_evaluator::{lemma_exceeds_differs, lemma_single_exceeds, BoundedNimber};
use crate::hybrid_evaluator::HybridEvaluator;
use crate::limits::{fits, lemma_fits_isomorphic};
use crate::matrix::BitMatrix;
use crate::nim::{grundy, is_option, isomorphic, lemma_grundy, lemma_isomorphic};
use crate::nim::{lemma_xor_is_nim_sum, nim_total, reaches};
use crate::ordering::{lemma_permuted_isomorphic, lemma_transposed_isomorphic};
use crate::reading::reads;
use crate::solver::CanonicalGame;
use crate::solver_moves::{board_nimber, solver_move_cancellable, SolverMoveResult};
use crate::sorting::is_permutation;
use crate::successor::SuccessorGenerator;
use crate::worker_result::parts_fit;
use core::sync::atomic::AtomicBool;
use std::sync::Arc;
use vstd::prelude::*;

verus! {

/// Whether an evaluator with right nimbers is asked for the nimber of the matrix, whose moves machine
/// words can count, and gives `nimber`.
pub open spec fn answers_nimber<G: SuccessorGenerator, S: SymmetryFinder>(
    evaluator: Evaluator<G, S>,
    matrix: BitMatrix,
    nimber: usize,
) -> bool {
    &&& matrix.wf()
    &&& evaluator.sound()
    &&& fits(matrix@.cells)
    &&& call_ensures(Evaluator::<G, S>::nimber, (&evaluator, &matrix), nimber)
}

/// The nimber is the least number that is not the nimber of a position that a move leads to. It is
/// zero where there are no nodes.
pub proof fn lemma_nimber_is_least<G: SuccessorGenerator, S: SymmetryFinder>(
    evaluator: Evaluator<G, S>,
    matrix: BitMatrix,
    nimber: usize,
)
    requires
        answers_nimber(evaluator, matrix, nimber),
    ensures
        !reaches(matrix@.cells, nimber as nat),
        forall|m: nat| m < nimber ==> #[trigger] reaches(matrix@.cells, m),
        matrix@.cells.len() == 0 ==> nimber == 0,
{
    lemma_cells_finite(matrix@.cells, matrix@.rows, matrix@.cols);
    lemma_grundy(matrix@.cells);
}

/// No evaluator gives a position that a move leads to the nimber of the position before it.
pub proof fn lemma_nimber_changes<
    G: SuccessorGenerator,
    S: SymmetryFinder,
    H: SuccessorGenerator,
    T: SymmetryFinder,
>(
    first: Evaluator<G, S>,
    before: BitMatrix,
    nimber: usize,
    second: Evaluator<H, T>,
    after: BitMatrix,
    other: usize,
)
    requires
        answers_nimber(first, before, nimber),
        answers_nimber(second, after, other),
        is_option(before@.cells, after@.cells),
    ensures
        other != nimber,
{
    lemma_cells_finite(before@.cells, before@.rows, before@.cols);
    lemma_grundy(before@.cells);
}

/// Whoever is asked, with whatever threads and whatever cache, gives isomorphic positions the same
/// nimber.
pub proof fn lemma_nimber_invariant<
    G: SuccessorGenerator,
    S: SymmetryFinder,
    H: SuccessorGenerator,
    T: SymmetryFinder,
>(
    first: Evaluator<G, S>,
    matrix: BitMatrix,
    nimber: usize,
    second: Evaluator<H, T>,
    other: BitMatrix,
    other_nimber: usize,
)
    requires
        answers_nimber(first, matrix, nimber),
        answers_nimber(second, other, other_nimber),
        isomorphic(matrix@.cells, other@.cells),
    ensures
        other_nimber == nimber,
{
    lemma_cells_finite(matrix@.cells, matrix@.rows, matrix@.cols);
    lemma_isomorphic(matrix@.cells, other@.cells);
}

/// Permuting rows and columns keeps the nimber.
pub proof fn lemma_nimber_permuted<
    G: SuccessorGenerator,
    S: SymmetryFinder,
    H: SuccessorGenerator,
    T: SymmetryFinder,
>(
    first: Evaluator<G, S>,
    matrix: BitMatrix,
    nimber: usize,
    rows: Seq<usize>,
    cols: Seq<usize>,
    second: Evaluator<H, T>,
    permuted: BitMatrix,
    other_nimber: usize,
)
    requires
        answers_nimber(first, matrix, nimber),
        is_permutation(rows, matrix@.rows),
        is_permutation(cols, matrix@.cols),
        permuted@ == matrix@.reordered(rows, cols),
        permuted.wf(),
        second.sound(),
        call_ensures(Evaluator::<H, T>::nimber, (&second, &permuted), other_nimber),
    ensures
        other_nimber == nimber,
{
    lemma_permuted_isomorphic(matrix@, rows, cols);
    lemma_cells_finite(matrix@.cells, matrix@.rows, matrix@.cols);
    lemma_fits_isomorphic(matrix@.cells, permuted@.cells);
    lemma_nimber_invariant(first, matrix, nimber, second, permuted, other_nimber);
}

/// Exchanging rows and columns keeps the nimber.
pub proof fn lemma_nimber_transposed<
    G: SuccessorGenerator,
    S: SymmetryFinder,
    H: SuccessorGenerator,
    T: SymmetryFinder,
>(
    first: Evaluator<G, S>,
    matrix: BitMatrix,
    nimber: usize,
    second: Evaluator<H, T>,
    transposed: BitMatrix,
    other_nimber: usize,
)
    requires
        answers_nimber(first, matrix, nimber),
        transposed@ == matrix@.transposed(),
        transposed.wf(),
        second.sound(),
        call_ensures(Evaluator::<H, T>::nimber, (&second, &transposed), other_nimber),
    ensures
        other_nimber == nimber,
{
    lemma_transposed_isomorphic(matrix@);
    lemma_cells_finite(matrix@.cells, matrix@.rows, matrix@.cols);
    lemma_fits_isomorphic(matrix@.cells, transposed@.cells);
    lemma_nimber_invariant(first, matrix, nimber, second, transposed, other_nimber);
}

/// Right nimbers of the first parts give their nimber together.
proof fn lemma_xor_is_total(grids: Seq<Grid>, nimbers: Seq<usize>)
    requires
        nimbers.len() == grids.len(),
        forall|i: int|
            0 <= i < grids.len() ==> #[trigger] nimbers[i] == grundy(grids[i].cells),
    ensures
        nim_total(values(grids)) == xor_all(nimbers),
    decreases grids.len(),
{
    if grids.len() > 0 {
        let less = grids.drop_last();
        let fewer = nimbers.drop_last();
        lemma_xor_is_total(less, fewer);
        assert(values(grids).drop_last() =~= values(less));
        assert(values(grids).last() == grundy(grids.last().cells));
        assert(nimbers[grids.len() - 1] == grundy(grids.last().cells));
        lemma_xor_is_nim_sum(xor_all(fewer), nimbers.last());
    } else {
        assert(values(grids).len() == 0);
    }
}

/// The nimber is the exclusive or of the nimbers of the connected parts, whoever gives those.
pub proof fn lemma_nimber_of_parts<
    G: SuccessorGenerator,
    S: SymmetryFinder,
    H: SuccessorGenerator,
    T: SymmetryFinder,
>(
    first: Evaluator<G, S>,
    matrix: BitMatrix,
    nimber: usize,
    second: Evaluator<H, T>,
    components: Seq<BitMatrix>,
    nimbers: Seq<usize>,
)
    requires
        answers_nimber(first, matrix, nimber),
        components.len() == parts(matrix@).len(),
        nimbers.len() == components.len(),
        forall|i: int| 0 <= i < components.len() ==> (#[trigger] components[i])@ == parts(matrix@)[i],
        forall|i: int|
            0 <= i < components.len() ==> answers_nimber(second, #[trigger] components[i], nimbers[i]),
    ensures
        nimber == xor_all(nimbers),
{
    lemma_parts(matrix@);
    assert forall|i: int| 0 <= i < nimbers.len() implies #[trigger] nimbers[i] == grundy(
        parts(matrix@)[i].cells,
    ) by {
        assert(answers_nimber(second, components[i], nimbers[i]));
    }
    lemma_xor_is_total(parts(matrix@), nimbers);
}

/// A search that may be told to stop gives the nimber that a search without that gives. It gives none
/// only where the flag is found set, and then leaves the cache with nothing but what is done.
pub proof fn lemma_cancellable_nimber<
    G: SuccessorGenerator,
    S: SymmetryFinder,
    H: SuccessorGenerator,
    T: SymmetryFinder,
>(
    first: Evaluator<G, S>,
    game: CanonicalGame,
    cancel: Arc<AtomicBool>,
    nimber: Option<usize>,
    second: Evaluator<H, T>,
    other: usize,
)
    requires
        first.sound(),
        second.sound(),
        parts_fit(game@),
        call_ensures(
            Evaluator::<G, S>::nimber_of_canonical_cancellable,
            (&first, &game, &cancel),
            nimber,
        ),
        call_ensures(Evaluator::<H, T>::nimber_of_canonical, (&second, &game), other),
    ensures
        nimber is Some ==> nimber->0 == other,
        !reads(&*cancel, true) ==> nimber is Some,
        !reads(&*cancel, false) ==> nimber is None,
        nimber is None ==> first.cache_unclaimed(),
{
}

/// The nodes of a legal move are nodes of its corridor.
proof fn lemma_within_corridor(board: Board, movement: Move)
    requires
        board.wf(),
        movement.is_legal(board),
    ensures
        board.contains(movement.anchor.at()),
        movement.cells@.len() <= alive_on(board, movement.axis, movement.anchor.at()).len(),
{
    let cells = movement.cells@;
    let all = alive_on(board, movement.axis, movement.anchor.at());
    lemma_alive_on(board, movement.axis, movement.anchor.at());
    assert forall|i: int| 0 <= i < cells.len() implies all.contains(#[trigger] cells[i])
        && !cells.take(i).contains(cells[i]) by {
        lemma_no_fault(board, movement.axis, movement.anchor, cells, 0, i);
        assert(board.cell_fault(movement.axis, movement.anchor, cells, i) is None);
    }
    assert(cells.no_duplicates()) by {
        assert forall|i: int, j: int|
            0 <= i < cells.len() && 0 <= j < cells.len() && i != j implies cells[i] != cells[j] by {
            if i < j {
                assert(cells.take(j)[i] == cells[i]);
                assert(!cells.take(j).contains(cells[j]));
            } else {
                assert(cells.take(i)[j] == cells[j]);
                assert(!cells.take(i).contains(cells[i]));
            }
        }
    }
    cells.unique_seq_to_set();
    all.unique_seq_to_set();
    assert(cells.to_set().subset_of(all.to_set())) by {
        assert forall|cell: Cell| cells.to_set().contains(cell) implies all.to_set().contains(
            cell,
        ) by {
            let i = choose|i: int| 0 <= i < cells.len() && cells[i] == cell;
            assert(all.contains(cells[i]));
        }
    }
    vstd::set_lib::lemma_len_subset(cells.to_set(), all.to_set());
}

/// A solver with right nimbers that is not told to stop finds no move only where there are no nodes.
/// Its move is legal, and leaves the nimber zero if the nimber is another one. Else it takes as many
/// nodes as any corridor holds.
pub proof fn lemma_solver_move(
    maze: Maze,
    solver: DfsSolver,
    cancel: Arc<AtomicBool>,
    found: SolverMoveResult,
)
    requires
        maze.wf(),
        solver.sound(),
        fits(maze@.compiled().cells),
        call_ensures(solver_move_cancellable, (&maze, &solver, &cancel), found),
        !reads(&*cancel, true),
    ensures
        !(found is Cancelled),
        found is NoMove <==> maze@.nodes.cells.len() == 0,
        found matches SolverMoveResult::Move(movement) ==> {
            &&& movement.is_legal(maze@)
            &&& board_nimber(maze@) != 0 ==> board_nimber(movement.after(maze@)) == 0
            &&& board_nimber(maze@) == 0 ==> {
                &&& forall|axis: Axis, at: Cell|
                    maze@.contains(at.at()) ==> (#[trigger] alive_on(maze@, axis, at.at())).len()
                        <= movement.cells@.len()
                &&& movement.cells@.len() == alive_on(
                    maze@,
                    movement.axis,
                    movement.anchor.at(),
                ).len()
            }
        },
{
    if let SolverMoveResult::Move(movement) = found {
        let board = maze@;
        lemma_within_corridor(board, movement);
        if board_nimber(board) == 0 {
            assert forall|axis: Axis, at: Cell| board.contains(at.at()) implies (
            #[trigger] alive_on(board, axis, at.at())).len() <= movement.cells@.len() by {
                let all = alive_on(board, axis, at.at());
                lemma_alive_on(board, axis, at.at());
                if all.len() > 0 {
                    lemma_corridor_move(board, axis, at, all);
                }
            }
        }
    }
}

/// A bounded search that is not told to stop, for an evaluator with right nimbers, gives the nimber
/// where it is the bound, or where there is no bound. What it gives is the nimber, and does not exceed
/// the bound. Of a single component it always gives the nimber, unless that exceeds the bound.
pub proof fn lemma_bounded_nimber(
    hybrid: HybridEvaluator,
    game: CanonicalGame,
    bound: Option<usize>,
    evaluator: DfsSolver,
    cancel: Arc<AtomicBool>,
    found: BoundedNimber,
)
    requires
        hybrid.sound(),
        parts_fit(game@),
        call_ensures(
            HybridEvaluator::bounded_nimber_of_canonical,
            (&hybrid, &game, bound, &evaluator, &cancel),
            found,
        ),
        !reads(&*cancel, true),
    ensures
        !(found is Cancelled),
        found matches BoundedNimber::Exact(nimber) ==> nimber == nim_total(values(game@)) && (bound
            is Some ==> nimber <= bound->0),
        bound is None ==> found is Exact,
        bound is Some && bound->0 == nim_total(values(game@)) ==> found is Exact,
        bound == Some(0usize) && nim_total(values(game@)) > 0 ==> found is ExceedsBound,
        game@.len() <= 1 ==> (found is ExceedsBound <==> bound is Some && nim_total(values(game@))
            > bound->0),
{
    if found is ExceedsBound {
        lemma_exceeds_differs(game@, bound->0);
        if game@.len() == 1 {
            lemma_single_exceeds(game@, bound->0);
        }
        if game@.len() == 0 {
            assert(values(game@).len() == 0);
        }
    }
}

} // verus!
