//! The move that the solver makes.
use crate::board::{places, Axis, Board, Cell, Maze};
use crate::candidates::{are_candidates, has_candidate, is_candidate, leads_to};
use crate::candidates::{unique_solver_candidates, SolverCandidate};
use crate::colors::{by_signature, lemma_by_signature};
use crate::compile::{lemma_compiled, lemma_compiled_size, lemma_move_is_option};
use crate::compile::{lemma_option_is_move, move_reaches};
use crate::components::{node_count, values};
use crate::corridors::{alive_on, lemma_alive_on};
use crate::evaluator::DfsSolver;
use crate::game::{lemma_corridor_move, lemma_move_takes, Move};
use crate::grid::{countable, grid_lt, lemma_cells_finite, lemma_grid_order, Grid};
use crate::limits::{fits, lemma_fits_part};
use crate::matrix::BitMatrix;
use crate::nim::{grundy, is_option, lemma_grundy, nim_total, reaches, Position};
use crate::order::{lemma_lex_asymmetric, lex_lt, lex_lt_at, number_values, numbers_precede};
use crate::reading::{read_flag, reads};
use crate::solver::{is_cancelled, lemma_cancelled_stands_for, CanonicalGame};
use crate::sorting::{by_number, decides, goes_first, is_permutation, lemma_by_number};
use crate::sorting::{lemma_permutation_covers, sort_indices};
use crate::symmetry::{has_symmetry, is_symmetry, lemma_symmetric_is_zero};
use crate::symmetry::{InvolutionSymmetryFinder, SymmetryFinder};
use crate::worker_result::{is_total_of, lemma_parts_fit, parts_fit};
use core::sync::atomic::AtomicBool;
use std::sync::Arc;
use vstd::prelude::*;

verus! {

/// What the search for a move gives.
#[derive(Debug)]
pub enum SolverMoveResult {
    Move(Move),
    NoMove,
    Cancelled,
}

/// Whether every part is lost at sight for the player to move: it is symmetric.
pub open spec fn zero_at_once(parts: Seq<Grid>) -> bool {
    forall|i: int|
        0 <= i < parts.len() ==> (#[trigger] parts[i]).cells.len() > 0 && has_symmetry(parts[i])
}

/// Whether the parts are matrices as they should be.
pub open spec fn parts_wf(parts: Seq<Grid>) -> bool {
    forall|i: int| 0 <= i < parts.len() ==> (#[trigger] parts[i]).wf()
}

/// Whether taking the cells leaves a game that is lost at sight for the other player.
pub open spec fn wins_at_once(board: Board, cells: Seq<Cell>) -> bool {
    exists|parts: Seq<Grid>|
        parts_wf(parts) && zero_at_once(parts) && #[trigger] leads_to(board, places(cells), parts)
}

/// The nimber of the game on the board.
pub open spec fn board_nimber(board: Board) -> nat {
    grundy(board.compiled().cells)
}

/// What moves are ordered by before they are tried: the nodes and the components that are left, fewer
/// first, then the nodes that are taken, more first.
pub open spec fn effort_of(parts: Seq<Grid>, removed: int) -> Seq<int> {
    seq![node_count(parts) as int, parts.len() as int, usize::MAX - removed]
}

/// Whether no move that wins goes before the move, in the order in which they are tried.
#[verifier::opaque]
pub open spec fn is_first_win(board: Board, movement: Move) -> bool {
    exists|parts: Seq<Grid>|
        {
            &&& parts_wf(parts)
            &&& #[trigger] leads_to(board, places(movement.cells@), parts)
            &&& forall|axis: Axis, anchor: Cell, cells: Seq<Cell>, others: Seq<Grid>|
                #![trigger board.move_fault(axis, anchor, cells), leads_to(board, places(cells), others)]
                {
                    &&& board.move_fault(axis, anchor, cells) is None
                    &&& parts_wf(others)
                    &&& leads_to(board, places(cells), others)
                    &&& board_nimber(board.without(places(cells))) == 0
                } ==> !lex_lt(
                    effort_of(others, cells.len() as int),
                    effort_of(parts, movement.cells@.len() as int),
                )
        }
}

/// What the solver promises of its move on the board, if it has right nimbers: it wins if the game
/// can be won; it prefers a largest move that wins at sight, and else the first in order; if the game
/// is lost it takes as many nodes as it can.
pub open spec fn is_solver_move(board: Board, sound: bool, movement: Move) -> bool {
    let truth = sound && fits(board.compiled().cells);
    &&& movement.is_legal(board)
    &&& forall|axis: Axis, anchor: Cell, cells: Seq<Cell>| #[trigger]
        board.move_fault(axis, anchor, cells) is None && wins_at_once(board, cells) ==> wins_at_once(
            board,
            movement.cells@,
        ) && movement.cells@.len() >= cells.len()
    &&& truth && board_nimber(board) != 0 ==> board_nimber(movement.after(board)) == 0
    &&& truth && board_nimber(board) != 0 && none_at_once(board) ==> is_first_win(board, movement)
    &&& truth && board_nimber(board) == 0 ==> forall|axis: Axis, anchor: Cell, cells: Seq<Cell>|
     #[trigger]
        board.move_fault(axis, anchor, cells) is None ==> movement.cells@.len() >= cells.len()
}

/// The game that is left is determined: parts in strictly ascending order.
pub proof fn lemma_cancelled_unique(parts: Seq<Grid>, a: Seq<Grid>, b: Seq<Grid>)
    requires
        is_cancelled(parts, a),
        is_cancelled(parts, b),
        parts_wf(a),
        parts_wf(b),
    ensures
        a == b,
{
    assert forall|g: Grid| a.contains(g) <==> b.contains(g) by {
        assert(a.contains(g) <==> parts.to_multiset().count(g) % 2 == 1);
    }
    lemma_ascending_unique(a, b);
}

proof fn lemma_ascending_unique(a: Seq<Grid>, b: Seq<Grid>)
    requires
        crate::solver::strictly_ascending(a),
        crate::solver::strictly_ascending(b),
        parts_wf(a),
        parts_wf(b),
        forall|g: Grid| a.contains(g) <==> b.contains(g),
    ensures
        a == b,
    decreases a.len() + b.len(),
{
    if a.len() == 0 {
        if b.len() > 0 {
            assert(b.contains(b[0]));
            assert(a.contains(b[0]));
        }
        assert(a =~= b);
    } else if b.len() == 0 {
        assert(a.contains(a[0]));
        assert(b.contains(a[0]));
    } else {
        let x = a.last();
        let y = b.last();
        assert(a.contains(x) && b.contains(y));
        assert(b.contains(x) && a.contains(y));
        let i = choose|i: int| 0 <= i < b.len() && b[i] == x;
        let j = choose|j: int| 0 <= j < a.len() && a[j] == y;
        assert(a[a.len() - 1].wf() && b[b.len() - 1].wf());
        lemma_grid_order(x, y, x);
        assert(x == y) by {
            if i < b.len() - 1 && j < a.len() - 1 {
                assert(grid_lt(b[i], b[b.len() - 1]));
                assert(grid_lt(a[j], a[a.len() - 1]));
            }
        }
        let c = a.drop_last();
        let d = b.drop_last();
        assert(parts_wf(c)) by {
            assert forall|k: int| 0 <= k < c.len() implies (#[trigger] c[k]).wf() by {
                assert(a[k].wf());
            }
        }
        assert(parts_wf(d)) by {
            assert forall|k: int| 0 <= k < d.len() implies (#[trigger] d[k]).wf() by {
                assert(b[k].wf());
            }
        }
        assert forall|g: Grid| c.contains(g) <==> d.contains(g) by {
            if c.contains(g) {
                let k = choose|k: int| 0 <= k < c.len() && c[k] == g;
                assert(a[k] == g);
                assert(grid_lt(a[k], a[a.len() - 1]));
                assert(a.contains(g));
                assert(b.contains(g));
                let m = choose|m: int| 0 <= m < b.len() && b[m] == g;
                assert(m < b.len() - 1) by {
                    lemma_grid_order(x, x, x);
                }
                assert(d[m] == g);
            }
            if d.contains(g) {
                let k = choose|k: int| 0 <= k < d.len() && d[k] == g;
                assert(b[k] == g);
                assert(grid_lt(b[k], b[b.len() - 1]));
                assert(b.contains(g));
                assert(a.contains(g));
                let m = choose|m: int| 0 <= m < a.len() && a[m] == g;
                assert(m < a.len() - 1) by {
                    lemma_grid_order(x, x, x);
                }
                assert(c[m] == g);
            }
        }
        lemma_ascending_unique(c, d);
        assert(a =~= c.push(x));
        assert(b =~= d.push(y));
    }
}

/// A game that is lost at sight has the nimber zero.
pub proof fn lemma_zero_at_once(parts: Seq<Grid>)
    requires
        parts_wf(parts),
        zero_at_once(parts),
    ensures
        nim_total(values(parts)) == 0,
    decreases parts.len(),
{
    if parts.len() > 0 {
        let most = parts.drop_last();
        assert(parts_wf(most)) by {
            assert forall|i: int| 0 <= i < most.len() implies (#[trigger] most[i]).wf() by {
                assert(parts[i].wf());
            }
        }
        assert(zero_at_once(most)) by {
            assert forall|i: int| 0 <= i < most.len() implies (#[trigger] most[i]).cells.len() > 0
                && has_symmetry(most[i]) by {
                assert(parts[i].cells.len() > 0);
            }
        }
        lemma_zero_at_once(most);
        let last = parts[parts.len() - 1];
        assert(last.wf() && has_symmetry(last));
        let (rows, cols) = choose|rows: Seq<usize>, cols: Seq<usize>|
            is_symmetry(last, rows, cols);
        lemma_symmetric_is_zero(last, rows, cols);
        assert(values(parts).drop_last() =~= values(most));
        assert(values(parts).last() == 0);
    } else {
        assert(values(parts).len() == 0);
    }
}

/// A legal move leads to a position of the compiled game, and the game left stands for it.
proof fn lemma_move_value(
    board: Board,
    axis: Axis,
    anchor: Cell,
    cells: Seq<Cell>,
    parts: Seq<Grid>,
)
    requires
        board.wf(),
        countable(board.compiled().rows, board.compiled().cols),
        board.move_fault(axis, anchor, cells) is None,
        leads_to(board, places(cells), parts),
    ensures
        is_option(board.compiled().cells, board.without(places(cells)).compiled().cells),
        nim_total(values(parts)) == board_nimber(board.without(places(cells))),
        fits(board.compiled().cells) ==> parts_fit(parts),
{
    let after = board.without(places(cells));
    assert(after.wf());
    lemma_compiled_size(board, places(cells));
    lemma_compiled(after);
    lemma_compiled(board);
    lemma_move_is_option(board, axis, anchor, cells);
    reveal(leads_to);
    lemma_cancelled_stands_for(after.compiled(), parts);
    if fits(board.compiled().cells) {
        lemma_fits_part(board.compiled().cells, after.compiled().cells);
        lemma_cells_finite(
            after.compiled().cells,
            after.compiled().rows,
            after.compiled().cols,
        );
        lemma_parts_fit(after.compiled().cells, parts);
    }
}

/// A node can be taken.
proof fn lemma_node_is_move(board: Board) -> (taken: (Cell, Seq<Cell>))
    requires
        board.wf(),
        board.nodes.cells.len() > 0,
    ensures
        board.move_fault(Axis::Horizontal, taken.0, taken.1) is None,
{
    let p = board.nodes.cells.choose();
    assert(board.nodes.cells.contains(p));
    let cell = Cell { row: p.0 as usize, col: p.1 as usize };
    assert(cell.at() == p);
    let cells = seq![cell];
    lemma_alive_on(board, Axis::Horizontal, p);
    assert(alive_on(board, Axis::Horizontal, p).contains(cell));
    lemma_corridor_move(board, Axis::Horizontal, cell, cells);
    (cell, cells)
}

/// Where nodes are left, every nimber that a move reaches has a candidate.
proof fn lemma_zero_has_candidate(board: Board, candidates: Seq<SolverCandidate>) -> (i: int)
    requires
        board.wf(),
        countable(board.compiled().rows, board.compiled().cols),
        are_candidates(board, candidates),
        forall|axis: Axis, anchor: Cell, cells: Seq<Cell>| #[trigger]
            board.move_fault(axis, anchor, cells) is None ==> has_candidate(
                candidates,
                board,
                places(cells),
                cells.len(),
            ),
        board_nimber(board) != 0,
    ensures
        0 <= i < candidates.len(),
        nim_total(values(candidates[i].game@)) == 0,
{
    let position = board.compiled().cells;
    lemma_compiled(board);
    lemma_cells_finite(position, board.compiled().rows, board.compiled().cols);
    lemma_grundy(position);
    assert(reaches(position, 0));
    let t = choose|t: Position| is_option(position, t) && #[trigger] grundy(t) == 0;
    lemma_option_is_move(board, t);
    let (axis, anchor, cells) = choose|axis: Axis, anchor: Cell, cells: Seq<Cell>|
        move_reaches(board, axis, anchor, cells, t);
    assert(board.move_fault(axis, anchor, cells) is None);
    assert(has_candidate(candidates, board, places(cells), cells.len()));
    let i = choose|i: int|
        0 <= i < candidates.len() && leads_to(board, places(cells), (
        #[trigger] candidates[i]).game@) && candidates[i].removed >= cells.len();
    lemma_move_value(board, axis, anchor, cells, candidates[i].game@);
    i
}

/// Whether all components of a game are lost at sight for the player to move.
pub fn immediately_zero(game: &CanonicalGame) -> (zero: bool)
    requires
        game.wf(),
    ensures
        zero == zero_at_once(game@),
{
    let components: &[BitMatrix] = game.components();
    let mut k: usize = 0;
    while k < components.len()
        invariant
            components@.len() == game@.len(),
            forall|i: int| 0 <= i < components@.len() ==> (#[trigger] components@[i]).wf(),
            forall|i: int| 0 <= i < components@.len() ==> (#[trigger] components@[i])@ == game@[i],
            k <= components@.len(),
            forall|i: int|
                0 <= i < k ==> (#[trigger] game@[i]).cells.len() > 0 && has_symmetry(game@[i]),
        decreases components@.len() - k,
    {
        proof {
            assert(components@[k as int].wf());
        }
        if !InvolutionSymmetryFinder.proves_zero(&components[k]) {
            proof {
                assert(game@[k as int] == components@[k as int]@);
            }
            return false;
        }
        k = k + 1;
    }
    true
}

/// The candidates in the order in which they are tried: few nodes left, few components, many nodes
/// taken.
fn order_by_effort(candidates: &Vec<SolverCandidate>, order: &Vec<usize>) -> (tried: Vec<usize>)
    requires
        is_permutation(order@, candidates@.len()),
        forall|i: int| 0 <= i < candidates@.len() ==> (#[trigger] candidates@[i]).game.wf(),
    ensures
        is_permutation(tried@, candidates@.len()),
        by_effort(candidates@, tried@),
{
    let mut keys: Vec<Vec<usize>> = Vec::new();
    let mut k: usize = 0;
    while k < order.len()
        invariant
            is_permutation(order@, candidates@.len()),
            forall|i: int| 0 <= i < candidates@.len() ==> (#[trigger] candidates@[i]).game.wf(),
            k <= order@.len(),
            keys@.len() == k,
            forall|i: int|
                0 <= i < k ==> number_values((#[trigger] keys@[i])@) == effort(
                    candidates@[order@[i] as int],
                ),
        decreases order@.len() - k,
    {
        let index: usize = order[k];
        proof {
            assert(order@[k as int] < candidates@.len());
            assert(candidates@[index as int].game.wf());
        }
        let components: usize = candidates[index].game.components().len();
        let nodes: usize = candidates[index].nodes;
        let spared: usize = usize::MAX - candidates[index].removed;
        let key: Vec<usize> = vec![nodes, components, spared];
        proof {
            assert(number_values(key@) =~= effort(candidates@[index as int]));
        }
        keys.push(key);
        k = k + 1;
    }
    let ghost all = Seq::new(keys@.len(), |i: int| number_values(keys@[i]@));
    let ghost lt = by_signature(all);
    let less = |i: usize, j: usize| -> (b: bool)
        requires
            i < keys@.len(),
            j < keys@.len(),
        ensures
            b == lex_lt(number_values(keys@[i as int]@), number_values(keys@[j as int]@)),
        { numbers_precede(keys[i].as_slice(), keys[j].as_slice()) };
    proof {
        lemma_by_signature(all);
        assert(decides(less, all.len(), lt));
    }
    let places: Vec<usize> = sort_indices(keys.len(), &less, Ghost(lt));
    let mut tried: Vec<usize> = Vec::new();
    let mut k: usize = 0;
    while k < places.len()
        invariant
            is_permutation(order@, candidates@.len()),
            is_permutation(places@, order@.len()),
            k <= places@.len(),
            tried@.len() == k,
            forall|i: int| 0 <= i < k ==> #[trigger] tried@[i] == order@[places@[i] as int],
        decreases places@.len() - k,
    {
        proof {
            assert(places@[k as int] < order@.len());
        }
        tried.push(order[places[k]]);
        k = k + 1;
    }
    proof {
        assert forall|i: int| 0 <= i < tried@.len() implies #[trigger] tried@[i]
            < candidates@.len() by {
            assert(places@[i] < order@.len());
            assert(order@[places@[i] as int] < candidates@.len());
        }
        assert forall|i: int, j: int| 0 <= i < tried@.len() && 0 <= j < tried@.len() && i
            != j implies tried@[i] != tried@[j] by {
            assert(places@[i] < order@.len() && places@[j] < order@.len());
            assert(places@[i] != places@[j]);
        }
        assert forall|i: int, j: int| 0 <= i < j < tried@.len() implies !lex_lt(
            effort(candidates@[#[trigger] tried@[j] as int]),
            effort(candidates@[#[trigger] tried@[i] as int]),
        ) by {
            assert(goes_first(lt, places@[i] as int, places@[j] as int));
            assert(places@[i] < keys@.len() && places@[j] < keys@.len());
            crate::order::lemma_lex_asymmetric(
                all[places@[i] as int],
                all[places@[j] as int],
            );
        }
    }
    tried
}

/// What a candidate is ordered by before it is tried.
pub open spec fn effort(candidate: SolverCandidate) -> Seq<int> {
    let spared = usize::MAX - candidate.removed;
    seq![candidate.nodes as int, candidate.game@.len() as int, spared]
}

/// Whether the candidates are listed in the order in which they are tried.
spec fn by_effort(candidates: Seq<SolverCandidate>, tried: Seq<usize>) -> bool {
    forall|i: int, j: int|
        0 <= i < j < tried.len() ==> !lex_lt(
            effort(candidates[#[trigger] tried[j] as int]),
            effort(candidates[#[trigger] tried[i] as int]),
        )
}

/// The candidates that take more nodes first.
fn order_by_removed(candidates: &Vec<SolverCandidate>) -> (order: Vec<usize>)
    ensures
        is_permutation(order@, candidates@.len()),
        by_removed(candidates@, order@),
{
    let mut keys: Vec<usize> = Vec::new();
    let mut k: usize = 0;
    while k < candidates.len()
        invariant
            k <= candidates@.len(),
            keys@.len() == k,
            forall|i: int|
                0 <= i < k ==> #[trigger] keys@[i] == usize::MAX - candidates@[i].removed,
        decreases candidates@.len() - k,
    {
        keys.push(usize::MAX - candidates[k].removed);
        k = k + 1;
    }
    let ghost lt = by_number(keys@);
    let less = |i: usize, j: usize| -> (b: bool)
        requires
            i < keys@.len(),
            j < keys@.len(),
        ensures
            b == (keys@[i as int] < keys@[j as int]),
        { keys[i] < keys[j] };
    proof {
        lemma_by_number(keys@);
        assert(decides(less, keys@.len(), lt));
    }
    let order: Vec<usize> = sort_indices(keys.len(), &less, Ghost(lt));
    proof {
        assert forall|i: int, j: int|
            0 <= i < j < order@.len() implies candidates@[#[trigger] order@[i] as int].removed
            >= candidates@[#[trigger] order@[j] as int].removed by {
            assert(goes_first(lt, order@[i] as int, order@[j] as int));
            assert(order@[i] < keys@.len() && order@[j] < keys@.len());
        }
    }
    order
}

/// Whether there is a flag, and it is read as set.
spec fn may_stop(cancel: Option<&Arc<AtomicBool>>) -> bool {
    cancel matches Some(flag) && reads(&**flag, true)
}

fn is_set(cancel: Option<&Arc<AtomicBool>>) -> (set: bool)
    ensures
        match cancel {
            Some(flag) => reads(&**flag, set),
            None => !set,
        },
{
    match cancel {
        Some(flag) => read_flag(&**flag),
        None => false,
    }
}

/// Whether a candidate exists for every move.
spec fn all_moves(board: Board, candidates: Seq<SolverCandidate>) -> bool {
    forall|axis: Axis, anchor: Cell, cells: Seq<Cell>| #[trigger]
        board.move_fault(axis, anchor, cells) is None ==> has_candidate(
            candidates,
            board,
            places(cells),
            cells.len(),
        )
}

/// A candidate that wins at sight and takes no fewer nodes than the others that do is a move that the
/// solver promises.
proof fn lemma_wins_at_once(
    board: Board,
    sound: bool,
    candidates: Seq<SolverCandidate>,
    best: int,
    movement: Move,
)
    requires
        board.wf(),
        countable(board.compiled().rows, board.compiled().cols),
        are_candidates(board, candidates),
        all_moves(board, candidates),
        0 <= best < candidates.len(),
        zero_at_once(candidates[best].game@),
        forall|i: int|
            0 <= i < candidates.len() && zero_at_once((#[trigger] candidates[i]).game@)
                ==> candidates[best].removed >= candidates[i].removed,
        movement.axis == candidates[best].movement.axis,
        movement.anchor == candidates[best].movement.anchor,
        movement.cells@ == candidates[best].movement.cells@,
    ensures
        is_solver_move(board, sound, movement),
{
    assert(is_candidate(board, candidates[best]));
    let parts = candidates[best].game@;
    assert(parts_wf(parts));
    lemma_zero_at_once(parts);
    lemma_move_value(board, movement.axis, movement.anchor, movement.cells@, parts);
    let position = board.compiled().cells;
    lemma_compiled(board);
    lemma_cells_finite(position, board.compiled().rows, board.compiled().cols);
    lemma_grundy(position);
    assert(wins_at_once(board, movement.cells@));
    assert forall|axis: Axis, anchor: Cell, cells: Seq<Cell>| #[trigger]
        board.move_fault(axis, anchor, cells) is None && wins_at_once(
            board,
            cells,
        ) implies movement.cells@.len() >= cells.len() by {
        let i = lemma_wins_candidate(board, candidates, axis, anchor, cells);
        assert(zero_at_once(candidates[i].game@));
    }
}

/// A move that wins at sight has a candidate that does.
proof fn lemma_wins_candidate(
    board: Board,
    candidates: Seq<SolverCandidate>,
    axis: Axis,
    anchor: Cell,
    cells: Seq<Cell>,
) -> (i: int)
    requires
        are_candidates(board, candidates),
        all_moves(board, candidates),
        board.move_fault(axis, anchor, cells) is None,
        wins_at_once(board, cells),
    ensures
        0 <= i < candidates.len(),
        zero_at_once(candidates[i].game@),
        candidates[i].removed >= cells.len(),
{
    let parts = choose|parts: Seq<Grid>|
        parts_wf(parts) && zero_at_once(parts) && #[trigger] leads_to(board, places(cells), parts);
    assert(has_candidate(candidates, board, places(cells), cells.len()));
    let i = choose|i: int|
        0 <= i < candidates.len() && leads_to(board, places(cells), (
        #[trigger] candidates[i]).game@) && candidates[i].removed >= cells.len();
    assert(is_candidate(board, candidates[i]));
    assert(parts_wf(candidates[i].game@));
    reveal(leads_to);
    lemma_cancelled_unique(
        crate::solver::canonical_parts(board.without(places(cells)).compiled()),
        parts,
        candidates[i].game@,
    );
    i
}

/// Whether no move wins at sight.
pub open spec fn none_at_once(board: Board) -> bool {
    forall|axis: Axis, anchor: Cell, cells: Seq<Cell>| #[trigger]
        board.move_fault(axis, anchor, cells) is None ==> !wins_at_once(board, cells)
}

/// Whether the candidates are listed so that those that take more nodes go first.
spec fn by_removed(candidates: Seq<SolverCandidate>, order: Seq<usize>) -> bool {
    forall|i: int, j: int|
        0 <= i < j < order.len() ==> candidates[#[trigger] order[i] as int].removed
            >= candidates[#[trigger] order[j] as int].removed
}

/// Whether none of the first `k` candidates of the list wins at sight.
spec fn none_before(candidates: Seq<SolverCandidate>, order: Seq<usize>, k: int) -> bool {
    forall|i: int| 0 <= i < k ==> !zero_at_once(candidates[#[trigger] order[i] as int].game@)
}

/// The first candidate of the list that wins at sight is a move that the solver promises.
proof fn lemma_first_at_once(
    board: Board,
    sound: bool,
    candidates: Seq<SolverCandidate>,
    order: Seq<usize>,
    k: int,
    movement: Move,
)
    requires
        board.wf(),
        countable(board.compiled().rows, board.compiled().cols),
        are_candidates(board, candidates),
        all_moves(board, candidates),
        is_permutation(order, candidates.len()),
        candidates.len() <= usize::MAX,
        by_removed(candidates, order),
        none_before(candidates, order, k),
        0 <= k < order.len(),
        zero_at_once(candidates[order[k] as int].game@),
        movement.axis == candidates[order[k] as int].movement.axis,
        movement.anchor == candidates[order[k] as int].movement.anchor,
        movement.cells@ == candidates[order[k] as int].movement.cells@,
    ensures
        is_solver_move(board, sound, movement),
{
    let best = order[k] as int;
    lemma_permutation_covers(order, candidates.len());
    assert(order[k] < candidates.len());
    assert forall|i: int|
        0 <= i < candidates.len() && zero_at_once((#[trigger] candidates[i]).game@) implies candidates[best].removed
        >= candidates[i].removed by {
        assert(order.contains(i as usize));
        let j = choose|j: int| 0 <= j < order.len() && order[j] == i as usize;
        if j < k {
            assert(!zero_at_once(candidates[order[j] as int].game@));
        } else if k < j {
            assert(candidates[order[k] as int].removed >= candidates[order[j] as int].removed);
        }
    }
    lemma_wins_at_once(board, sound, candidates, best, movement);
}

/// Where no candidate wins at sight, no move does.
proof fn lemma_none_at_once(board: Board, candidates: Seq<SolverCandidate>, order: Seq<usize>)
    requires
        are_candidates(board, candidates),
        all_moves(board, candidates),
        is_permutation(order, candidates.len()),
        candidates.len() <= usize::MAX,
        none_before(candidates, order, order.len() as int),
    ensures
        none_at_once(board),
{
    lemma_permutation_covers(order, candidates.len());
    assert forall|axis: Axis, anchor: Cell, cells: Seq<Cell>| #[trigger]
        board.move_fault(axis, anchor, cells) is None implies !wins_at_once(board, cells) by {
        if wins_at_once(board, cells) {
            let i = lemma_wins_candidate(board, candidates, axis, anchor, cells);
            assert(order.contains(i as usize));
            let j = choose|j: int| 0 <= j < order.len() && order[j] == i as usize;
            assert(!zero_at_once(candidates[order[j] as int].game@));
        }
    }
}

/// A largest move that wins at sight.
fn find_at_once(
    maze: &Maze,
    candidates: &Vec<SolverCandidate>,
    order: &Vec<usize>,
    Ghost(sound): Ghost<bool>,
) -> (found: Option<Move>)
    requires
        maze.wf(),
        countable(maze@.compiled().rows, maze@.compiled().cols),
        are_candidates(maze@, candidates@),
        all_moves(maze@, candidates@),
        is_permutation(order@, candidates@.len()),
        candidates@.len() <= usize::MAX,
        by_removed(candidates@, order@),
    ensures
        found is Some ==> is_solver_move(maze@, sound, found->0),
        found is None ==> none_at_once(maze@),
{
    let mut k: usize = 0;
    while k < order.len()
        invariant
            maze.wf(),
            countable(maze@.compiled().rows, maze@.compiled().cols),
            are_candidates(maze@, candidates@),
            all_moves(maze@, candidates@),
            is_permutation(order@, candidates@.len()),
            candidates@.len() <= usize::MAX,
            by_removed(candidates@, order@),
            k <= order@.len(),
            none_before(candidates@, order@, k as int),
        decreases order@.len() - k,
    {
        let index: usize = order[k];
        proof {
            assert(order@[k as int] < candidates@.len());
            assert(is_candidate(maze@, candidates@[index as int]));
        }
        if immediately_zero(&candidates[index].game) {
            let movement: Move = candidates[index].movement.clone();
            proof {
                lemma_first_at_once(maze@, sound, candidates@, order@, k as int, movement);
            }
            return Some(movement);
        }
        k = k + 1;
    }
    proof {
        lemma_none_at_once(maze@, candidates@, order@);
    }
    None
}

/// What takes more effort than another thing still does if that other thing takes more nodes.
proof fn lemma_less_effort(parts: Seq<Grid>, fewer: int, more: int, own: Seq<int>)
    requires
        fewer <= more,
        own.len() == 3,
        lex_lt(effort_of(parts, fewer), own),
    ensures
        lex_lt(effort_of(parts, more), own),
{
    let a = effort_of(parts, fewer);
    let b = effort_of(parts, more);
    let place = choose|place: int| lex_lt_at(a, own, place);
    assert forall|x: int| 0 <= x < 3 implies b[x] <= a[x] by {}
    if place < 2 || b[2] == a[2] || a[2] < own[2] {
        assert(lex_lt_at(b, own, place));
    }
}

/// A move that wins has a candidate that is tried at place `k` or later, where no candidate before
/// that wins.
proof fn lemma_tried_later(
    board: Board,
    candidates: Seq<SolverCandidate>,
    tried: Seq<usize>,
    k: int,
    axis: Axis,
    anchor: Cell,
    cells: Seq<Cell>,
    others: Seq<Grid>,
) -> (j: int)
    requires
        board.wf(),
        countable(board.compiled().rows, board.compiled().cols),
        are_candidates(board, candidates),
        all_moves(board, candidates),
        is_permutation(tried, candidates.len()),
        candidates.len() <= usize::MAX,
        0 <= k < tried.len(),
        forall|i: int|
            0 <= i < k ==> nim_total(values(candidates[#[trigger] tried[i] as int].game@)) != 0,
        board.move_fault(axis, anchor, cells) is None,
        parts_wf(others),
        leads_to(board, places(cells), others),
        board_nimber(board.without(places(cells))) == 0,
    ensures
        k <= j < tried.len(),
        tried[j] < candidates.len(),
        candidates[tried[j] as int].game@ == others,
        candidates[tried[j] as int].removed >= cells.len(),
        candidates[tried[j] as int].nodes == node_count(others),
{
    lemma_permutation_covers(tried, candidates.len());
    assert(has_candidate(candidates, board, places(cells), cells.len()));
    let i = choose|i: int|
        0 <= i < candidates.len() && leads_to(board, places(cells), (
        #[trigger] candidates[i]).game@) && candidates[i].removed >= cells.len();
    let other = candidates[i];
    assert(is_candidate(board, other));
    assert(parts_wf(other.game@));
    lemma_move_value(board, axis, anchor, cells, other.game@);
    assert(others == other.game@) by {
        reveal(leads_to);
        lemma_cancelled_unique(
            crate::solver::canonical_parts(board.without(places(cells)).compiled()),
            others,
            other.game@,
        );
    }
    assert(tried.contains(i as usize));
    let j = choose|j: int| 0 <= j < tried.len() && tried[j] == i as usize;
    j
}

/// Whether every move has a candidate, and these are listed in the order in which they are tried.
#[verifier::opaque]
spec fn is_trial(board: Board, candidates: Seq<SolverCandidate>, tried: Seq<usize>) -> bool {
    &&& all_moves(board, candidates)
    &&& candidates.len() <= usize::MAX
    &&& by_effort(candidates, tried)
}

/// The first candidate of the list whose game has the nimber zero is the first move that wins.
proof fn lemma_first_win(
    board: Board,
    candidates: Seq<SolverCandidate>,
    tried: Seq<usize>,
    k: int,
    movement: Move,
)
    requires
        board.wf(),
        countable(board.compiled().rows, board.compiled().cols),
        are_candidates(board, candidates),
        is_permutation(tried, candidates.len()),
        is_trial(board, candidates, tried),
        0 <= k < tried.len(),
        forall|i: int|
            0 <= i < k ==> nim_total(values(candidates[#[trigger] tried[i] as int].game@)) != 0,
        movement.cells@ == candidates[tried[k] as int].movement.cells@,
    ensures
        is_first_win(board, movement),
{
    reveal(is_first_win);
    reveal(is_trial);
    let own = candidates[tried[k] as int];
    assert(tried[k] < candidates.len());
    assert(is_candidate(board, own));
    let parts = own.game@;
    assert(parts_wf(parts));
    let effort_here = effort_of(parts, movement.cells@.len() as int);
    assert(effort(own) =~= effort_here);
    assert forall|axis: Axis, anchor: Cell, cells: Seq<Cell>, others: Seq<Grid>|
        #![trigger board.move_fault(axis, anchor, cells), leads_to(board, places(cells), others)]
        {
            &&& board.move_fault(axis, anchor, cells) is None
            &&& parts_wf(others)
            &&& leads_to(board, places(cells), others)
            &&& board_nimber(board.without(places(cells))) == 0
        } implies !lex_lt(effort_of(others, cells.len() as int), effort_here) by {
        let j = lemma_tried_later(
            board,
            candidates,
            tried,
            k,
            axis,
            anchor,
            cells,
            others,
        );
        let other = candidates[tried[j] as int];
        if lex_lt(effort_of(others, cells.len() as int), effort_here) {
            lemma_less_effort(others, cells.len() as int, other.removed as int, effort_here);
            assert(effort(other) =~= effort_of(others, other.removed as int));
            if j == k {
                lemma_lex_asymmetric(effort_here, effort_here);
            }
        }
    }
    assert(leads_to(board, places(movement.cells@), parts));
}

/// The nimber of a candidate's game, or nothing if `cancel` is set meanwhile.
fn candidate_nimber(
    game: &CanonicalGame,
    solver: &DfsSolver,
    cancel: Option<&Arc<AtomicBool>>,
) -> (nimber: Option<usize>)
    requires
        game.wf(),
        solver.wf(),
    ensures
        nimber is None ==> may_stop(cancel),
        solver.sound() && nimber is Some ==> is_total_of(game@, nimber->0),
{
    if let Some(nimber) = solver.cached_nimber_of_canonical(game) {
        return Some(nimber);
    }
    match cancel {
        None => Some(solver.nimber_of_canonical(game)),
        Some(cancel) => solver.nimber_of_canonical_cancellable(game, cancel),
    }
}

/// A move that wins, where none wins at sight.
fn find_winning(
    maze: &Maze,
    solver: &DfsSolver,
    candidates: &Vec<SolverCandidate>,
    tried: &Vec<usize>,
    cancel: Option<&Arc<AtomicBool>>,
) -> (found: SolverMoveResult)
    requires
        maze.wf(),
        countable(maze@.compiled().rows, maze@.compiled().cols),
        solver.wf(),
        are_candidates(maze@, candidates@),
        none_at_once(maze@),
        is_permutation(tried@, candidates@.len()),
        is_trial(maze@, candidates@, tried@),
    ensures
        found is Cancelled ==> may_stop(cancel),
        found matches SolverMoveResult::Move(movement) ==> is_solver_move(
            maze@,
            solver.sound(),
            movement,
        ),
        found is NoMove && solver.sound() && fits(maze@.compiled().cells) ==> forall|i: int|
            0 <= i < tried@.len() ==> nim_total(
                values(candidates@[#[trigger] tried@[i] as int].game@),
            ) != 0,
{
    let ghost board = maze@;
    let ghost position = board.compiled().cells;
    let ghost sound = solver.sound();
    let ghost truth = sound && fits(position);
    proof {
        lemma_compiled(board);
        lemma_cells_finite(position, board.compiled().rows, board.compiled().cols);
        lemma_grundy(position);
    }
    let mut k: usize = 0;
    while k < tried.len()
        invariant
            board == maze@,
            board.wf(),
            countable(board.compiled().rows, board.compiled().cols),
            position == board.compiled().cells,
            forall|t: Position| #[trigger] is_option(position, t) ==> grundy(t) != grundy(position),
            are_candidates(board, candidates@),
            none_at_once(board),
            is_trial(board, candidates@, tried@),
            solver.wf(),
            sound == solver.sound(),
            truth == (sound && fits(position)),
            is_permutation(tried@, candidates@.len()),
            k <= tried@.len(),
            truth ==> forall|i: int|
                0 <= i < k ==> nim_total(
                    values(candidates@[#[trigger] tried@[i] as int].game@),
                ) != 0,
        decreases tried@.len() - k,
    {
        if is_set(cancel) {
            return SolverMoveResult::Cancelled;
        }
        let index: usize = tried[k];
        let ghost parts = candidates@[index as int].game@;
        let ghost own = candidates@[index as int].movement;
        proof {
            assert(tried@[k as int] < candidates@.len());
            assert(is_candidate(board, candidates@[index as int]));
            lemma_move_value(board, own.axis, own.anchor, own.cells@, parts);
        }
        match candidate_nimber(&candidates[index].game, solver, cancel) {
            None => {
                return SolverMoveResult::Cancelled;
            },
            Some(nimber) => {
                if nimber == 0 {
                    let movement: Move = candidates[index].movement.clone();
                    proof {
                        assert(movement.after(board) == own.after(board));
                        if truth {
                            lemma_first_win(board, candidates@, tried@, k as int, movement);
                        }
                        assert(is_solver_move(board, sound, movement));
                    }
                    return SolverMoveResult::Move(movement);
                }
            },
        }
        k = k + 1;
    }
    SolverMoveResult::NoMove
}

/// A largest move, where none wins.
fn find_largest(
    maze: &Maze,
    candidates: &Vec<SolverCandidate>,
    tried: &Vec<usize>,
    Ghost(sound): Ghost<bool>,
) -> (movement: Move)
    requires
        maze.wf(),
        countable(maze@.compiled().rows, maze@.compiled().cols),
        are_candidates(maze@, candidates@),
        all_moves(maze@, candidates@),
        none_at_once(maze@),
        is_permutation(tried@, candidates@.len()),
        0 < candidates@.len() <= usize::MAX,
        sound && fits(maze@.compiled().cells) ==> forall|i: int|
            0 <= i < tried@.len() ==> nim_total(
                values(candidates@[#[trigger] tried@[i] as int].game@),
            ) != 0,
    ensures
        is_solver_move(maze@, sound, movement),
{
    let ghost board = maze@;
    let mut best: usize = tried[0];
    proof {
        assert(tried@[0] < candidates@.len());
    }
    let mut k: usize = 1;
    while k < tried.len()
        invariant
            is_permutation(tried@, candidates@.len()),
            best < candidates@.len(),
            1 <= k <= tried@.len(),
            forall|i: int|
                0 <= i < k ==> candidates@[best as int].removed
                    >= candidates@[#[trigger] tried@[i] as int].removed,
        decreases tried@.len() - k,
    {
        proof {
            assert(tried@[k as int] < candidates@.len());
        }
        if candidates[tried[k]].removed >= candidates[best].removed {
            best = tried[k];
        }
        k = k + 1;
    }
    let movement: Move = candidates[best].movement.clone();
    proof {
        lemma_permutation_covers(tried@, candidates@.len());
        assert(is_candidate(board, candidates@[best as int]));
        if sound && fits(board.compiled().cells) && board_nimber(board) != 0 {
            let i = lemma_zero_has_candidate(board, candidates@);
            assert(tried@.contains(i as usize));
            let j = choose|j: int| 0 <= j < tried@.len() && tried@[j] == i as usize;
            assert(nim_total(values(candidates@[tried@[j] as int].game@)) != 0);
        }
        assert forall|axis: Axis, anchor: Cell, cells: Seq<Cell>| #[trigger]
            board.move_fault(axis, anchor, cells) is None implies movement.cells@.len()
            >= cells.len() by {
            assert(has_candidate(candidates@, board, places(cells), cells.len()));
            let i = choose|i: int|
                0 <= i < candidates@.len() && leads_to(board, places(cells), (
                #[trigger] candidates@[i]).game@) && candidates@[i].removed >= cells.len();
            assert(tried@.contains(i as usize));
            let j = choose|j: int| 0 <= j < tried@.len() && tried@[j] == i as usize;
            assert(candidates@[best as int].removed
                >= candidates@[tried@[j] as int].removed);
        }
    }
    movement
}

/// Finds a move: one that wins at sight, or else one that wins, or else a largest one.
fn find_move(maze: &Maze, solver: &DfsSolver, cancel: Option<&Arc<AtomicBool>>) -> (found:
    SolverMoveResult)
    requires
        maze.wf(),
        countable(maze@.compiled().rows, maze@.compiled().cols),
        solver.wf(),
    ensures
        found is Cancelled ==> may_stop(cancel),
        found is Move ==> (cancel matches Some(flag) ==> reads(&**flag, false)),
        found is NoMove ==> maze@.nodes.cells.len() == 0,
        found matches SolverMoveResult::Move(movement) ==> is_solver_move(
            maze@,
            solver.sound(),
            movement,
        ),
{
    let flag: Option<&AtomicBool> = match cancel {
        Some(cancel) => Some(&**cancel),
        None => None,
    };
    let candidates: Vec<SolverCandidate> = match unique_solver_candidates(maze, flag) {
        Some(candidates) => candidates,
        None => {
            return SolverMoveResult::Cancelled;
        },
    };
    if candidates.len() == 0 {
        proof {
            if maze@.nodes.cells.len() > 0 {
                let taken = lemma_node_is_move(maze@);
                assert(has_candidate(candidates@, maze@, places(taken.1), taken.1.len()));
            }
        }
        return SolverMoveResult::NoMove;
    }
    proof {
        assert forall|i: int| 0 <= i < candidates@.len() implies (
        #[trigger] candidates@[i]).game.wf() by {
            assert(is_candidate(maze@, candidates@[i]));
        }
    }
    let order: Vec<usize> = order_by_removed(&candidates);
    if let Some(movement) = find_at_once(maze, &candidates, &order, Ghost(solver.sound())) {
        return SolverMoveResult::Move(movement);
    }
    let tried: Vec<usize> = order_by_effort(&candidates, &order);
    proof {
        reveal(is_trial);
        assert(is_trial(maze@, candidates@, tried@));
    }
    match find_winning(maze, solver, &candidates, &tried, cancel) {
        SolverMoveResult::Move(movement) => SolverMoveResult::Move(movement),
        SolverMoveResult::Cancelled => SolverMoveResult::Cancelled,
        SolverMoveResult::NoMove => SolverMoveResult::Move(
            find_largest(maze, &candidates, &tried, Ghost(solver.sound())),
        ),
    }
}

/// The move that the solver makes, if nodes are left.
pub fn solver_move(maze: &Maze, solver: &DfsSolver) -> (movement: Option<Move>)
    requires
        maze.wf(),
        countable(maze@.compiled().rows, maze@.compiled().cols),
        solver.wf(),
    ensures
        movement is Some <==> maze@.nodes.cells.len() > 0,
        movement is Some ==> is_solver_move(maze@, solver.sound(), movement->0),
{
    match find_move(maze, solver, None) {
        SolverMoveResult::Move(movement) => {
            proof {
                lemma_move_takes(maze@, movement);
            }
            Some(movement)
        },
        SolverMoveResult::NoMove => None,
        SolverMoveResult::Cancelled => None,
    }
}

/// The move that the solver makes, or nothing if `cancel` is read as set.
pub fn solver_move_cancellable(maze: &Maze, solver: &DfsSolver, cancel: &Arc<AtomicBool>) -> (found:
    SolverMoveResult)
    requires
        maze.wf(),
        countable(maze@.compiled().rows, maze@.compiled().cols),
        solver.wf(),
    ensures
        found is Cancelled ==> reads(&**cancel, true),
        found is Move ==> reads(&**cancel, false),
        found is NoMove ==> maze@.nodes.cells.len() == 0,
        found is Move ==> maze@.nodes.cells.len() > 0,
        found matches SolverMoveResult::Move(movement) ==> is_solver_move(
            maze@,
            solver.sound(),
            movement,
        ),
{
    let found: SolverMoveResult = find_move(maze, solver, Some(cancel));
    proof {
        if found is Move {
            lemma_move_takes(maze@, found->Move_0);
        }
    }
    found
}

/// The nimber tells who wins: from a board with the nimber zero every move leads to one with
/// another nimber, and from a board with another nimber some move leads to one with the nimber zero.
pub proof fn lemma_nimber_decides(board: Board)
    requires
        board.wf(),
    ensures
        board_nimber(board) == 0 ==> forall|axis: Axis, anchor: Cell, cells: Seq<Cell>| #[trigger]
            board.move_fault(axis, anchor, cells) is None ==> board_nimber(
                board.without(places(cells)),
            ) != 0,
        board_nimber(board) != 0 ==> exists|axis: Axis, anchor: Cell, cells: Seq<Cell>| #[trigger]
            board.move_fault(axis, anchor, cells) is None && board_nimber(
                board.without(places(cells)),
            ) == 0,
{
    let from = board.compiled().cells;
    lemma_compiled(board);
    lemma_grundy(from);
    assert forall|axis: Axis, anchor: Cell, cells: Seq<Cell>| #[trigger]
        board.move_fault(axis, anchor, cells) is None implies board_nimber(
        board.without(places(cells)),
    ) != board_nimber(board) by {
        lemma_move_is_option(board, axis, anchor, cells);
    }
    if board_nimber(board) != 0 {
        assert(reaches(from, 0));
        let t = choose|t: Position| is_option(from, t) && #[trigger] grundy(t) == 0;
        lemma_option_is_move(board, t);
        let (axis, anchor, cells) = choose|axis: Axis, anchor: Cell, cells: Seq<Cell>|
            move_reaches(board, axis, anchor, cells, t);
        assert(board.move_fault(axis, anchor, cells) is None);
    }
}

/// A solver with right nimbers that can win keeps winning: whatever the reply to its move, it finds
/// itself on a board that it can win, and that fits as before.
pub proof fn lemma_solver_keeps_winning(board: Board, movement: Move, reply: Move)
    requires
        board.wf(),
        fits(board.compiled().cells),
        board_nimber(board) != 0,
        is_solver_move(board, true, movement),
        reply.is_legal(movement.after(board)),
    ensures
        reply.after(movement.after(board)).wf(),
        fits(reply.after(movement.after(board)).compiled().cells),
        board_nimber(reply.after(movement.after(board))) != 0,
{
    let middle = movement.after(board);
    let end = reply.after(middle);
    lemma_move_takes(board, movement);
    lemma_move_takes(middle, reply);
    lemma_nimber_decides(middle);
    assert(middle.move_fault(reply.axis, reply.anchor, reply.cells@) is None);
    lemma_move_is_option(board, movement.axis, movement.anchor, movement.cells@);
    lemma_move_is_option(middle, reply.axis, reply.anchor, reply.cells@);
    lemma_compiled(board);
    lemma_fits_part(board.compiled().cells, end.compiled().cells);
}

} // verus!
