//! How many successors there are, and that the orders in which they are listed hold the same games.
use crate::components::row_used;
use crate::grid::{lemma_from_fn_wf, Grid};
use crate::matrix::BitMatrix;
use crate::moves::{is_fresh, move_count, move_rows, moves_up_to};
use crate::solver::{canonical_parts, CanonicalGame, Canonicalizer, PseudoCanonicalizer};
use crate::solver_moves::lemma_cancelled_unique;
use crate::sorting::{lemma_paired_values, listed};
use crate::successor::{by_nodes_taken, estimated_moves, group_total, is_canonicalized};
use crate::successor::{lemma_row_has_moves, positions, positions_up_to, raws};
use crate::successor::{CanonicalMoveGenerator, OrderedSuccessor, SuccessorGenerator};
use vstd::prelude::*;

verus! {

broadcast use lemma_from_fn_wf;

/// The number of moves from the first `k` of the given rows.
spec fn moves_from(grid: Grid, rows: Seq<usize>, k: nat) -> nat
    decreases k,
{
    if k == 0 {
        0
    } else {
        moves_from(grid, rows, (k - 1) as nat) + move_count(grid, rows[k - 1] as int)
    }
}

proof fn lemma_moves_from_same(grid: Grid, a: Seq<usize>, b: Seq<usize>, k: nat)
    requires
        k <= a.len(),
        k <= b.len(),
        forall|i: int| 0 <= i < k ==> #[trigger] a[i] == b[i],
    ensures
        moves_from(grid, a, k) == moves_from(grid, b, k),
    decreases k,
{
    if k > 0 {
        lemma_moves_from_same(grid, a, b, (k - 1) as nat);
        assert(a[k - 1] == b[k - 1]);
    }
}

/// The rows with moves that differ from the row before hold all moves that are counted.
proof fn lemma_moves_listed(grid: Grid, end: nat)
    requires
        grid.wf(),
        grid.cols <= usize::MAX,
        end <= usize::MAX,
    ensures
        ({
            let rows = listed(end, |r: int| row_used(grid, r) && is_fresh(grid, r));
            moves_from(grid, rows, rows.len()) == moves_up_to(grid, end)
        }),
    decreases end,
{
    if end > 0 {
        let keep = |r: int| row_used(grid, r) && is_fresh(grid, r);
        let rows = listed(end, keep);
        let less = listed((end - 1) as nat, keep);
        lemma_moves_listed(grid, (end - 1) as nat);
        lemma_row_has_moves(grid, end - 1);
        if keep(end - 1) {
            assert(rows == less.push((end - 1) as usize));
            lemma_moves_from_same(grid, rows, less, less.len());
            assert(rows[less.len() as int] == end - 1);
        }
    }
}

/// The positions after the first groups are as many as their moves.
proof fn lemma_positions_counted(grid: Grid, k: nat)
    requires
        k <= group_total(grid),
    ensures
        k <= move_rows(grid).len() ==> positions_up_to(grid, k).len() == moves_from(
            grid,
            move_rows(grid),
            k,
        ),
        k >= move_rows(grid).len() ==> positions_up_to(grid, k).len() == moves_from(
            grid,
            move_rows(grid),
            move_rows(grid).len(),
        ) + moves_from(
            grid.transposed(),
            move_rows(grid.transposed()),
            (k - move_rows(grid).len()) as nat,
        ),
    decreases k,
{
    if k > 0 {
        lemma_positions_counted(grid, (k - 1) as nat);
    }
}

/// There are as many successors as the number of generated moves, along rows and along columns: as
/// many as estimated, where a machine word holds their number.
pub proof fn lemma_positions_total(grid: Grid)
    requires
        grid.wf(),
        grid.rows <= usize::MAX,
        grid.cols <= usize::MAX,
    ensures
        positions(grid).len() == moves_up_to(grid, grid.rows) + moves_up_to(
            grid.transposed(),
            grid.cols,
        ),
        positions(grid).len() <= usize::MAX ==> positions(grid).len() == estimated_moves(grid),
{
    lemma_positions_counted(grid, group_total(grid));
    lemma_moves_listed(grid, grid.rows);
    lemma_moves_listed(grid.transposed(), grid.cols);
}

/// Matrices with the same cells give the same canonical game.
pub proof fn lemma_canonicalized_same(grid: Grid, a: CanonicalGame, b: CanonicalGame)
    requires
        is_canonicalized(&PseudoCanonicalizer, grid, a),
        is_canonicalized(&PseudoCanonicalizer, grid, b),
    ensures
        a@ == b@,
{
    let first = choose|raw: BitMatrix| #[trigger]
        call_ensures(PseudoCanonicalizer::canonicalize, (&PseudoCanonicalizer, raw), a) && raw@
            == grid;
    let second = choose|raw: BitMatrix| #[trigger]
        call_ensures(PseudoCanonicalizer::canonicalize, (&PseudoCanonicalizer, raw), b) && raw@
            == grid;
    assert(a.wf() && b.wf());
    lemma_cancelled_unique(canonical_parts(grid), a@, b@);
}

/// The ordered successors are the successors, in another order.
pub proof fn lemma_ordered_are_successors(
    generator: CanonicalMoveGenerator<PseudoCanonicalizer>,
    component: BitMatrix,
    games: Vec<CanonicalGame>,
    ordered: Vec<OrderedSuccessor>,
)
    requires
        call_ensures(
            CanonicalMoveGenerator::<PseudoCanonicalizer>::successors,
            (&generator, &component),
            games,
        ),
        call_ensures(
            CanonicalMoveGenerator::<PseudoCanonicalizer>::ordered_successors,
            (&generator, &component),
            ordered,
        ),
    ensures
        games@.map_values(|game: CanonicalGame| game@).to_multiset() == ordered@.map_values(
            |successor: OrderedSuccessor| successor.game@,
        ).to_multiset(),
{
    let grid = component@;
    let order = by_nodes_taken(grid);
    let n = positions(grid).len();
    let places = Seq::new(n, |i: int| i as usize);
    let at = |i: usize| games@[i as int]@;
    assert(games@.len() == n && ordered@.len() == n);
    assert forall|k: int| 0 <= k < n implies ordered@[k].game@ == at(#[trigger] order[k]) by {
        let i = order[k] as int;
        assert(order[k] < n);
        assert(is_canonicalized(&generator.inner(), raws(grid)[i], games@[i]));
        assert(is_canonicalized(&generator.inner(), raws(grid)[i], ordered@[k].game));
        lemma_canonicalized_same(raws(grid)[i], games@[i], ordered@[k].game);
    }
    assert forall|i: int| 0 <= i < n implies #[trigger] places[i] == i by {
        assert(games@.len() == games.len());
    }
    assert forall|k: int| 0 <= k < n implies places.contains(#[trigger] order[k]) by {
        assert(places[order[k] as int] == order[k]);
    }
    lemma_paired_values(order, places, |i: usize| i, at, at);
    assert(order.map_values(at) =~= ordered@.map_values(
        |successor: OrderedSuccessor| successor.game@,
    ));
    assert(places.map_values(at) =~= games@.map_values(|game: CanonicalGame| game@));
}

} // verus!
