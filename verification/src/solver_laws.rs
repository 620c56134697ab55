//! Which of its moves the solver prefers, how chance chooses, and how the numbers of shards, bounds and
//! counts hang together.
use crate::board::{places, Axis, Board, Cell, Maze, MoveError};
use crate::cache::{estimate_cache_entry_bytes, CacheEntry};
use crate::cache_file::CacheFileError;
use crate::candidates::leads_to;
use crate::compile::compile_maze;
use crate::components::node_count;
use crate::corridors::{alive_along, list_alive};
use crate::evaluator::{recommended_cache_shards, DfsSolver, EvaluatorConfig, SymmetryFinder};
use crate::evaluator::ToggleableSymmetryFinder;
use crate::game::{is_heads, kept_cells, random_move, state_after, Move, Random};
use crate::grid::{countable, Grid};
use crate::hybrid_evaluator::{bounded_exact, BoundedNimber, RuledOut};
use crate::limits::fits;
use crate::matrix::BitMatrix;
use crate::nim::grundy;
use crate::nimbers::NimberSet;
use crate::order::lex_lt_at;
use crate::solver::{canonical_parts, CanonicalGame};
use crate::solver_moves::{board_nimber, effort_of, immediately_zero, is_first_win};
use crate::solver_moves::{lemma_cancelled_unique, none_at_once, parts_wf, solver_move, wins_at_once};
use crate::symmetry::has_symmetry;
use vstd::prelude::*;

verus! {

/// Whether each part of a game has a node and a symmetry that pairs its rows and its columns.
pub open spec fn is_mirrored(game: CanonicalGame) -> bool {
    forall|i: int|
        0 <= i < game@.len() ==> (#[trigger] game@[i]).cells.len() > 0 && has_symmetry(game@[i])
}

/// A game is lost at sight if and only if each of its parts has a node and a symmetry.
pub proof fn lemma_lost_at_sight_is_mirrored(game: CanonicalGame, zero: bool)
    requires
        game.wf(),
        call_ensures(immediately_zero, (&game,), zero),
    ensures
        zero <==> is_mirrored(game),
{
}

/// Where some move leaves a game whose parts are all symmetric, the solver makes such a move, and no
/// such move takes more nodes.
pub proof fn lemma_solver_prefers_symmetry(
    maze: Maze,
    solver: DfsSolver,
    movement: Move,
    other: &mut Maze,
    axis: Axis,
    anchor: Cell,
    cells: &[Cell],
    game: CanonicalGame,
    chosen: &mut Maze,
    chosen_cells: &[Cell],
    chosen_outcome: Result<(), MoveError>,
    chosen_game: CanonicalGame,
)
    requires
        maze.wf(),
        countable(maze@.compiled().rows, maze@.compiled().cols),
        solver.wf(),
        call_ensures(solver_move, (&maze, &solver), Some(movement)),
        *old(other) == maze,
        call_ensures(Maze::apply_move, (other, axis, anchor, cells), Ok::<(), MoveError>(())),
        call_ensures(CanonicalGame::from_maze, (final(other),), game),
        game.wf(),
        is_mirrored(game),
        *old(chosen) == maze,
        chosen_cells@ == movement.cells@,
        call_ensures(
            Maze::apply_move,
            (chosen, movement.axis, movement.anchor, chosen_cells),
            chosen_outcome,
        ),
        call_ensures(CanonicalGame::from_maze, (final(chosen),), chosen_game),
        chosen_game.wf(),
    ensures
        chosen_outcome is Ok,
        movement.cells@.len() >= cells@.len(),
        is_mirrored(chosen_game),
{
    let board = maze@;
    reveal(leads_to);
    crate::compile::lemma_compiled_size(board, places(cells@));
    crate::compile::lemma_compiled_size(board, places(movement.cells@));
    assert(final(other)@ == board.without(places(cells@)));
    assert(final(chosen)@ == board.without(places(movement.cells@)));
    assert(leads_to(board, places(cells@), game@));
    assert(parts_wf(game@));
    assert(wins_at_once(board, cells@));
    assert(board.move_fault(axis, anchor, cells@) is None);
    assert(wins_at_once(board, movement.cells@));
    let parts = choose|parts: Seq<Grid>|
        parts_wf(parts) && crate::solver_moves::zero_at_once(parts) && #[trigger] leads_to(
            board,
            places(movement.cells@),
            parts,
        );
    assert(leads_to(board, places(movement.cells@), chosen_game@));
    assert(parts_wf(chosen_game@));
    lemma_cancelled_unique(
        canonical_parts(board.without(places(movement.cells@)).compiled()),
        parts,
        chosen_game@,
    );
}

/// Where no move leaves a game that is lost at sight, and some moves win, the solver's move leaves the
/// fewest nodes of all that win; of those, the fewest parts; and of those, it takes the most nodes.
pub proof fn lemma_solver_leaves_little(
    maze: Maze,
    solver: DfsSolver,
    movement: Move,
    chosen: &mut Maze,
    chosen_cells: &[Cell],
    chosen_game: CanonicalGame,
    other: &mut Maze,
    axis: Axis,
    anchor: Cell,
    cells: &[Cell],
    game: CanonicalGame,
)
    requires
        maze.wf(),
        countable(maze@.compiled().rows, maze@.compiled().cols),
        solver.wf(),
        solver.sound(),
        fits(maze@.compiled().cells),
        board_nimber(maze@) != 0,
        none_at_once(maze@),
        call_ensures(solver_move, (&maze, &solver), Some(movement)),
        *old(chosen) == maze,
        chosen_cells@ == movement.cells@,
        call_ensures(
            Maze::apply_move,
            (chosen, movement.axis, movement.anchor, chosen_cells),
            Ok::<(), MoveError>(()),
        ),
        call_ensures(CanonicalGame::from_maze, (final(chosen),), chosen_game),
        chosen_game.wf(),
        *old(other) == maze,
        call_ensures(Maze::apply_move, (other, axis, anchor, cells), Ok::<(), MoveError>(())),
        call_ensures(CanonicalGame::from_maze, (final(other),), game),
        game.wf(),
        grundy(final(other)@.compiled().cells) == 0,
    ensures
        grundy(final(chosen)@.compiled().cells) == 0,
        node_count(chosen_game@) <= node_count(game@),
        node_count(chosen_game@) == node_count(game@) ==> chosen_game@.len() <= game@.len(),
        node_count(chosen_game@) == node_count(game@) && chosen_game@.len() == game@.len()
            ==> movement.cells@.len() >= cells@.len(),
{
    let board = maze@;
    reveal(leads_to);
    crate::compile::lemma_compiled_size(board, places(cells@));
    crate::compile::lemma_compiled_size(board, places(movement.cells@));
    assert(final(other)@ == board.without(places(cells@)));
    assert(final(chosen)@ == board.without(places(movement.cells@)));
    assert(board.move_fault(axis, anchor, cells@) is None);
    assert(leads_to(board, places(cells@), game@));
    assert(parts_wf(game@));
    assert(leads_to(board, places(movement.cells@), chosen_game@));
    assert(parts_wf(chosen_game@));
    assert(is_first_win(board, movement));
    reveal(is_first_win);
    let parts = choose|parts: Seq<Grid>|
        {
            &&& parts_wf(parts)
            &&& #[trigger] leads_to(board, places(movement.cells@), parts)
            &&& forall|axis: Axis, anchor: Cell, cells: Seq<Cell>, others: Seq<Grid>|
                #![trigger board.move_fault(axis, anchor, cells), leads_to(board, places(cells), others)]
                {
                    &&& board.move_fault(axis, anchor, cells) is None
                    &&& parts_wf(others)
                    &&& leads_to(board, places(cells), others)
                    &&& board_nimber(board.without(places(cells))) == 0
                } ==> !crate::order::lex_lt(
                    effort_of(others, cells.len() as int),
                    effort_of(parts, movement.cells@.len() as int),
                )
        };
    lemma_cancelled_unique(
        canonical_parts(board.without(places(movement.cells@)).compiled()),
        parts,
        chosen_game@,
    );
    let a = effort_of(game@, cells@.len() as int);
    let b = effort_of(chosen_game@, movement.cells@.len() as int);
    assert(!crate::order::lex_lt(a, b));
    assert(!lex_lt_at(a, b, 0));
    assert(!lex_lt_at(a, b, 1));
    assert(!lex_lt_at(a, b, 2));
}

/// Chance is repeatable: generators in the same state make the same move on boards that are the same,
/// and are in the same state after it.
pub proof fn lemma_same_state_same_move(
    maze: Maze,
    other_maze: Maze,
    random: &mut Random,
    other: &mut Random,
    movement: Option<Move>,
    other_movement: Option<Move>,
)
    requires
        maze.wf(),
        other_maze.wf(),
        maze@ == other_maze@,
        old(random).state() == old(other).state(),
        call_ensures(random_move, (&maze, random), movement),
        call_ensures(random_move, (&other_maze, other), other_movement),
    ensures
        final(random).state() == final(other).state(),
        movement is None <==> other_movement is None,
        movement is Some ==> {
            &&& movement->0.axis == other_movement->0.axis
            &&& movement->0.anchor == other_movement->0.anchor
            &&& movement->0.cells@ == other_movement->0.cells@
        },
{
}

proof fn lemma_kept_by_coin(cells: Seq<Cell>, state: u64)
    requires
        cells.no_duplicates(),
    ensures
        forall|k: int|
            0 <= k < cells.len() ==> (#[trigger] kept_cells(cells, state).contains(cells[k])
                <==> is_heads(state_after(state, (k + 1) as nat))),
        forall|cell: Cell| #[trigger]
            kept_cells(cells, state).contains(cell) ==> cells.contains(cell),
    decreases cells.len(),
{
    if cells.len() > 0 {
        let most = cells.drop_last();
        let last = cells.last();
        let less = kept_cells(most, state);
        let all = kept_cells(cells, state);
        lemma_kept_by_coin(most, state);
        assert forall|cell: Cell| #[trigger] all.contains(cell) <==> less.contains(cell) || cell
            == last && is_heads(state_after(state, cells.len())) by {
            if all.contains(cell) {
                let i = choose|i: int| 0 <= i < all.len() && all[i] == cell;
                if i < less.len() {
                    assert(less[i] == cell);
                }
            }
            if less.contains(cell) {
                let i = choose|i: int| 0 <= i < less.len() && less[i] == cell;
                assert(all[i] == cell);
            }
            if is_heads(state_after(state, cells.len())) {
                assert(all[less.len() as int] == last);
            }
        }
        assert forall|cell: Cell| #[trigger] all.contains(cell) implies cells.contains(cell) by {
            if less.contains(cell) {
                let j = choose|j: int| 0 <= j < most.len() && most[j] == cell;
                assert(cells[j] == cell);
            } else {
                assert(cells[cells.len() - 1] == cell);
            }
        }
        assert forall|k: int| 0 <= k < cells.len() implies (#[trigger] all.contains(cells[k])
            <==> is_heads(state_after(state, (k + 1) as nat))) by {
            if k < most.len() {
                assert(most[k] == cells[k]);
                assert(cells[k] != cells[cells.len() - 1]);
                assert(less.contains(most[k]) <==> is_heads(state_after(state, (k + 1) as nat)));
            } else {
                assert(!less.contains(last)) by {
                    if less.contains(last) {
                        assert(most.contains(last));
                        let j = choose|j: int| 0 <= j < most.len() && most[j] == last;
                        assert(cells[j] == cells[cells.len() - 1]);
                    }
                }
            }
        }
    }
}

/// Chance takes a node first, then a direction by one throw of a coin, then throws the coin for each
/// node of the corridor: the node is taken if and only if the coin shows heads. Only if it shows no
/// heads at all, one node of the corridor is taken all the same.
pub proof fn lemma_coin_decides_each_node(
    maze: Maze,
    random: &mut Random,
    movement: Move,
    alive: Vec<Cell>,
    corridor: Vec<Cell>,
)
    requires
        maze.wf(),
        call_ensures(random_move, (&maze, random), Some(movement)),
        call_ensures(list_alive, (&maze,), alive),
        call_ensures(alive_along, (&maze, movement.anchor, movement.axis), corridor),
    ensures
        alive@.contains(movement.anchor),
        maze@.nodes.cells.contains(movement.anchor.at()),
        movement.axis == Axis::Horizontal <==> is_heads(state_after(old(random).state(), 2)),
        ({
            let second = state_after(old(random).state(), 2);
            &&& (exists|k: int|
                0 <= k < corridor@.len() && is_heads(#[trigger] state_after(second, (k + 1) as nat)))
                ==> forall|k: int|
                0 <= k < corridor@.len() ==> (movement.cells@.contains(#[trigger] corridor@[k])
                    <==> is_heads(state_after(second, (k + 1) as nat)))
            &&& (forall|k: int|
                0 <= k < corridor@.len() ==> !is_heads(
                    #[trigger] state_after(second, (k + 1) as nat),
                )) ==> movement.cells@.len() == 1
        }),
        forall|i: int|
            0 <= i < movement.cells@.len() ==> corridor@.contains(#[trigger] movement.cells@[i]),
        movement.cells@.len() > 0,
{
    let board = maze@;
    let second = state_after(old(random).state(), 2);
    let candidates = corridor@;
    let at = movement.anchor.at();
    assert(alive@.len() == alive.len());
    let place = (state_after(old(random).state(), 1) as usize % alive.len()) as int;
    assert(alive@[place] == movement.anchor);
    assert(board.nodes.cells.contains(alive@[place].at()));
    crate::corridors::lemma_alive_on(board, movement.axis, at);
    assert forall|i: int| 0 <= i < movement.cells@.len() implies candidates.contains(
        #[trigger] movement.cells@[i],
    ) by {
        crate::compile::lemma_no_fault(
            board,
            movement.axis,
            movement.anchor,
            movement.cells@,
            0,
            i,
        );
    }
    lemma_kept_by_coin(candidates, second);
    let kept = kept_cells(candidates, second);
    if exists|k: int|
        0 <= k < candidates.len() && is_heads(#[trigger] state_after(second, (k + 1) as nat)) {
        let k = choose|k: int|
            0 <= k < candidates.len() && is_heads(#[trigger] state_after(second, (k + 1) as nat));
        assert(kept.contains(candidates[k]));
        assert(kept.len() > 0);
        assert forall|k: int| 0 <= k < candidates.len() implies (movement.cells@.contains(
            #[trigger] candidates[k],
        ) <==> is_heads(state_after(second, (k + 1) as nat))) by {
            assert(kept.contains(candidates[k]) <==> is_heads(
                state_after(second, (k + 1) as nat),
            ));
        }
    }
    if forall|k: int|
        0 <= k < candidates.len() ==> !is_heads(#[trigger] state_after(second, (k + 1) as nat)) {
        if kept.len() > 0 {
            assert(kept.contains(kept[0]));
            assert(candidates.contains(kept[0]));
            let k = choose|k: int| 0 <= k < candidates.len() && candidates[k] == kept[0];
            assert(kept.contains(candidates[k]));
            assert(is_heads(state_after(second, (k + 1) as nat)));
        }
    }
}

/// A bounded nimber is the nimber itself, unless that is above the bound.
pub proof fn lemma_bound_is_a_bound(nimber: usize, bound: Option<usize>, found: BoundedNimber)
    requires
        call_ensures(bounded_exact, (nimber, bound), found),
    ensures
        found is ExceedsBound <==> bound is Some && bound->0 < nimber,
        found !is ExceedsBound ==> found == BoundedNimber::Exact(nimber),
{
}

/// A nimber that was ruled out for a component is ruled out for it, and so is what was before; for no
/// other component anything changes.
pub proof fn lemma_marked_is_ruled_out(
    table: &mut RuledOut,
    component: BitMatrix,
    nimber: usize,
    other: BitMatrix,
    before: NimberSet,
    after: NimberSet,
    other_nimber: usize,
    was: bool,
    is: bool,
)
    requires
        old(table).wf(),
        component.wf(),
        other.wf(),
        old(table)@.dom().len() < usize::MAX,
        call_ensures(RuledOut::get, (old(table), &other), before),
        call_ensures(RuledOut::mark, (table, &component, nimber), ()),
        final(table).wf(),
        call_ensures(RuledOut::get, (final(table), &other), after),
        call_ensures(NimberSet::contains, (&before, other_nimber), was),
        call_ensures(NimberSet::contains, (&after, other_nimber), is),
    ensures
        is <==> was || other@ == component@ && other_nimber == nimber,
{
}

/// There are at least eight shards for each thread, thirty-two from sixty-four threads on, and at least
/// sixty-four; but less than twice as many as that asks for. More threads never get fewer shards.
pub proof fn lemma_shards_suit_the_threads(
    threads: usize,
    shards: usize,
    more_threads: usize,
    more_shards: usize,
)
    requires
        32 * threads <= usize::MAX / 2,
        32 * more_threads <= usize::MAX / 2,
        threads <= more_threads,
        call_ensures(recommended_cache_shards, (threads,), shards),
        call_ensures(recommended_cache_shards, (more_threads,), more_shards),
    ensures
        shards >= 64,
        shards >= 8 * threads,
        threads >= 64 ==> shards >= 32 * threads,
        shards == 64 || shards < 16 * threads || threads >= 64 && shards < 64 * threads,
        shards <= more_shards,
{
    let j = choose|k: nat| shards == #[trigger] vstd::arithmetic::power2::pow2(k);
    let k = choose|k: nat| more_shards == #[trigger] vstd::arithmetic::power2::pow2(k);
    if j > k {
        if j > k + 1 {
            vstd::arithmetic::power2::lemma_pow2_strictly_increases(k + 1, j);
        }
        vstd::arithmetic::power2::lemma_pow2_unfold(k + 1);
    } else if j < k {
        vstd::arithmetic::power2::lemma_pow2_strictly_increases(j, k);
    }
}

/// A finder that is switched off proves nothing; one that is switched on proves what the finder of
/// symmetries proves: that there is a node, and a symmetry.
pub proof fn lemma_switch_of_the_finder(
    enabled: bool,
    finder: ToggleableSymmetryFinder,
    is: bool,
    component: BitMatrix,
    proven: bool,
)
    requires
        component.wf(),
        call_ensures(ToggleableSymmetryFinder::new, (enabled,), finder),
        call_ensures(ToggleableSymmetryFinder::enabled, (finder,), is),
        call_ensures(
            <ToggleableSymmetryFinder as SymmetryFinder>::proves_zero,
            (&finder, &component),
            proven,
        ),
    ensures
        is == enabled,
        proven <==> enabled && component@.cells.len() > 0 && has_symmetry(component@),
{
}

/// Different faults of a file have different messages.
pub proof fn lemma_messages_differ(
    fault: CacheFileError,
    other: CacheFileError,
    message: &'static str,
    other_message: &'static str,
)
    requires
        fault != other,
        call_ensures(CacheFileError::message, (&fault,), message),
        call_ensures(CacheFileError::message, (&other,), other_message),
    ensures
        message@ != other_message@,
{
    reveal_strlit("failed to fill whole buffer");
    reveal_strlit("not a nim_light cache file");
    reveal_strlit("cache entry count does not fit in usize");
    reveal_strlit("nimber does not fit in usize");
    reveal_strlit("matrix rows does not fit in usize");
    reveal_strlit("matrix columns does not fit in usize");
    reveal_strlit("matrix word count does not fit in usize");
    reveal_strlit("matrix dimensions overflow");
    reveal_strlit("matrix word count does not match dimensions");
    assert("failed to fill whole buffer"@.len() == 27);
    assert("not a nim_light cache file"@.len() == 26);
    assert("cache entry count does not fit in usize"@.len() == 39);
    assert("nimber does not fit in usize"@.len() == 28);
    assert("matrix rows does not fit in usize"@.len() == 33);
    assert("matrix columns does not fit in usize"@.len() == 36);
    assert("matrix word count does not fit in usize"@.len() == 39);
    assert("matrix dimensions overflow"@.len() == 26);
    assert("matrix word count does not match dimensions"@.len() == 43);
    assert("cache entry count does not fit in usize"@[0]
        != "matrix word count does not fit in usize"@[0]);
    assert("not a nim_light cache file"@[0] != "matrix dimensions overflow"@[0]);
}

/// By default an evaluator has six threads and as many shards as suit them; its cache has no limit, and
/// a full one would keep ninety-five percent.
pub proof fn lemma_default_suits_six_threads(config: EvaluatorConfig, shards: usize)
    requires
        call_ensures(<EvaluatorConfig as Default>::default, (), config),
        call_ensures(recommended_cache_shards, (6usize,), shards),
    ensures
        config.threads == Some(6usize),
        config.max_cache_entries is None,
        config.cache_low_watermark == 95,
        config.cache_shards == 64,
        shards == config.cache_shards,
{
    let k = choose|k: nat| shards == #[trigger] vstd::arithmetic::power2::pow2(k);
    vstd::arithmetic::power2::lemma2_to64();
    if k > 6 {
        if k > 7 {
            vstd::arithmetic::power2::lemma_pow2_strictly_increases(7, k);
        }
    } else if k < 6 {
        vstd::arithmetic::power2::lemma_pow2_strictly_increases(k, 6);
    }
}

/// An entry of the cache is taken to need what its component needs, and room for a component and for
/// what is known of it besides.
pub proof fn lemma_entry_needs_more_than_its_component(
    component: BitMatrix,
    bytes: usize,
    entry_bytes: usize,
)
    requires
        component.wf(),
        call_ensures(BitMatrix::estimated_bytes, (&component,), bytes),
        call_ensures(estimate_cache_entry_bytes, (&component,), entry_bytes),
        bytes < usize::MAX,
    ensures
        entry_bytes == ({
            let all = bytes + vstd::layout::size_of::<BitMatrix>() + vstd::layout::size_of::<
                CacheEntry,
            >();
            if all <= usize::MAX {
                all
            } else {
                usize::MAX as int
            }
        }),
{
}

/// A component is taken to need eight bytes for each word of each row, besides what every component
/// needs: what one without rows needs.
pub proof fn lemma_component_needs_its_words(
    component: BitMatrix,
    empty: BitMatrix,
    bytes: usize,
    empty_bytes: usize,
)
    requires
        component.wf(),
        empty.wf(),
        empty@.rows == 0,
        call_ensures(BitMatrix::estimated_bytes, (&component,), bytes),
        call_ensures(BitMatrix::estimated_bytes, (&empty,), empty_bytes),
        bytes < usize::MAX,
    ensures
        bytes == empty_bytes + 8 * (component@.rows * ((component@.cols + 63) / 64)),
{
    broadcast use vstd::layout::layout_of_primitives;

    assert(0 * crate::bits::words_for(empty@.cols) == 0);
}

/// The parts of a game can be taken one by one: each by itself is a game of that part alone. A game is
/// empty if and only if it has no part.
pub proof fn lemma_parts_one_by_one(
    game: CanonicalGame,
    index: usize,
    alone: CanonicalGame,
    parts: &[BitMatrix],
    alone_parts: &[BitMatrix],
    empty: bool,
    alone_empty: bool,
)
    requires
        game.wf(),
        index < game@.len(),
        call_ensures(CanonicalGame::component, (&game, index), alone),
        call_ensures(CanonicalGame::components, (&game,), parts),
        call_ensures(CanonicalGame::components, (&alone,), alone_parts),
        call_ensures(CanonicalGame::is_empty, (&game,), empty),
        call_ensures(CanonicalGame::is_empty, (&alone,), alone_empty),
    ensures
        alone_parts@.len() == 1,
        alone_parts@[0]@ == parts@[index as int]@,
        empty <==> parts@.len() == 0,
        !alone_empty,
{
}

/// Games are the same if and only if they have the same parts in the same order.
pub proof fn lemma_same_games_have_the_same_parts(
    game: CanonicalGame,
    other: CanonicalGame,
    parts: &[BitMatrix],
    other_parts: &[BitMatrix],
    same: bool,
)
    requires
        game.wf(),
        other.wf(),
        call_ensures(CanonicalGame::components, (&game,), parts),
        call_ensures(CanonicalGame::components, (&other,), other_parts),
        call_ensures(CanonicalGame::same, (&game, &other), same),
    ensures
        same <==> parts@.len() == other_parts@.len() && forall|i: int|
            0 <= i < parts@.len() ==> (#[trigger] parts@[i])@ == other_parts@[i]@,
{
    if parts@.len() == other_parts@.len() && forall|i: int|
        0 <= i < parts@.len() ==> (#[trigger] parts@[i])@ == other_parts@[i]@ {
        assert forall|i: int| 0 <= i < game@.len() implies game@[i] == other@[i] by {
            assert(parts@[i]@ == other_parts@[i]@);
        }
        assert(game@ =~= other@);
    }
    if same {
        assert forall|i: int| 0 <= i < parts@.len() implies (#[trigger] parts@[i])@
            == other_parts@[i]@ by {
            assert(parts@[i]@ == game@[i]);
            assert(other_parts@[i]@ == other@[i]);
        }
    }
}

/// A maze and the matrix it is compiled to are the same game.
pub proof fn lemma_maze_is_its_matrix(
    maze: Maze,
    matrix: BitMatrix,
    from_maze: CanonicalGame,
    from_matrix: CanonicalGame,
    same: bool,
    nodes: usize,
    bits: usize,
)
    requires
        maze.wf(),
        countable(maze@.compiled().rows, maze@.compiled().cols),
        call_ensures(compile_maze, (&maze,), matrix),
        call_ensures(CanonicalGame::from_maze, (&maze,), from_maze),
        call_ensures(CanonicalGame::from_matrix, (&matrix,), from_matrix),
        call_ensures(CanonicalGame::same, (&from_maze, &from_matrix), same),
        call_ensures(Maze::alive_count, (&maze,), nodes),
        call_ensures(BitMatrix::count_ones, (&matrix,), bits),
    ensures
        same,
        nodes == bits,
{
    lemma_cancelled_unique(canonical_parts(maze@.compiled()), from_maze@, from_matrix@);
    let board = maze@;
    let f = |p: (int, int)| board.labels(p);
    assert forall|a: (int, int), b: (int, int)|
        board.nodes.cells.contains(a) && board.nodes.cells.contains(b) && #[trigger] f(a)
            == #[trigger] f(b) implies a == b by {
        crate::compile::lemma_labels(board, a, b);
    }
    vstd::set_lib::lemma_map_size(board.nodes.cells, board.compiled().cells, f);
}

/// Whether every node has its own bit of the matrix, where nodes share a row if and only if they are on
/// one horizontal corridor, and a column if and only if they are on one vertical corridor.
pub open spec fn lays_out(
    board: Board,
    matrix: Grid,
    place: spec_fn((int, int)) -> (int, int),
) -> bool {
    &&& forall|p: (int, int)| #[trigger]
        board.nodes.cells.contains(p) ==> matrix.cells.contains(place(p))
    &&& forall|p: (int, int), q: (int, int)|
        #![trigger place(p), place(q)]
        board.nodes.cells.contains(p) && board.nodes.cells.contains(q) ==> {
            &&& place(p) == place(q) ==> p == q
            &&& place(p).0 == place(q).0 <==> board.same_corridor(Axis::Horizontal, p, q)
            &&& place(p).1 == place(q).1 <==> board.same_corridor(Axis::Vertical, p, q)
        }
}

/// A maze is compiled to a matrix whose rows are its horizontal corridors and whose columns are its
/// vertical ones.
pub proof fn lemma_matrix_has_the_corridors(maze: Maze, matrix: BitMatrix)
    requires
        maze.wf(),
        countable(maze@.compiled().rows, maze@.compiled().cols),
        call_ensures(compile_maze, (&maze,), matrix),
    ensures
        exists|place: spec_fn((int, int)) -> (int, int)| #[trigger] lays_out(maze@, matrix@, place),
{
    let board = maze@;
    let place = |p: (int, int)| board.labels(p);
    assert forall|p: (int, int), q: (int, int)|
        #![trigger place(p), place(q)]
        board.nodes.cells.contains(p) && board.nodes.cells.contains(q) implies {
        &&& place(p) == place(q) ==> p == q
        &&& place(p).0 == place(q).0 <==> board.same_corridor(Axis::Horizontal, p, q)
        &&& place(p).1 == place(q).1 <==> board.same_corridor(Axis::Vertical, p, q)
    } by {
        crate::compile::lemma_labels(board, p, q);
    }
    assert(lays_out(board, matrix@, place));
}

} // verus!
