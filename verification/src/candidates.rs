//! The moves that the solver chooses among: for each game that a move leads to, a largest such move.
use crate::board::{places, Axis, Board, Cell, Maze};
use crate::compile::{compile_maze, lemma_compiled_size, lemma_no_fault};
use crate::components::node_count;
use crate::corridors::{alive_corridors, alive_on, are_corridors, has_start, is_corridor};
use crate::corridors::{lemma_alive_on, lemma_same_corridor, lemma_start_exists, Corridor};
use crate::game::{lemma_corridor_move, Move};
use crate::grid::{countable, Grid};
use crate::matrix::BitMatrix;
use crate::reading::{may_cancel, may_go_on, read_flag, reads};
use crate::solver::{canonical_parts, is_cancelled, CanonicalGame};
use core::sync::atomic::AtomicBool;
use vstd::prelude::*;

verus! {

/// A move and the game that it leads to.
pub struct SolverCandidate {
    pub movement: Move,
    pub game: CanonicalGame,
    pub removed: usize,
    pub nodes: usize,
}

impl Clone for SolverCandidate {
    fn clone(&self) -> (copy: Self)
        ensures
            copy.movement.axis == self.movement.axis,
            copy.movement.anchor == self.movement.anchor,
            copy.movement.cells@ == self.movement.cells@,
            copy.game@ == self.game@,
            self.game.wf() ==> copy.game.wf(),
            copy.removed == self.removed,
            copy.nodes == self.nodes,
    {
        SolverCandidate {
            movement: self.movement.clone(),
            game: self.game.clone(),
            removed: self.removed,
            nodes: self.nodes,
        }
    }
}

/// Whether `parts` is the game that is left when the nodes at `taken` are taken.
#[verifier::opaque]
pub open spec fn leads_to(board: Board, taken: Set<(int, int)>, parts: Seq<Grid>) -> bool {
    is_cancelled(canonical_parts(board.without(taken).compiled()), parts)
}

/// Whether the candidate is a move on the board, with the game that it leads to.
pub open spec fn is_candidate(board: Board, candidate: SolverCandidate) -> bool {
    &&& candidate.movement.is_legal(board)
    &&& candidate.game.wf()
    &&& leads_to(board, places(candidate.movement.cells@), candidate.game@)
    &&& candidate.removed == candidate.movement.cells@.len()
    &&& candidate.nodes == node_count(candidate.game@)
}

/// Whether all candidates are moves on the board.
pub open spec fn are_candidates(board: Board, candidates: Seq<SolverCandidate>) -> bool {
    forall|i: int| 0 <= i < candidates.len() ==> is_candidate(board, #[trigger] candidates[i])
}

/// Whether no two candidates lead to the same game.
pub open spec fn all_different(candidates: Seq<SolverCandidate>) -> bool {
    forall|i: int, j: int|
        0 <= i < j < candidates.len() ==> (#[trigger] candidates[i]).game@ != (
        #[trigger] candidates[j]).game@
}

/// Whether a candidate leads to the game that is left when the nodes at `taken` are taken, and takes
/// at least `count` nodes.
pub open spec fn has_candidate(
    candidates: Seq<SolverCandidate>,
    board: Board,
    taken: Set<(int, int)>,
    count: nat,
) -> bool {
    exists|i: int|
        0 <= i < candidates.len() && leads_to(board, taken, (#[trigger] candidates[i]).game@)
            && candidates[i].removed >= count
}

/// Whether every game that has a candidate keeps one.
pub open spec fn keeps_candidates(
    board: Board,
    before: Seq<SolverCandidate>,
    after: Seq<SolverCandidate>,
) -> bool {
    forall|taken: Set<(int, int)>, count: nat|
        has_candidate(before, board, taken, count) ==> #[trigger] has_candidate(
            after,
            board,
            taken,
            count,
        )
}

/// Whether the indices are ascending and below `n`.
pub open spec fn is_choice(indices: Seq<int>, n: int) -> bool {
    &&& forall|i: int| 0 <= i < indices.len() ==> 0 <= #[trigger] indices[i] < n
    &&& forall|i: int, j: int|
        0 <= i < j < indices.len() ==> #[trigger] indices[i] < #[trigger] indices[j]
}

/// The cells at the given indices.
pub open spec fn gathered(cells: Seq<Cell>, indices: Seq<int>) -> Seq<Cell> {
    Seq::new(indices.len(), |i: int| cells[indices[i]])
}

/// Whether there is a candidate for the choice of cells.
pub open spec fn choice_done(
    candidates: Seq<SolverCandidate>,
    board: Board,
    cells: Seq<Cell>,
    indices: Seq<int>,
) -> bool {
    has_candidate(candidates, board, places(gathered(cells, indices)), indices.len())
}

/// Whether `more` is a choice that begins with `indices` and goes on at `start` or later.
pub open spec fn extends(more: Seq<int>, indices: Seq<int>, start: int) -> bool {
    &&& more.len() >= indices.len()
    &&& more.take(indices.len() as int) == indices
    &&& forall|i: int| indices.len() <= i < more.len() ==> #[trigger] more[i] >= start
}

/// Ascending indices leave room for one another.
proof fn lemma_choice_room(indices: Seq<int>, n: int, j: int)
    requires
        is_choice(indices, n),
        0 <= j < indices.len(),
    ensures
        indices[j] + (indices.len() - 1 - j) < n,
    decreases indices.len() - j,
{
    if j < indices.len() - 1 {
        lemma_choice_room(indices, n, j + 1);
        assert(indices[j] < indices[j + 1]);
    }
}

fn cancel_requested(cancel: Option<&AtomicBool>) -> (requested: bool)
    ensures
        match cancel {
            Some(flag) => reads(flag, requested),
            None => !requested,
        },
{
    match cancel {
        Some(flag) => read_flag(flag),
        None => false,
    }
}

/// The number of nodes of all components together.
fn count_nodes(game: &CanonicalGame) -> (nodes: Option<usize>)
    requires
        game.wf(),
    ensures
        nodes is Some <==> node_count(game@) <= usize::MAX,
        nodes is Some ==> nodes->0 == node_count(game@),
{
    let components: &[BitMatrix] = game.components();
    let mut nodes: usize = 0;
    let mut k: usize = 0;
    proof {
        assert(game@.take(0).len() == 0);
    }
    while k < components.len()
        invariant
            components@.len() == game@.len(),
            forall|i: int| 0 <= i < components@.len() ==> (#[trigger] components@[i]).wf(),
            forall|i: int| 0 <= i < components@.len() ==> (#[trigger] components@[i])@ == game@[i],
            k <= components@.len(),
            nodes == node_count(game@.take(k as int)),
        decreases components@.len() - k,
    {
        proof {
            assert(components@[k as int].wf());
            let more = game@.take(k + 1);
            assert(more.drop_last() =~= game@.take(k as int));
            assert(more.last() == game@[k as int]);
        }
        let part: usize = components[k].count_ones();
        match nodes.checked_add(part) {
            Some(sum) => {
                nodes = sum;
            },
            None => {
                proof {
                    lemma_prefix_nodes(game@, k + 1);
                }
                return None;
            },
        }
        k = k + 1;
    }
    proof {
        assert(game@.take(k as int) =~= game@);
    }
    Some(nodes)
}

proof fn lemma_prefix_nodes(parts: Seq<Grid>, k: int)
    requires
        0 <= k <= parts.len(),
    ensures
        node_count(parts.take(k)) <= node_count(parts),
    decreases parts.len() - k,
{
    if k < parts.len() {
        lemma_prefix_nodes(parts, k + 1);
        assert(parts.take(k + 1).drop_last() =~= parts.take(k));
    } else {
        assert(parts.take(k) =~= parts);
    }
}

/// Adds the move that takes the selected nodes, unless a larger or equal one leads to the same game.
fn add_candidate(
    maze: &Maze,
    corridor: &Corridor,
    selected: &Vec<Cell>,
    candidates: &mut Vec<SolverCandidate>,
)
    requires
        maze.wf(),
        countable(maze@.compiled().rows, maze@.compiled().cols),
        is_corridor(maze@, *corridor),
        selected@.len() > 0,
        selected@.no_duplicates(),
        forall|cell: Cell| #[trigger] selected@.contains(cell) ==> corridor.alive@.contains(cell),
        are_candidates(maze@, old(candidates)@),
        all_different(old(candidates)@),
    ensures
        are_candidates(maze@, final(candidates)@),
        all_different(final(candidates)@),
        keeps_candidates(maze@, old(candidates)@, final(candidates)@),
        has_candidate(final(candidates)@, maze@, places(selected@), selected@.len()),
{
    let ghost board = maze@;
    let ghost taken = places(selected@);
    let ghost before = candidates@;
    let cells: Vec<Cell> = selected.clone();
    proof {
        assert(cells@ =~= selected@);
    }
    let movement = Move { axis: corridor.axis, anchor: corridor.anchor, cells };
    let mut next: Maze = maze.clone();
    proof {
        lemma_corridor_move(board, corridor.axis, corridor.anchor, cells@);
        lemma_compiled_size(board, taken);
        crate::game::lemma_move_takes(board, movement);
    }
    let _outcome = next.apply_move(movement.axis, movement.anchor, movement.cells.as_slice());
    let game: CanonicalGame = CanonicalGame::from_matrix(&compile_maze(&next));
    proof {
        lemma_game_nodes(board.without(taken), game@);
        assert(leads_to(board, taken, game@)) by {
            reveal(leads_to);
        }
    }
    let nodes: usize = match count_nodes(&game) {
        Some(nodes) => nodes,
        None => 0,
    };
    let removed: usize = movement.cells.len();
    let ghost parts = game@;
    let mut k: usize = 0;
    while k < candidates.len()
        invariant
            board == maze@,
            taken == places(selected@),
            before == candidates@,
            k <= candidates@.len(),
            are_candidates(board, candidates@),
            all_different(candidates@),
            forall|i: int| 0 <= i < k ==> (#[trigger] candidates@[i]).game@ != parts,
            game.wf(),
            parts == game@,
            leads_to(board, taken, parts),
            old(candidates)@ == before,
            removed == selected@.len(),
            movement.is_legal(board),
            movement.cells@ == selected@,
            nodes == node_count(parts),
        decreases candidates@.len() - k,
    {
        proof {
            assert(is_candidate(board, candidates@[k as int]));
        }
        if candidates[k].game.same(&game) {
            if removed > candidates[k].removed {
                let candidate = SolverCandidate { movement, game, removed, nodes };
                candidates.set(k, candidate);
                proof {
                    assert(is_candidate(board, candidate));
                    assert forall|i: int| 0 <= i < candidates@.len() implies (
                    #[trigger] candidates@[i]).game@ == before[i].game@ by {}
                    assert forall|i: int| 0 <= i < candidates@.len() implies is_candidate(
                        board,
                        #[trigger] candidates@[i],
                    ) by {
                        assert(is_candidate(board, before[i]));
                    }
                    assert forall|other: Set<(int, int)>, count: nat|
                        has_candidate(before, board, other, count) implies #[trigger] has_candidate(
                        candidates@,
                        board,
                        other,
                        count,
                    ) by {
                        let i = choose|i: int|
                            0 <= i < before.len() && leads_to(
                                board,
                                other,
                                (#[trigger] before[i]).game@,
                            ) && before[i].removed >= count;
                        assert(candidates@[i].game@ == before[i].game@);
                    }
                }
            }
            proof {
                assert(leads_to(board, taken, candidates@[k as int].game@));
            }
            return;
        }
        k = k + 1;
    }
    let candidate = SolverCandidate { movement, game, removed, nodes };
    candidates.push(candidate);
    proof {
        assert(is_candidate(board, candidate));
        assert forall|i: int| 0 <= i < candidates@.len() implies is_candidate(
            board,
            #[trigger] candidates@[i],
        ) by {
            if i < before.len() {
                assert(is_candidate(board, before[i]));
            }
        }
        assert forall|other: Set<(int, int)>, count: nat|
            has_candidate(before, board, other, count) implies #[trigger] has_candidate(
            candidates@,
            board,
            other,
            count,
        ) by {
            let i = choose|i: int|
                0 <= i < before.len() && leads_to(board, other, (#[trigger] before[i]).game@)
                    && before[i].removed >= count;
            assert(candidates@[i] == before[i]);
        }
        assert(candidates@[before.len() as int] == candidate);
        assert(has_candidate(candidates@, board, taken, selected@.len()));
    }
}

/// A machine word can count the nodes of a game that is left on a board.
proof fn lemma_game_nodes(board: Board, parts: Seq<Grid>)
    requires
        board.wf(),
        countable(board.compiled().rows, board.compiled().cols),
        is_cancelled(canonical_parts(board.compiled()), parts),
    ensures
        node_count(parts) <= usize::MAX,
{
    let grid = board.compiled();
    crate::compile::lemma_compiled(board);
    crate::solver::lemma_cancelled_stands_for(grid, parts);
    crate::grid::lemma_cells_finite(grid.cells, grid.rows, grid.cols);
}

/// Chosen cells are different cells of the list.
proof fn lemma_gathered(cells: Seq<Cell>, indices: Seq<int>)
    requires
        cells.no_duplicates(),
        is_choice(indices, cells.len() as int),
    ensures
        gathered(cells, indices).no_duplicates(),
        forall|cell: Cell| #[trigger]
            gathered(cells, indices).contains(cell) ==> cells.contains(cell),
{
    let chosen = gathered(cells, indices);
    assert forall|i: int, j: int| 0 <= i < chosen.len() && 0 <= j < chosen.len() && i != j implies chosen[i]
        != chosen[j] by {
        if i < j {
            assert(indices[i] < indices[j]);
        } else {
            assert(indices[j] < indices[i]);
        }
        assert(0 <= indices[i] < cells.len() && 0 <= indices[j] < cells.len());
    }
    assert forall|cell: Cell| #[trigger] chosen.contains(cell) implies cells.contains(cell) by {
        let i = choose|i: int| 0 <= i < chosen.len() && chosen[i] == cell;
        assert(0 <= indices[i] < cells.len());
        assert(cells[indices[i]] == cell);
    }
}

/// Adds the moves that take `take` nodes of the corridor: the selected ones, and others from place
/// `start` on. Returns whether all were added, which is so unless `cancel` was set.
fn collect(
    maze: &Maze,
    corridor: &Corridor,
    cancel: Option<&AtomicBool>,
    take: usize,
    start: usize,
    selected: &mut Vec<Cell>,
    candidates: &mut Vec<SolverCandidate>,
    Ghost(indices): Ghost<Seq<int>>,
) -> (done: bool)
    requires
        maze.wf(),
        countable(maze@.compiled().rows, maze@.compiled().cols),
        is_corridor(maze@, *corridor),
        are_candidates(maze@, old(candidates)@),
        all_different(old(candidates)@),
        0 < take,
        indices.len() <= take,
        take - indices.len() <= corridor.alive@.len() - start,
        is_choice(indices, start as int),
        old(selected)@ == gathered(corridor.alive@, indices),
    ensures
        final(selected)@ == old(selected)@,
        are_candidates(maze@, final(candidates)@),
        all_different(final(candidates)@),
        keeps_candidates(maze@, old(candidates)@, final(candidates)@),
        !done ==> may_cancel(cancel),
        done ==> may_go_on(cancel),
        done ==> forall|more: Seq<int>|
            is_choice(more, corridor.alive@.len() as int) && more.len() == take && extends(
                more,
                indices,
                start as int,
            ) ==> #[trigger] choice_done(final(candidates)@, maze@, corridor.alive@, more),
    decreases take - indices.len(),
{
    let ghost board = maze@;
    let ghost alive = corridor.alive@;
    proof {
        lemma_alive_on(board, corridor.axis, corridor.anchor.at());
        assert(is_choice(indices, alive.len() as int));
        lemma_gathered(alive, indices);
    }
    if cancel_requested(cancel) {
        return false;
    }
    if selected.len() == take {
        add_candidate(maze, corridor, selected, candidates);
        proof {
            assert forall|more: Seq<int>|
                is_choice(more, alive.len() as int) && more.len() == take && extends(
                    more,
                    indices,
                    start as int,
                ) implies #[trigger] choice_done(candidates@, board, alive, more) by {
                assert(more =~= indices);
            }
        }
        return true;
    }
    let remaining: usize = take - selected.len();
    let last_start: usize = corridor.alive.len() - remaining;
    let mut index: usize = start;
    while index <= last_start
        invariant
            maze.wf(),
            board == maze@,
            alive == corridor.alive@,
            alive.len() <= usize::MAX,
            countable(board.compiled().rows, board.compiled().cols),
            is_corridor(board, *corridor),
            are_candidates(board, candidates@),
            all_different(candidates@),
            may_go_on(cancel),
            keeps_candidates(board, old(candidates)@, candidates@),
            0 < take,
            indices.len() < take,
            remaining == take - indices.len(),
            last_start == alive.len() - remaining,
            start <= index <= last_start + 1,
            is_choice(indices, start as int),
            selected@ == gathered(alive, indices),
            old(selected)@ == selected@,
            forall|more: Seq<int>|
                is_choice(more, alive.len() as int) && more.len() == take && extends(
                    more,
                    indices,
                    start as int,
                ) && more[indices.len() as int] < index ==> #[trigger] choice_done(
                    candidates@,
                    board,
                    alive,
                    more,
                ),
        decreases last_start + 1 - index,
    {
        let ghost longer = indices.push(index as int);
        let ghost before = candidates@;
        selected.push(corridor.alive[index]);
        proof {
            assert(is_choice(longer, index + 1));
            assert(selected@ =~= gathered(alive, longer));
        }
        let done: bool = collect(
            maze,
            corridor,
            cancel,
            take,
            index + 1,
            selected,
            candidates,
            Ghost(longer),
        );
        let _last = selected.pop();
        proof {
            assert(selected@ =~= gathered(alive, indices));
        }
        if !done {
            return false;
        }
        proof {
            assert forall|more: Seq<int>|
                is_choice(more, alive.len() as int) && more.len() == take && extends(
                    more,
                    indices,
                    start as int,
                ) && more[indices.len() as int] < index + 1 implies #[trigger] choice_done(
                candidates@,
                board,
                alive,
                more,
            ) by {
                if more[indices.len() as int] < index {
                    assert(choice_done(before, board, alive, more));
                    assert(has_candidate(
                        before,
                        board,
                        places(gathered(alive, more)),
                        more.len(),
                    ));
                } else {
                    assert(more.take(longer.len() as int) =~= longer) by {
                        assert forall|i: int| 0 <= i < longer.len() implies more[i] == longer[i] by {
                            if i < indices.len() {
                                assert(more.take(indices.len() as int)[i] == more[i]);
                            }
                        }
                    }
                    assert forall|i: int| longer.len() <= i < more.len() implies #[trigger] more[i]
                        >= index + 1 by {
                        assert(more[indices.len() as int] < more[i]);
                    }
                    assert(extends(more, longer, index + 1));
                }
            }
        }
        index = index + 1;
    }
    proof {
        assert forall|more: Seq<int>|
            is_choice(more, alive.len() as int) && more.len() == take && extends(
                more,
                indices,
                start as int,
            ) implies #[trigger] choice_done(candidates@, board, alive, more) by {
            lemma_choice_room(more, alive.len() as int, indices.len() as int);
        }
    }
    true
}

/// Whether there is a candidate for every choice of more than `least` cells of the corridor.
pub open spec fn corridor_done(
    candidates: Seq<SolverCandidate>,
    board: Board,
    corridor: Corridor,
    least: int,
) -> bool {
    forall|more: Seq<int>|
        is_choice(more, corridor.alive@.len() as int) && more.len() > least
            ==> #[trigger] choice_done(candidates, board, corridor.alive@, more)
}

proof fn lemma_corridor_kept(
    before: Seq<SolverCandidate>,
    after: Seq<SolverCandidate>,
    board: Board,
    corridor: Corridor,
    least: int,
)
    requires
        keeps_candidates(board, before, after),
        corridor_done(before, board, corridor, least),
    ensures
        corridor_done(after, board, corridor, least),
{
    assert forall|more: Seq<int>|
        is_choice(more, corridor.alive@.len() as int) && more.len()
            > least implies #[trigger] choice_done(after, board, corridor.alive@, more) by {
        assert(choice_done(before, board, corridor.alive@, more));
        assert(has_candidate(
            before,
            board,
            places(gathered(corridor.alive@, more)),
            more.len(),
        ));
    }
}

/// An ascending choice is not longer than the list.
proof fn lemma_choice_length(indices: Seq<int>, n: int)
    requires
        is_choice(indices, n),
        n >= 0,
    ensures
        indices.len() <= n,
{
    if indices.len() > 0 {
        lemma_choice_room(indices, n, 0);
        assert(0 <= indices[0]);
    }
}

/// For every game that a move leads to, a largest such move; nothing if `cancel` was set.
pub fn unique_solver_candidates(maze: &Maze, cancel: Option<&AtomicBool>) -> (found: Option<
    Vec<SolverCandidate>,
>)
    requires
        maze.wf(),
        countable(maze@.compiled().rows, maze@.compiled().cols),
    ensures
        found is None ==> may_cancel(cancel),
        found is Some && found->0@.len() > 0 ==> may_go_on(cancel),
        found matches Some(candidates) ==> {
            &&& are_candidates(maze@, candidates@)
            &&& all_different(candidates@)
            &&& forall|axis: Axis, anchor: Cell, cells: Seq<Cell>| #[trigger]
                maze@.move_fault(axis, anchor, cells) is None ==> has_candidate(
                    candidates@,
                    maze@,
                    places(cells),
                    cells.len(),
                )
        },
{
    let ghost board = maze@;
    let mut candidates: Vec<SolverCandidate> = Vec::new();
    let corridors: Vec<Corridor> = alive_corridors(maze);
    let mut take: usize = 0;
    let mut k: usize = 0;
    while k < corridors.len()
        invariant
            k <= corridors@.len(),
            forall|i: int|
                0 <= i < k ==> (#[trigger] corridors@[i]).alive@.len() <= take,
        decreases corridors@.len() - k,
    {
        if corridors[k].alive.len() > take {
            take = corridors[k].alive.len();
        }
        k = k + 1;
    }
    proof {
        assert forall|i: int| 0 <= i < corridors@.len() implies corridor_done(
            candidates@,
            board,
            #[trigger] corridors@[i],
            take as int,
        ) by {
            assert forall|more: Seq<int>|
                is_choice(more, corridors@[i].alive@.len() as int) && more.len()
                    > take implies #[trigger] choice_done(
                candidates@,
                board,
                corridors@[i].alive@,
                more,
            ) by {
                lemma_choice_length(more, corridors@[i].alive@.len() as int);
            }
        }
    }
    while take > 0
        invariant
            candidates@.len() > 0 ==> may_go_on(cancel),
            maze.wf(),
            board == maze@,
            countable(board.compiled().rows, board.compiled().cols),
            are_corridors(board, corridors@),
            are_candidates(board, candidates@),
            all_different(candidates@),
            forall|i: int|
                0 <= i < corridors@.len() ==> corridor_done(
                    candidates@,
                    board,
                    #[trigger] corridors@[i],
                    take as int,
                ),
        decreases take,
    {
        if cancel_requested(cancel) {
            return None;
        }
        let mut c: usize = 0;
        while c < corridors.len()
            invariant
                may_go_on(cancel),
                maze.wf(),
                board == maze@,
                countable(board.compiled().rows, board.compiled().cols),
                are_corridors(board, corridors@),
                are_candidates(board, candidates@),
                all_different(candidates@),
                take > 0,
                c <= corridors@.len(),
                forall|i: int|
                    0 <= i < corridors@.len() ==> corridor_done(
                        candidates@,
                        board,
                        #[trigger] corridors@[i],
                        if i < c {
                            take - 1
                        } else {
                            take as int
                        },
                    ),
            decreases corridors@.len() - c,
        {
            let ghost before = candidates@;
            let ghost corridor = corridors@[c as int];
            if corridors[c].alive.len() >= take {
                if cancel_requested(cancel) {
                    return None;
                }
                let mut selected: Vec<Cell> = Vec::new();
                proof {
                    assert(is_corridor(board, corridors@[c as int]));
                    assert(selected@ =~= gathered(corridor.alive@, Seq::empty()));
                }
                let done: bool = collect(
                    maze,
                    &corridors[c],
                    cancel,
                    take,
                    0,
                    &mut selected,
                    &mut candidates,
                    Ghost(Seq::empty()),
                );
                if !done {
                    return None;
                }
            } else {
                proof {
                    assert(keeps_candidates(board, before, candidates@));
                }
            }
            proof {
                assert forall|i: int| 0 <= i < corridors@.len() implies corridor_done(
                    candidates@,
                    board,
                    #[trigger] corridors@[i],
                    if i < c + 1 {
                        take - 1
                    } else {
                        take as int
                    },
                ) by {
                    let least = if i < c {
                        take - 1
                    } else {
                        take as int
                    };
                    assert(corridor_done(before, board, corridors@[i], least));
                    lemma_corridor_kept(before, candidates@, board, corridors@[i], least);
                    if i == c {
                        assert forall|more: Seq<int>|
                            is_choice(more, corridor.alive@.len() as int) && more.len() > take
                                - 1 implies #[trigger] choice_done(
                            candidates@,
                            board,
                            corridor.alive@,
                            more,
                        ) by {
                            lemma_choice_length(more, corridor.alive@.len() as int);
                            if more.len() == take {
                                assert(more.take(0) =~= Seq::empty());
                                assert(extends(more, Seq::empty(), 0));
                            }
                        }
                    }
                }
            }
            c = c + 1;
        }
        take = take - 1;
        proof {
            assert forall|i: int| 0 <= i < corridors@.len() implies corridor_done(
                candidates@,
                board,
                #[trigger] corridors@[i],
                take as int,
            ) by {
                assert(corridor_done(candidates@, board, corridors@[i], take as int));
            }
        }
    }
    proof {
        assert forall|axis: Axis, anchor: Cell, cells: Seq<Cell>| #[trigger]
            board.move_fault(axis, anchor, cells) is None implies has_candidate(
            candidates@,
            board,
            places(cells),
            cells.len(),
        ) by {
            lemma_move_is_choice(board, corridors@, candidates@, axis, anchor, cells);
        }
    }
    Some(candidates)
}

/// The indices below `k` of the cells that are among `cells`.
spec fn chosen(alive: Seq<Cell>, cells: Seq<Cell>, k: int) -> Seq<int>
    decreases k,
{
    if k <= 0 {
        Seq::empty()
    } else {
        let less = chosen(alive, cells, k - 1);
        if cells.contains(alive[k - 1]) {
            less.push(k - 1)
        } else {
            less
        }
    }
}

proof fn lemma_chosen(alive: Seq<Cell>, cells: Seq<Cell>, k: int)
    requires
        0 <= k <= alive.len(),
    ensures
        is_choice(chosen(alive, cells, k), k),
        forall|i: int|
            0 <= i < chosen(alive, cells, k).len() ==> cells.contains(
                alive[#[trigger] chosen(alive, cells, k)[i]],
            ),
        forall|j: int|
            0 <= j < k && cells.contains(alive[j]) ==> #[trigger] chosen(alive, cells, k).contains(
                j,
            ),
    decreases k,
{
    if k > 0 {
        lemma_chosen(alive, cells, k - 1);
        let less = chosen(alive, cells, k - 1);
        let all = chosen(alive, cells, k);
        assert forall|j: int| 0 <= j < k && cells.contains(alive[j]) implies #[trigger] all.contains(
            j,
        ) by {
            if j < k - 1 {
                assert(less.contains(j));
                let i = choose|i: int| 0 <= i < less.len() && less[i] == j;
                assert(all[i] == j);
            } else {
                assert(all[all.len() - 1] == j);
            }
        }
    }
}

/// Every move is a choice of nodes of one of the corridors.
proof fn lemma_move_is_choice(
    board: Board,
    corridors: Seq<Corridor>,
    candidates: Seq<SolverCandidate>,
    axis: Axis,
    from: Cell,
    cells: Seq<Cell>,
)
    requires
        board.wf(),
        are_corridors(board, corridors),
        forall|i: int|
            0 <= i < corridors.len() ==> corridor_done(
                candidates,
                board,
                #[trigger] corridors[i],
                0,
            ),
        board.move_fault(axis, from, cells) is None,
    ensures
        has_candidate(candidates, board, places(cells), cells.len()),
{
    let anchor = from.at();
    let start = lemma_start_exists(board, axis, anchor);
    let alive = alive_on(board, axis, start);
    lemma_alive_on(board, axis, start);
    assert forall|i: int| 0 <= i < cells.len() implies alive.contains(#[trigger] cells[i]) by {
        lemma_no_fault(board, axis, from, cells, 0, i);
        lemma_same_corridor(board, axis, anchor, start, cells[i].at());
    }
    assert(cells.no_duplicates()) by {
        assert forall|i: int, j: int| 0 <= i < cells.len() && 0 <= j < cells.len() && i
            != j implies cells[i] != cells[j] by {
            let (a, b) = if i < j {
                (i, j)
            } else {
                (j, i)
            };
            lemma_no_fault(board, axis, from, cells, 0, b);
            if cells[a] == cells[b] {
                assert(cells.take(b)[a] == cells[b]);
                assert(cells.take(b).contains(cells[b]));
            }
        }
    }
    assert(alive.contains(cells[0]));
    assert(has_start(corridors, axis, start));
    let c = choose|c: int|
        0 <= c < corridors.len() && (#[trigger] corridors[c]).axis == axis
            && corridors[c].anchor.at() == start;
    assert(is_corridor(board, corridors[c]));
    assert(corridors[c].alive@ == alive);
    let indices = chosen(alive, cells, alive.len() as int);
    lemma_chosen(alive, cells, alive.len() as int);
    lemma_gathered(alive, indices);
    let found = gathered(alive, indices);
    assert forall|cell: Cell| found.to_set().contains(cell) <==> cells.to_set().contains(cell) by {
        if found.contains(cell) {
            let i = choose|i: int| 0 <= i < found.len() && found[i] == cell;
            assert(cells.contains(alive[indices[i]]));
        }
        if cells.contains(cell) {
            let i = choose|i: int| 0 <= i < cells.len() && cells[i] == cell;
            assert(alive.contains(cells[i]));
            let j = choose|j: int| 0 <= j < alive.len() && alive[j] == cell;
            assert(indices.contains(j));
            let m = choose|m: int| 0 <= m < indices.len() && indices[m] == j;
            assert(found[m] == cell);
        }
    }
    assert(found.to_set() =~= cells.to_set());
    found.unique_seq_to_set();
    cells.unique_seq_to_set();
    assert(places(found) =~= places(cells)) by {
        assert forall|p: (int, int)| #[trigger] places(found).contains(p) <==> places(
            cells,
        ).contains(p) by {
            if places(found).contains(p) {
                let i = choose|i: int| 0 <= i < found.len() && (#[trigger] found[i]).at() == p;
                assert(found.to_set().contains(found[i]));
                assert(cells.contains(found[i]));
                let j = choose|j: int| 0 <= j < cells.len() && cells[j] == found[i];
                assert(cells[j].at() == p);
            }
            if places(cells).contains(p) {
                let i = choose|i: int| 0 <= i < cells.len() && (#[trigger] cells[i]).at() == p;
                assert(cells.to_set().contains(cells[i]));
                assert(found.contains(cells[i]));
                let j = choose|j: int| 0 <= j < found.len() && found[j] == cells[i];
                assert(found[j].at() == p);
            }
        }
    }
    assert(choice_done(candidates, board, alive, indices));
}

} // verus!
