//! The game between two players, and the moves that the machine makes.
use crate::board::{places, Axis, Board, Cell, Maze, MoveError};
use crate::compile::{lemma_all_fine, lemma_no_fault};
use crate::corridors::{alive_along, alive_cells, alive_on, lemma_alive_on, list_alive};
use crate::reading::{given, given_of};
use core::time::Duration;
use std::time::{SystemTime, SystemTimeError};
use vstd::prelude::*;

pub use crate::solver_moves::{solver_move, solver_move_cancellable, SolverMoveResult};

verus! {

#[verifier::external_type_specification]
#[verifier::external_body]
pub struct ExSystemTime(std::time::SystemTime);

#[verifier::external_type_specification]
#[verifier::external_body]
pub struct ExSystemTimeError(std::time::SystemTimeError);

/// `std::time::SystemTime::now`: the present, which depends on the clock.
pub assume_specification[ std::time::SystemTime::now ]() -> (now: SystemTime);

/// `core::time::Duration::as_nanos`: the whole nanoseconds of a stretch of time. How many they are is
/// left open, as the stretch itself comes from the clock.
pub assume_specification[ core::time::Duration::as_nanos ](duration: &Duration) -> (nanos: u128);

/// `std::time::SystemTime::duration_since`, for the epoch of the clock: how long ago that was, or an
/// error where the clock stands before it. Both depend on the clock.
#[verifier::external_body]
fn since_epoch(time: &SystemTime) -> (passed: Result<Duration, SystemTimeError>) {
    time.duration_since(std::time::UNIX_EPOCH)
}

#[derive(Clone, Copy, Debug, PartialEq, Eq, Structural)]
pub enum PlayerKind {
    Human,
    SolverCpu,
}

#[derive(Debug)]
pub struct Player {
    pub name: String,
    pub kind: PlayerKind,
}

impl Clone for Player {
    fn clone(&self) -> (copy: Self)
        ensures
            copy.name@ == self.name@,
            copy.kind == self.kind,
    {
        Player { name: self.name.clone(), kind: self.kind }
    }
}

/// Nodes to take from the corridor through `anchor`.
#[derive(Debug)]
pub struct Move {
    pub axis: Axis,
    pub anchor: Cell,
    pub cells: Vec<Cell>,
}

impl Clone for Move {
    fn clone(&self) -> (copy: Self)
        ensures
            copy.axis == self.axis,
            copy.anchor == self.anchor,
            copy.cells@ == self.cells@,
    {
        let cells: Vec<Cell> = self.cells.clone();
        proof {
            assert(cells@ =~= self.cells@);
        }
        Move { axis: self.axis, anchor: self.anchor, cells }
    }
}

impl Move {
    /// Whether the move can be made on the board.
    pub open spec fn is_legal(&self, board: Board) -> bool {
        board.move_fault(self.axis, self.anchor, self.cells@) is None
    }

    /// The board after the move.
    pub open spec fn after(&self, board: Board) -> Board {
        board.without(places(self.cells@))
    }
}

pub struct Game {
    pub maze: Maze,
    pub players: [Player; 2],
    pub turn: usize,
    pub winner: Option<usize>,
    pub last_move: Option<(usize, Move)>,
}

impl Game {
    /// What holds of every game: one of the two players is to move, and a player has won if and only
    /// if no node is left after a move, which was theirs.
    pub open spec fn wf(&self) -> bool {
        &&& self.maze.wf()
        &&& self.turn < 2
        &&& self.winner is Some ==> self.maze@.nodes.cells.len() == 0 && self.winner == Some(
            self.turn,
        )
        &&& self.last_move is Some && self.maze@.nodes.cells.len() == 0 ==> self.winner is Some
        &&& self.last_move matches Some((player, movement)) ==> player == (if self.winner is Some {
            self.turn as int
        } else {
            1 - self.turn
        })
    }

    /// Whether the game has just begun on the board.
    pub open spec fn is_fresh(&self, board: Board) -> bool {
        &&& self.maze@ == board
        &&& self.turn == 0
        &&& self.winner is None
        &&& self.last_move is None
    }

    pub fn human_vs_human() -> (game: Self)
        ensures
            game.wf(),
            game.is_fresh(crate::board::demo_board()),
            game.players[0].name@ == "Player 1"@,
            game.players[1].name@ == "Player 2"@,
            game.players[0].kind == PlayerKind::Human,
            game.players[1].kind == PlayerKind::Human,
    {
        Self::human_vs_human_on(Maze::demo())
    }

    pub fn human_vs_human_on(maze: Maze) -> (game: Self)
        requires
            maze.wf(),
        ensures
            game.wf(),
            game.is_fresh(maze@),
            game.players[0].name@ == "Player 1"@,
            game.players[1].name@ == "Player 2"@,
            game.players[0].kind == PlayerKind::Human,
            game.players[1].kind == PlayerKind::Human,
    {
        let first = Player { name: "Player 1".to_owned(), kind: PlayerKind::Human };
        let second = Player { name: "Player 2".to_owned(), kind: PlayerKind::Human };
        Self::new(maze, first, second)
    }

    pub fn human_vs_cpu() -> (game: Self)
        ensures
            game.wf(),
            game.is_fresh(crate::board::demo_board()),
            game.players[0].name@ == "Human"@,
            game.players[1].name@ == "CPU"@,
            game.players[0].kind == PlayerKind::Human,
            game.players[1].kind == PlayerKind::SolverCpu,
    {
        Self::human_vs_cpu_on(Maze::demo())
    }

    pub fn human_vs_cpu_on(maze: Maze) -> (game: Self)
        requires
            maze.wf(),
        ensures
            game.wf(),
            game.is_fresh(maze@),
            game.players[0].name@ == "Human"@,
            game.players[1].name@ == "CPU"@,
            game.players[0].kind == PlayerKind::Human,
            game.players[1].kind == PlayerKind::SolverCpu,
    {
        let first = Player { name: "Human".to_owned(), kind: PlayerKind::Human };
        let second = Player { name: "CPU".to_owned(), kind: PlayerKind::SolverCpu };
        Self::new(maze, first, second)
    }

    fn new(maze: Maze, first: Player, second: Player) -> (game: Self)
        requires
            maze.wf(),
        ensures
            game.wf(),
            game.is_fresh(maze@),
            game.players[0] == first,
            game.players[1] == second,
    {
        Game { maze, players: [first, second], turn: 0, winner: None, last_move: None }
    }

    /// The player who is to move, or who has won.
    pub fn current_player(&self) -> (player: &Player)
        requires
            self.wf(),
        ensures
            *player == self.players[self.turn as int],
    {
        &self.players[self.turn]
    }

    /// Makes a move for the player who is to move. Who takes the last node wins.
    pub fn play(&mut self, movement: Move) -> (outcome: Result<(), MoveError>)
        requires
            old(self).wf(),
        ensures
            final(self).wf(),
            final(self).players == old(self).players,
            match old(self).maze@.move_fault(movement.axis, movement.anchor, movement.cells@) {
                Some(fault) => {
                    &&& outcome == Err::<(), MoveError>(fault)
                    &&& final(self).maze@ == old(self).maze@
                    &&& final(self).turn == old(self).turn
                    &&& final(self).winner == old(self).winner
                    &&& final(self).last_move == old(self).last_move
                },
                None => {
                    &&& outcome == Ok::<(), MoveError>(())
                    &&& final(self).maze@ == movement.after(old(self).maze@)
                    &&& final(self).maze@.nodes.cells.len() < old(self).maze@.nodes.cells.len()
                    &&& final(self).last_move == Some((old(self).turn, movement))
                    &&& if final(self).maze@.nodes.cells.len() == 0 {
                        final(self).winner == Some(old(self).turn) && final(self).turn == old(
                            self,
                        ).turn
                    } else {
                        final(self).winner == old(self).winner && final(self).turn == 1 - old(
                            self,
                        ).turn
                    }
                },
            },
    {
        let ghost board = self.maze@;
        match self.maze.apply_move(movement.axis, movement.anchor, movement.cells.as_slice()) {
            Err(fault) => {
                return Err(fault);
            },
            Ok(()) => {},
        }
        proof {
            lemma_move_takes(board, movement);
        }
        let player: usize = self.turn;
        self.last_move = Some((player, movement));
        if self.maze.alive_count() == 0 {
            self.winner = Some(player);
        } else {
            self.turn = 1 - self.turn;
        }
        Ok(())
    }
}

/// A move takes nodes: as many as it has cells.
pub proof fn lemma_move_takes(board: Board, movement: Move)
    requires
        board.wf(),
        movement.is_legal(board),
    ensures
        movement.cells@.len() > 0,
        movement.after(board).nodes.cells.len() == board.nodes.cells.len() - movement.cells@.len(),
        movement.after(board).wf(),
{
    let cells = movement.cells@;
    assert forall|i: int| 0 <= i < cells.len() implies #[trigger] board.cell_fault(
        movement.axis,
        movement.anchor,
        cells,
        i,
    ) is None by {
        lemma_no_fault(board, movement.axis, movement.anchor, cells, 0, i);
    }
    lemma_places(cells, cells.len() as int, board, movement.axis, movement.anchor);
    let taken = places(cells);
    assert(cells.take(cells.len() as int) =~= cells);
    assert(taken.subset_of(board.nodes.cells)) by {
        assert forall|p: (int, int)| taken.contains(p) implies board.nodes.cells.contains(p) by {
            let i = choose|i: int| 0 <= i < cells.len() && (#[trigger] cells[i]).at() == p;
            assert(board.cell_fault(movement.axis, movement.anchor, cells, i) is None);
        }
    }
    let rest = board.nodes.cells.difference(taken);
    vstd::set_lib::lemma_set_disjoint_lens(rest, taken);
    assert(rest + taken =~= board.nodes.cells);
}

/// Cells without a fault are at different places.
pub proof fn lemma_places(cells: Seq<Cell>, k: int, board: Board, axis: Axis, anchor: Cell)
    requires
        0 <= k <= cells.len(),
        forall|i: int|
            0 <= i < cells.len() ==> #[trigger] board.cell_fault(axis, anchor, cells, i) is None,
    ensures
        places(cells.take(k)).finite(),
        places(cells.take(k)).len() == k,
    decreases k,
{
    if k == 0 {
        assert(places(cells.take(0)) =~= Set::empty());
    } else {
        lemma_places(cells, k - 1, board, axis, anchor);
        let before = places(cells.take(k - 1));
        let p = cells[k - 1].at();
        assert(board.cell_fault(axis, anchor, cells, k - 1) is None);
        assert(!before.contains(p)) by {
            if before.contains(p) {
                let i = choose|i: int|
                    0 <= i < cells.take(k - 1).len() && (#[trigger] cells.take(k - 1)[i]).at() == p;
                assert(cells.take(k - 1)[i] == cells[k - 1]);
            }
        }
        assert(places(cells.take(k)) =~= before.insert(p)) by {
            assert forall|q: (int, int)| #[trigger] places(cells.take(k)).contains(q) <==> before.insert(
                p,
            ).contains(q) by {
                if places(cells.take(k)).contains(q) {
                    let i = choose|i: int|
                        0 <= i < cells.take(k).len() && (#[trigger] cells.take(k)[i]).at() == q;
                    if i < k - 1 {
                        assert(cells.take(k - 1)[i].at() == q);
                    }
                }
                if before.contains(q) {
                    let i = choose|i: int|
                        0 <= i < cells.take(k - 1).len() && (#[trigger] cells.take(k - 1)[i]).at()
                            == q;
                    assert(cells.take(k)[i].at() == q);
                }
                if q == p {
                    assert(cells.take(k)[k - 1].at() == q);
                }
            }
        }
    }
}

/// A tiny PRNG is enough for an intentionally non-strategic CPU.
pub struct Random {
    state: u64,
}

/// The state after `state`, which is also the number drawn.
pub open spec fn next_state(state: u64) -> u64 {
    let a = state ^ (state << 13u64);
    let b = a ^ (a >> 7u64);
    b ^ (b << 17u64)
}

/// The state after `k` numbers have been drawn.
pub open spec fn state_after(state: u64, k: nat) -> u64
    decreases k,
{
    if k == 0 {
        state
    } else {
        next_state(state_after(state, (k - 1) as nat))
    }
}

/// Whether the number `state` is heads.
pub open spec fn is_heads(state: u64) -> bool {
    state & 1u64 == 1u64
}

/// The number that a clock gives to start from: the low bits of its nanoseconds, or a fixed number
/// where it gives none.
pub open spec fn seed_of(nanos: Option<u128>) -> u64 {
    let low = match nanos {
        Some(nanos) => nanos as u64,
        None => 0x9e37_79b9_7f4a_7c15,
    };
    if low == 0 {
        1
    } else {
        low
    }
}

/// Whether the time since the epoch of the clock has that many nanoseconds, if there is one.
spec fn has_nanos(since: Result<Duration, SystemTimeError>, nanos: Option<u128>) -> bool {
    match since {
        Ok(passed) => nanos is Some && call_ensures(Duration::as_nanos, (&passed,), nanos->0),
        Err(_) => nanos is None,
    }
}

/// Whether the clock shows the nanoseconds since its epoch, or stands before that.
pub closed spec fn shows_nanos(nanos: Option<u128>) -> bool {
    exists|now: SystemTime, since: Result<Duration, SystemTimeError>|
        {
            &&& #[trigger] call_ensures(SystemTime::now, (), now)
            &&& #[trigger] call_ensures(since_epoch, (&now,), since)
            &&& has_nanos(since, nanos)
        }
}

impl Random {
    pub closed spec fn state(&self) -> u64 {
        self.state
    }

    pub fn with_state(state: u64) -> (random: Self)
        ensures
            random.state() == state,
    {
        Random { state }
    }

    /// Starts from the nanoseconds of a clock; never from zero, which would give nothing but zeros.
    pub fn seeded_with(nanos: Option<u128>) -> (random: Self)
        ensures
            random.state() == seed_of(nanos),
            random.state() != 0,
    {
        let seed: u64 = match nanos {
            Some(nanos) => {
                #[verifier::truncate]
                let low: u64 = nanos as u64;
                low
            },
            None => 0x9e37_79b9_7f4a_7c15,
        };
        Self::with_state(if seed == 0 {
            1
        } else {
            seed
        })
    }

    /// Starts from the time of day.
    pub fn seeded_from_clock() -> (random: Self)
        ensures
            exists|nanos: Option<u128>| #[trigger]
                shows_nanos(nanos) && random.state() == seed_of(nanos),
            random.state() != 0,
    {
        let now: SystemTime = given(SystemTime::now);
        let since: Result<Duration, SystemTimeError> = given_of(since_epoch, &now);
        let ghost read = since;
        let nanos: Option<u128> = match since {
            Ok(passed) => Some(given_of(Duration::as_nanos, &passed)),
            Err(_) => None,
        };
        proof {
            assert(call_ensures(SystemTime::now, (), now));
            assert(call_ensures(since_epoch, (&now,), read));
            assert(has_nanos(read, nanos));
            assert(shows_nanos(nanos));
        }
        Self::seeded_with(nanos)
    }

    fn next(&mut self) -> (drawn: u64)
        ensures
            final(self).state() == next_state(old(self).state()),
            drawn == final(self).state(),
    {
        let mut value: u64 = self.state;
        value = value ^ (value << 13u64);
        value = value ^ (value >> 7u64);
        value = value ^ (value << 17u64);
        self.state = value;
        value
    }

    fn index(&mut self, upper: usize) -> (index: usize)
        requires
            upper > 0,
        ensures
            final(self).state() == next_state(old(self).state()),
            index == final(self).state() as usize % upper,
            index < upper,
    {
        #[verifier::truncate]
        let drawn: usize = self.next() as usize;
        drawn % upper
    }

    fn coin_flip(&mut self) -> (heads: bool)
        ensures
            final(self).state() == next_state(old(self).state()),
            heads == is_heads(final(self).state()),
    {
        self.next() & 1 == 1
    }
}

/// The cells for which the coin shows heads, where it is thrown for one after the other.
pub open spec fn kept_cells(cells: Seq<Cell>, state: u64) -> Seq<Cell>
    decreases cells.len(),
{
    if cells.len() == 0 {
        Seq::empty()
    } else {
        let less = kept_cells(cells.drop_last(), state);
        if is_heads(state_after(state, cells.len())) {
            less.push(cells.last())
        } else {
            less
        }
    }
}

/// The move that the generator in the given state makes on the board: a node, a direction, and each
/// node of the corridor by the throw of a coin; if no node is taken that way, one of them.
pub open spec fn is_random_move(board: Board, state: u64, movement: Move) -> bool {
    let alive = alive_cells(board);
    let first = state_after(state, 1);
    let second = state_after(state, 2);
    let axis = if is_heads(second) {
        Axis::Horizontal
    } else {
        Axis::Vertical
    };
    let anchor = alive[(first as usize % alive.len() as usize) as int];
    let candidates = alive_on(board, axis, anchor.at());
    let kept = kept_cells(candidates, second);
    let last = state_after(second, candidates.len() + 1);
    &&& movement.axis == axis
    &&& movement.anchor == anchor
    &&& movement.cells@ == if kept.len() > 0 {
        kept
    } else {
        seq![candidates[(last as usize % candidates.len() as usize) as int]]
    }
}

/// How many numbers are drawn for a move on the board.
pub open spec fn draws(board: Board, state: u64) -> nat {
    let alive = alive_cells(board);
    let second = state_after(state, 2);
    let axis = if is_heads(second) {
        Axis::Horizontal
    } else {
        Axis::Vertical
    };
    let anchor = alive[(state_after(state, 1) as usize % alive.len() as usize) as int];
    let candidates = alive_on(board, axis, anchor.at());
    if kept_cells(candidates, second).len() > 0 {
        candidates.len() + 2
    } else {
        candidates.len() + 3
    }
}

proof fn lemma_states_compose(state: u64, j: nat, k: nat)
    ensures
        state_after(state_after(state, j), k) == state_after(state, j + k),
    decreases k,
{
    if k > 0 {
        lemma_states_compose(state, j, (k - 1) as nat);
    }
}

proof fn lemma_kept(cells: Seq<Cell>, state: u64)
    requires
        cells.no_duplicates(),
    ensures
        kept_cells(cells, state).no_duplicates(),
        forall|cell: Cell| #[trigger]
            kept_cells(cells, state).contains(cell) ==> cells.contains(cell),
    decreases cells.len(),
{
    if cells.len() > 0 {
        let most = cells.drop_last();
        lemma_kept(most, state);
        let less = kept_cells(most, state);
        let all = kept_cells(cells, state);
        assert forall|cell: Cell| #[trigger] all.contains(cell) implies cells.contains(cell) by {
            let i = choose|i: int| 0 <= i < all.len() && all[i] == cell;
            if i < less.len() {
                assert(less.contains(cell));
                let j = choose|j: int| 0 <= j < most.len() && most[j] == cell;
                assert(cells[j] == cell);
            } else {
                assert(cells[cells.len() - 1] == cell);
            }
        }
        assert(!less.contains(cells.last())) by {
            if less.contains(cells.last()) {
                let j = choose|j: int| 0 <= j < most.len() && most[j] == cells.last();
                assert(cells[j] == cells[cells.len() - 1]);
            }
        }
    }
}

/// Different nodes of one corridor are a move.
pub proof fn lemma_corridor_move(board: Board, axis: Axis, anchor: Cell, cells: Seq<Cell>)
    requires
        board.wf(),
        board.contains(anchor.at()),
        cells.len() > 0,
        cells.no_duplicates(),
        forall|cell: Cell| #[trigger]
            cells.contains(cell) ==> alive_on(board, axis, anchor.at()).contains(cell),
    ensures
        board.move_fault(axis, anchor, cells) is None,
{
    lemma_alive_on(board, axis, anchor.at());
    assert forall|i: int| 0 <= i < cells.len() implies #[trigger] board.cell_fault(
        axis,
        anchor,
        cells,
        i,
    ) is None by {
        assert(cells.contains(cells[i]));
        assert(alive_on(board, axis, anchor.at()).contains(cells[i]));
        if cells.take(i).contains(cells[i]) {
            let j = choose|j: int| 0 <= j < i && cells.take(i)[j] == cells[i];
            assert(cells[j] == cells[i]);
        }
    }
    lemma_all_fine(board, axis, anchor, cells, 0);
}

/// A move that chance chooses.
pub fn random_move(maze: &Maze, random: &mut Random) -> (movement: Option<Move>)
    requires
        maze.wf(),
    ensures
        movement is None <==> maze@.nodes.cells.len() == 0,
        movement is None ==> final(random).state() == old(random).state(),
        movement is Some ==> movement->0.is_legal(maze@),
        movement is Some ==> is_random_move(maze@, old(random).state(), movement->0),
        movement is Some ==> final(random).state() == state_after(
            old(random).state(),
            draws(maze@, old(random).state()),
        ),
{
    let ghost board = maze@;
    let ghost start = random.state();
    if maze.alive_count() == 0 {
        return None;
    }
    let alive: Vec<Cell> = list_alive(maze);
    let place: usize = random.index(alive.len());
    let anchor: Cell = alive[place];
    let axis: Axis = if random.coin_flip() {
        Axis::Horizontal
    } else {
        Axis::Vertical
    };
    proof {
        reveal_with_fuel(state_after, 3);
        assert(board.nodes.cells.contains(alive@[place as int].at()));
    }
    let ghost second = random.state();
    let candidates: Vec<Cell> = alive_along(maze, anchor, axis);
    let mut cells: Vec<Cell> = Vec::new();
    let mut k: usize = 0;
    proof {
        assert(candidates@.take(0) =~= Seq::empty());
    }
    while k < candidates.len()
        invariant
            k <= candidates@.len(),
            random.state() == state_after(second, k as nat),
            cells@ == kept_cells(candidates@.take(k as int), second),
        decreases candidates@.len() - k,
    {
        proof {
            assert(candidates@.take(k + 1).drop_last() =~= candidates@.take(k as int));
        }
        if random.coin_flip() {
            cells.push(candidates[k]);
        }
        k = k + 1;
    }
    proof {
        assert(candidates@.take(k as int) =~= candidates@);
        lemma_states_compose(start, 2, candidates@.len());
        lemma_states_compose(start, 2, candidates@.len() + 1);
        lemma_alive_on(board, axis, anchor.at());
        lemma_kept(candidates@, second);
        assert(candidates@.contains(anchor));
        assert(candidates@.len() == candidates.len());
    }
    if cells.len() == 0 {
        let place: usize = random.index(candidates.len());
        cells.push(candidates[place]);
        proof {
            assert(cells@ =~= seq![candidates@[place as int]]);
            assert(candidates@.contains(candidates@[place as int]));
        }
    }
    proof {
        lemma_corridor_move(board, axis, anchor, cells@);
        assert(alive@.len() == alive.len());
    }
    Some(Move { axis, anchor, cells })
}

} // verus!
