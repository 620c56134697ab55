//! What the keys do in a game: what they keep, what they change, and what one undoes of another.
use crate::board::{lemma_listed_corridor, Axis, Board, Cell, Maze, MoveError};
use crate::board_laws::{are_taken, lemma_without_takes, node_at};
use crate::corridors::{alive_along, alive_corridors, alive_on, has_start, is_corridor, list_alive};
use crate::corridors::{lemma_alive_on, lemma_start_exists, Corridor};
use crate::editor_laws::{are_opposite, stands_for};
use crate::game::{Game, Move, Player, PlayerKind};
use crate::play::{cpu_status, lemma_sweep, swept, CpuTurn, Key, Play, PlayAction, PlayStep};
use crate::selection::{lemma_without_cell, shift, Selection};
use crate::solver_moves::SolverMoveResult;
use crate::sorting::{lemma_listed, listed};
use vstd::prelude::*;

verus! {

/// Whether a cell is a node of the corridor: a cell that is listed and not taken.
pub open spec fn is_left(board: Board, corridor: Seq<Cell>, cell: Cell) -> bool {
    corridor.contains(cell) && node_at(board, cell.at())
}

/// Whether the maze lists the cells as the corridor through the cursor.
pub open spec fn is_own_corridor(play: Play, corridor: Vec<Cell>) -> bool {
    call_ensures(
        Maze::corridor,
        (&play.game.maze, play.selection.cursor, play.selection.axis),
        corridor,
    )
}

/// Whether a player can press a key and the game goes on.
pub open spec fn is_at_move(play: Play) -> bool {
    play.wf() && play.game.winner is None && !play.cpu_to_move()
}

/// The nodes that are listed along a corridor are those of its cells that are not taken, once each.
pub proof fn lemma_alive_along_is_left(
    maze: Maze,
    cell: Cell,
    axis: Axis,
    corridor: Vec<Cell>,
    alive: Vec<Cell>,
)
    requires
        maze.wf(),
        maze@.contains(cell.at()),
        call_ensures(Maze::corridor, (&maze, cell, axis), corridor),
        call_ensures(alive_along, (&maze, cell, axis), alive),
    ensures
        alive@.no_duplicates(),
        forall|other: Cell| #[trigger]
            alive@.contains(other) <==> is_left(maze@, corridor@, other),
{
    let board = maze@;
    lemma_alive_on(board, axis, cell.at());
    assert forall|other: Cell| #[trigger] alive@.contains(other) <==> is_left(
        board,
        corridor@,
        other,
    ) by {
        lemma_left_on_corridor(board, axis, cell.at(), corridor@, other);
    }
}

proof fn lemma_left_on_corridor(
    board: Board,
    axis: Axis,
    at: (int, int),
    corridor: Seq<Cell>,
    cell: Cell,
)
    requires
        board.wf(),
        board.contains(at),
        board.lists_corridor(axis, at, corridor),
    ensures
        is_left(board, corridor, cell) <==> node_at(board, cell.at()) && board.same_corridor(
            axis,
            at,
            cell.at(),
        ),
{
    if node_at(board, cell.at()) {
        lemma_listed_corridor(board, axis, at, corridor, cell);
    }
}

/// A corridor counts as fully selected if and only if it has a node left and every node that it has
/// left is selected.
pub proof fn lemma_full_means_every_node(
    maze: Maze,
    selection: Selection,
    corridor: Vec<Cell>,
    full: bool,
)
    requires
        maze.wf(),
        selection.wf(maze@),
        call_ensures(Maze::corridor, (&maze, selection.cursor, selection.axis), corridor),
        call_ensures(Selection::corridor_is_fully_selected, (&selection, &maze), full),
    ensures
        full ==> exists|cell: Cell| #[trigger] is_left(maze@, corridor@, cell),
        full ==> forall|cell: Cell| #[trigger]
            is_left(maze@, corridor@, cell) ==> selection.cells@.contains(cell),
        (exists|cell: Cell| #[trigger]
            is_left(maze@, corridor@, cell) && !selection.cells@.contains(cell)) ==> !full,
        (exists|cell: Cell| #[trigger] is_left(maze@, corridor@, cell)) && (forall|cell: Cell|
         #[trigger]
            is_left(maze@, corridor@, cell) ==> selection.cells@.contains(cell)) ==> full,
{
    lemma_full(maze@, selection, corridor@);
}

proof fn lemma_full(board: Board, selection: Selection, corridor: Seq<Cell>)
    requires
        board.wf(),
        selection.wf(board),
        board.lists_corridor(selection.axis, selection.cursor.at(), corridor),
    ensures
        crate::selection::fully_selected(board, selection) <==> (exists|cell: Cell| #[trigger]
            is_left(board, corridor, cell)) && (forall|cell: Cell| #[trigger]
            is_left(board, corridor, cell) ==> selection.cells@.contains(cell)),
{
    let axis = selection.axis;
    let at = selection.cursor.at();
    let alive = crate::corridors::alive_on(board, axis, at);
    lemma_alive_on(board, axis, at);
    assert forall|cell: Cell| #[trigger] is_left(board, corridor, cell) <==> alive.contains(cell) by {
        lemma_left_on_corridor(board, axis, at, corridor, cell);
    }
    if crate::selection::fully_selected(board, selection) {
        assert(alive.contains(alive[0]));
        assert(is_left(board, corridor, alive[0]));
        assert forall|cell: Cell| #[trigger]
            is_left(board, corridor, cell) implies selection.cells@.contains(cell) by {
            let i = choose|i: int| 0 <= i < alive.len() && alive[i] == cell;
            assert(selection.cells@.contains(alive[i]));
        }
    }
    if (exists|cell: Cell| #[trigger] is_left(board, corridor, cell)) && (forall|cell: Cell|
     #[trigger]
        is_left(board, corridor, cell) ==> selection.cells@.contains(cell)) {
        let cell = choose|cell: Cell| #[trigger] is_left(board, corridor, cell);
        assert(alive.contains(cell));
        assert forall|i: int| 0 <= i < alive.len() implies selection.cells@.contains(
            #[trigger] alive[i],
        ) by {
            assert(alive.contains(alive[i]));
            assert(is_left(board, corridor, alive[i]));
        }
    }
}

/// The space bar, pressed once, selects the node under the cursor if and only if it was not selected.
/// Where the node is taken, nothing is selected or dropped. The other nodes stay selected or not.
pub proof fn lemma_space_exchanges_one(play: &mut Play, now_millis: u64, action: PlayAction)
    requires
        is_at_move(*old(play)),
        call_ensures(Play::press, (play, Key::Char(' '), now_millis), action),
        action is Continue,
    ensures
        ({
            let cursor = old(play).selection.cursor;
            let before = old(play).selection.cells@;
            let after = final(play).selection.cells@;
            &&& node_at(old(play).game.maze@, cursor.at()) ==> (after.contains(cursor)
                <==> !before.contains(cursor))
            &&& !node_at(old(play).game.maze@, cursor.at()) ==> after == before
            &&& forall|other: Cell|
                other != cursor ==> (#[trigger] after.contains(other) <==> before.contains(other))
            &&& after.no_duplicates()
        }),
        final(play).game == old(play).game,
        final(play).selection.cursor == old(play).selection.cursor,
        final(play).selection.axis == old(play).selection.axis,
{
    lemma_exchanged_one(*old(play), final(play).selection.cells@);
}

proof fn lemma_exchanged_one(play: Play, after: Seq<Cell>)
    requires
        play.wf(),
        after == if !node_at(play.game.maze@, play.selection.cursor.at()) {
            play.selection.cells@
        } else if play.selection.cells@.contains(play.selection.cursor) {
            crate::selection::without_cell(play.selection.cells@, play.selection.cursor)
        } else {
            play.selection.cells@.push(play.selection.cursor)
        },
    ensures
        node_at(play.game.maze@, play.selection.cursor.at()) ==> (after.contains(
            play.selection.cursor,
        ) <==> !play.selection.cells@.contains(play.selection.cursor)),
        forall|other: Cell|
            other != play.selection.cursor ==> (#[trigger] after.contains(other)
                <==> play.selection.cells@.contains(other)),
{
    let cursor = play.selection.cursor;
    let before = play.selection.cells@;
    lemma_without_cell(before, cursor);
    if after == before.push(cursor) {
        assert forall|other: Cell| #[trigger] after.contains(other) <==> before.contains(other)
            || other == cursor by {
            if after.contains(other) {
                let i = choose|i: int| 0 <= i < after.len() && after[i] == other;
                if i < before.len() {
                    assert(before[i] == other);
                }
            }
            if before.contains(other) {
                let i = choose|i: int| 0 <= i < before.len() && before[i] == other;
                assert(after[i] == other);
            }
            assert(after[before.len() as int] == cursor);
        }
    }
}

/// The space bar, pressed twice within 350 milliseconds, asks for a sweep over all nodes that are left
/// on the corridor. The sweep selects if before the first press some of them was not selected; it
/// drops them only if every one of them was.
pub proof fn lemma_double_press_sweeps(
    first: &mut Play,
    second: &mut Play,
    millis: u64,
    later_millis: u64,
    action: PlayAction,
    later_action: PlayAction,
    corridor: Vec<Cell>,
)
    requires
        is_at_move(*old(first)),
        is_own_corridor(*old(first), corridor),
        call_ensures(Play::press, (first, Key::Char(' '), millis), action),
        action is Continue,
        later_millis - millis <= 350,
        *old(second) == *final(first),
        call_ensures(Play::press, (second, Key::Char(' '), later_millis), later_action),
    ensures
        later_action is Sweep,
        later_action->cells@.no_duplicates(),
        forall|cell: Cell| #[trigger]
            later_action->cells@.contains(cell) <==> is_left(
                old(first).game.maze@,
                corridor@,
                cell,
            ),
        (exists|cell: Cell| #[trigger]
            is_left(old(first).game.maze@, corridor@, cell) && !old(first).selection.cells@.contains(cell)) ==> later_action->select,
        !later_action->select ==> forall|cell: Cell| #[trigger]
            is_left(old(first).game.maze@, corridor@, cell) ==> old(first).selection.cells@.contains(
                cell,
            ),
        (exists|cell: Cell| #[trigger] is_left(old(first).game.maze@, corridor@, cell)) && (
        forall|cell: Cell| #[trigger]
            is_left(old(first).game.maze@, corridor@, cell) ==> old(first).selection.cells@.contains(
                cell,
            )) ==> !later_action->select,
        forall|cell: Cell| #[trigger]
            swept(
                final(second).selection.cells@,
                later_action->cells@,
                later_action->select,
            ).contains(cell) <==> later_action->select && is_left(
                old(first).game.maze@,
                corridor@,
                cell,
            ),
        final(second).game == old(first).game,
        final(second).selection.cursor == old(first).selection.cursor,
        final(second).selection.axis == old(first).selection.axis,
{
    let board = old(first).game.maze@;
    let selection = old(first).selection;
    let axis = selection.axis;
    let at = selection.cursor.at();
    lemma_full(board, selection, corridor@);
    lemma_alive_on(board, axis, at);
    let selected = final(second).selection.cells@;
    let cells = later_action->cells@;
    lemma_sweep(selected, cells, later_action->select);
    assert forall|cell: Cell| #[trigger] cells.contains(cell) <==> is_left(
        board,
        corridor@,
        cell,
    ) by {
        lemma_left_on_corridor(board, axis, at, corridor@, cell);
    }
    assert forall|cell: Cell| #[trigger]
        swept(selected, cells, later_action->select).contains(cell) <==> later_action->select
            && is_left(board, corridor@, cell) by {
        if selected.contains(cell) {
            lemma_left_on_corridor(board, axis, at, corridor@, cell);
            assert(cells.contains(cell));
        }
    }
}

/// The space bar, pressed twice with more than 350 milliseconds in between, asks for no sweep: the
/// second press takes back what the first one did.
pub proof fn lemma_slow_presses_take_back(
    first: &mut Play,
    second: &mut Play,
    millis: u64,
    later_millis: u64,
    action: PlayAction,
    later_action: PlayAction,
)
    requires
        is_at_move(*old(first)),
        call_ensures(Play::press, (first, Key::Char(' '), millis), action),
        action is Continue,
        later_millis - millis > 350,
        *old(second) == *final(first),
        call_ensures(Play::press, (second, Key::Char(' '), later_millis), later_action),
    ensures
        later_action is Continue,
        forall|cell: Cell| #[trigger]
            final(second).selection.cells@.contains(cell) <==> old(first).selection.cells@.contains(cell),
{
    lemma_exchanged_one(*old(first), final(first).selection.cells@);
    lemma_exchanged_one(*old(second), final(second).selection.cells@);
}

/// Whether a key ends the wait for a second press of the space bar.
pub open spec fn interrupts(key: Key) -> bool {
    ||| key == Key::Up
    ||| key == Key::Down
    ||| key == Key::Left
    ||| key == Key::Right
    ||| key == Key::Tab
    ||| key == Key::Enter
    ||| key == Key::Esc
}

/// A press of the space bar after a move of the cursor, a turn, a move or an escape is a first press,
/// however soon it comes.
pub proof fn lemma_other_keys_interrupt(
    first: &mut Play,
    second: &mut Play,
    key: Key,
    millis: u64,
    later_millis: u64,
    action: PlayAction,
    later_action: PlayAction,
)
    requires
        is_at_move(*old(first)),
        interrupts(key),
        call_ensures(Play::press, (first, key, millis), action),
        *old(second) == *final(first),
        is_at_move(*old(second)),
        call_ensures(Play::press, (second, Key::Char(' '), later_millis), later_action),
    ensures
        action is Continue,
        later_action is Continue,
{
}

/// A sweep goes from node to node: each step selects its node, or drops it, and no other.
pub proof fn lemma_sweep_step_is_one(play: &mut Play, cell: Cell, select: bool)
    requires
        old(play).wf(),
        !old(play).cpu_to_move(),
        crate::corridors::alive_on(
            old(play).game.maze@,
            old(play).selection.axis,
            old(play).selection.cursor.at(),
        ).contains(cell),
        call_ensures(Play::sweep_step, (play, cell, select), ()),
    ensures
        final(play).selection.cells@.contains(cell) == select,
        forall|other: Cell|
            other != cell ==> (#[trigger] final(play).selection.cells@.contains(other) <==> old(play).selection.cells@.contains(other)),
        final(play).game == old(play).game,
        final(play).selection.cursor == old(play).selection.cursor,
        final(play).selection.axis == old(play).selection.axis,
{
    let before = old(play).selection.cells@;
    let after = final(play).selection.cells@;
    lemma_without_cell(before, cell);
    if select && !before.contains(cell) {
        assert(after[before.len() as int] == cell);
        assert forall|other: Cell| other != cell implies (#[trigger] after.contains(other)
            <==> before.contains(other)) by {
            if after.contains(other) {
                let i = choose|i: int| 0 <= i < after.len() && after[i] == other;
                assert(before[i] == other);
            }
            if before.contains(other) {
                let i = choose|i: int| 0 <= i < before.len() && before[i] == other;
                assert(after[i] == other);
            }
        }
    }
}

/// Where an arrow takes the cursor: one place on, unless that is off the board.
pub open spec fn steps_towards(
    board: Board,
    from: (int, int),
    rows: int,
    cols: int,
    to: (int, int),
) -> bool {
    if board.contains((from.0 + rows, from.1 + cols)) {
        to == (from.0 + rows, from.1 + cols)
    } else {
        to == from
    }
}

/// The arrows take the cursor one place up, down, left or right, and not off the board. What is
/// selected stays so if and only if the cursor stays on the corridor; if it leaves it, nothing is
/// selected.
pub proof fn lemma_arrows_move_the_cursor(
    play: &mut Play,
    key: Key,
    now_millis: u64,
    action: PlayAction,
    corridor: Vec<Cell>,
)
    requires
        is_at_move(*old(play)),
        is_own_corridor(*old(play), corridor),
        key == Key::Up || key == Key::Down || key == Key::Left || key == Key::Right,
        call_ensures(Play::press, (play, key, now_millis), action),
    ensures
        ({
            let board = old(play).game.maze@;
            let from = old(play).selection.cursor.at();
            let to = final(play).selection.cursor.at();
            &&& key == Key::Up ==> steps_towards(board, from, -1, 0, to)
            &&& key == Key::Down ==> steps_towards(board, from, 1, 0, to)
            &&& key == Key::Left ==> steps_towards(board, from, 0, -1, to)
            &&& key == Key::Right ==> steps_towards(board, from, 0, 1, to)
        }),
        corridor@.contains(final(play).selection.cursor) ==> final(play).selection.cells@ == old(play).selection.cells@,
        !corridor@.contains(final(play).selection.cursor) ==> final(play).selection.cells@.len()
            == 0,
        final(play).selection.axis == old(play).selection.axis,
        final(play).game == old(play).game,
        action is Continue,
{
    lemma_listed_corridor(
        old(play).game.maze@,
        old(play).selection.axis,
        old(play).selection.cursor.at(),
        corridor@,
        final(play).selection.cursor,
    );
}

/// The letters do what the arrows do.
pub proof fn lemma_letters_are_arrows(
    play: &mut Play,
    other: &mut Play,
    letter: Key,
    arrow: Key,
    now_millis: u64,
    action: PlayAction,
    other_action: PlayAction,
)
    requires
        is_at_move(*old(play)),
        *old(other) == *old(play),
        stands_for(letter, arrow),
        call_ensures(Play::press, (play, letter, now_millis), action),
        call_ensures(Play::press, (other, arrow, now_millis), other_action),
    ensures
        final(play).selection.cursor == final(other).selection.cursor,
        final(play).selection.cells@ == final(other).selection.cells@,
        final(play).game == final(other).game,
        action is Continue,
        other_action is Continue,
{
}

/// An arrow that moved the cursor is undone by the opposite arrow.
pub proof fn lemma_opposite_arrow_goes_back(
    play: &mut Play,
    again: &mut Play,
    key: Key,
    back: Key,
    now_millis: u64,
    action: PlayAction,
    back_action: PlayAction,
)
    requires
        is_at_move(*old(play)),
        are_opposite(key, back),
        call_ensures(Play::press, (play, key, now_millis), action),
        final(play).selection.cursor != old(play).selection.cursor,
        *old(again) == *final(play),
        call_ensures(Play::press, (again, back, now_millis), back_action),
    ensures
        final(again).selection.cursor == old(play).selection.cursor,
        final(again).game == old(play).game,
{
}

/// The tabulator turns to the other corridor through the cursor, and back when it is pressed again.
/// Nothing is selected after it. Escape drops what is selected and turns nothing.
pub proof fn lemma_tab_turns(
    play: &mut Play,
    again: &mut Play,
    escaped: &mut Play,
    now_millis: u64,
    actions: (PlayAction, PlayAction, PlayAction),
)
    requires
        is_at_move(*old(play)),
        call_ensures(Play::press, (play, Key::Tab, now_millis), actions.0),
        *old(again) == *final(play),
        call_ensures(Play::press, (again, Key::Tab, now_millis), actions.1),
        *old(escaped) == *old(play),
        call_ensures(Play::press, (escaped, Key::Esc, now_millis), actions.2),
    ensures
        final(play).selection.axis != old(play).selection.axis,
        final(play).selection.cells@.len() == 0,
        final(again).selection.axis == old(play).selection.axis,
        final(again).selection.cursor == old(play).selection.cursor,
        final(again).game == old(play).game,
        final(escaped).selection.axis == old(play).selection.axis,
        final(escaped).selection.cursor == old(play).selection.cursor,
        final(escaped).selection.cells@.len() == 0,
        final(escaped).game == old(play).game,
{
}

/// Whether a move of `player` has been made: the nodes are gone; the other player is to move, or this
/// one has won, if no node is left.
pub open spec fn is_made(before: Game, player: usize, cells: Seq<Cell>, after: Game) -> bool {
    &&& are_taken(before.maze@, cells, after.maze@)
    &&& after.players == before.players
    &&& after.last_move is Some
    &&& (after.last_move->0).0 == player
    &&& (after.last_move->0).1.cells@ == cells
    &&& (forall|p: (int, int)| !#[trigger] node_at(after.maze@, p)) ==> after.winner == Some(player)
    &&& (exists|p: (int, int)| #[trigger] node_at(after.maze@, p)) ==> after.winner is None
        && after.turn < 2 && after.turn != player
}

proof fn lemma_no_nodes(board: Board)
    requires
        board.wf(),
    ensures
        board.nodes.cells.len() == 0 <==> forall|p: (int, int)| !#[trigger] node_at(board, p),
        board.nodes.cells.len() > 0 <==> exists|p: (int, int)| #[trigger] node_at(board, p),
{
    if board.nodes.cells.len() > 0 {
        assert(node_at(board, board.nodes.cells.choose()));
    } else {
        assert(board.nodes.cells =~= Set::empty());
    }
}

/// The enter key makes the move that takes exactly the selected nodes, for the player who is to move.
/// Where nothing is selected it does nothing. The cursor stays, and nothing is selected after it.
pub proof fn lemma_enter_takes_the_selected(play: &mut Play, now_millis: u64, action: PlayAction)
    requires
        is_at_move(*old(play)),
        call_ensures(Play::press, (play, Key::Enter, now_millis), action),
    ensures
        old(play).selection.cells@.len() > 0 ==> is_made(
            old(play).game,
            old(play).game.turn,
            old(play).selection.cells@,
            final(play).game,
        ),
        old(play).selection.cells@.len() == 0 ==> final(play).game == old(play).game,
        final(play).selection.cells@.len() == 0,
        final(play).selection.cursor == old(play).selection.cursor,
        final(play).selection.axis == old(play).selection.axis,
        action is Continue,
{
    lemma_without_takes(old(play).game.maze@, old(play).selection.cells@);
    lemma_no_nodes(final(play).game.maze@);
}

/// A move in a game that goes on is made for the player who is to move, or refused and changes nothing.
/// The turns alternate, and the player who takes the last node wins.
pub proof fn lemma_turns_alternate(
    game: &mut Game,
    movement: Move,
    outcome: Result<(), MoveError>,
)
    requires
        old(game).wf(),
        old(game).winner is None,
        call_ensures(Game::play, (game, movement), outcome),
    ensures
        outcome is Ok ==> is_made(
            *old(game),
            old(game).turn,
            movement.cells@,
            *final(game),
        ),
        outcome is Ok ==> movement.cells@.len() > 0,
        outcome is Err ==> final(game).maze@ == old(game).maze@ && final(game).turn == old(game).turn
            && final(game).winner is None && final(game).last_move == old(game).last_move
            && final(game).players == old(game).players,
{
    lemma_without_takes(old(game).maze@, movement.cells@);
    lemma_no_nodes(final(game).maze@);
}

/// Whether a game takes a move is for the maze to say: the outcome is that of the maze.
pub proof fn lemma_game_follows_the_maze(
    game: &mut Game,
    maze: &mut Maze,
    movement: Move,
    cells: &[Cell],
    outcome: Result<(), MoveError>,
    maze_outcome: Result<(), MoveError>,
)
    requires
        old(game).wf(),
        *old(maze) == old(game).maze,
        cells@ == movement.cells@,
        call_ensures(Game::play, (game, movement), outcome),
        call_ensures(
            Maze::apply_move,
            (maze, movement.axis, movement.anchor, cells),
            maze_outcome,
        ),
    ensures
        outcome == maze_outcome,
        final(game).maze@ == final(maze)@,
{
}

/// Two moves of two players, one after the other: the second is made by the other player.
pub proof fn lemma_players_take_turns(
    first: &mut Game,
    second: &mut Game,
    movement: Move,
    reply: Move,
    outcome: Result<(), MoveError>,
    reply_outcome: Result<(), MoveError>,
)
    requires
        old(first).wf(),
        old(first).winner is None,
        call_ensures(Game::play, (first, movement), outcome),
        *old(second) == *final(first),
        call_ensures(Game::play, (second, reply), reply_outcome),
        outcome is Ok,
        reply_outcome is Ok,
    ensures
        (final(second).last_move->0).0 != (final(first).last_move->0).0,
        final(second).winner is None ==> final(second).turn == old(first).turn,
        final(second).winner is Some ==> final(second).winner == Some((1 - old(first).turn) as usize),
{
    lemma_no_nodes(final(first).maze@);
    if final(first).winner is Some {
        let cells = reply.cells@;
        crate::game::lemma_move_takes(final(first).maze@, reply);
    }
}

/// The solver's move is made as a player's is. Where it has none or was stopped, nothing changes.
pub proof fn lemma_solver_moves_as_a_player(
    play: &mut Play,
    found: SolverMoveResult,
    turn: CpuTurn,
)
    requires
        old(play).wf(),
        old(play).cpu_to_move(),
        found matches SolverMoveResult::Move(movement) ==> movement.is_legal(
            old(play).game.maze@,
        ),
        call_ensures(Play::finish_cpu_turn, (play, found), turn),
    ensures
        found matches SolverMoveResult::Move(movement) ==> is_made(
            old(play).game,
            old(play).game.turn,
            movement.cells@,
            final(play).game,
        ),
        found !is Move ==> final(play).game == old(play).game,
        turn is Cancelled <==> found is Cancelled,
        final(play).selection == old(play).selection,
{
    if let SolverMoveResult::Move(movement) = found {
        lemma_without_takes(old(play).game.maze@, movement.cells@);
        lemma_no_nodes(final(play).game.maze@);
    }
}

/// The solver is waited for when its turn has come and the game goes on, and only then: never where two
/// people play, and always after a move of the other player that leaves nodes.
pub proof fn lemma_solver_has_its_turn(
    play: &mut Play,
    now_millis: u64,
    action: PlayAction,
    step: PlayStep,
)
    requires
        is_at_move(*old(play)),
        old(play).selection.cells@.len() > 0,
        old(play).game.turn == 0,
        call_ensures(Play::press, (play, Key::Enter, now_millis), action),
        call_ensures(Play::next_step, (final(play),), step),
    ensures
        step is CpuTurn <==> old(play).game.players[1].kind == PlayerKind::SolverCpu && exists|
            p: (int, int),
        | #[trigger] node_at(final(play).game.maze@, p),
{
    lemma_no_nodes(final(play).game.maze@);
}

/// A rematch begins with the board that the game began with, the first player and the same kind of
/// players; nothing is selected. The other keys leave a game that is over as it is.
pub proof fn lemma_rematch_starts_over(
    begun: Game,
    fresh: Play,
    play: &mut Play,
    key: Key,
    now_millis: u64,
    action: PlayAction,
)
    requires
        begun.wf(),
        begun.winner is None,
        begun.turn == 0,
        begun.players[0].kind == PlayerKind::Human,
        call_ensures(Play::new, (begun,), fresh),
        old(play).wf(),
        old(play).initial == fresh.initial,
        old(play).game.winner is Some,
        call_ensures(Play::press, (play, key, now_millis), action),
    ensures
        key == Key::Char('r') ==> {
            &&& final(play).game.maze@ == begun.maze@
            &&& final(play).game.turn == 0
            &&& final(play).game.winner is None
            &&& final(play).game.last_move is None
            &&& final(play).game.players[1].kind == old(play).game.players[1].kind
            &&& final(play).game.players[0].kind == old(play).game.players[0].kind
            &&& final(play).selection.cells@.len() == 0
            &&& final(play).selection.cursor == fresh.selection.cursor
            &&& final(play).selection.axis == fresh.selection.axis
            &&& action is Continue
        },
        key != Key::Char('r') ==> final(play).game == old(play).game && final(play).selection == old(play).selection,
        final(play).initial == old(play).initial,
        action is Menu <==> key == Key::Char('m') || key == Key::Esc,
        action is Quit <==> key == Key::Char('q'),
{
}

/// While a player is to move, each request has its key; nodes are taken by the enter key alone, and
/// no key changes the board that a rematch begins with.
pub proof fn lemma_only_enter_takes(play: &mut Play, key: Key, now_millis: u64, action: PlayAction)
    requires
        is_at_move(*old(play)),
        call_ensures(Play::press, (play, key, now_millis), action),
    ensures
        action is Menu <==> key == Key::Char('m'),
        action is Quit <==> key == Key::Char('q'),
        action is Sweep ==> key == Key::Char(' '),
        key != Key::Enter ==> final(play).game == old(play).game,
        final(play).initial == old(play).initial,
        key == Key::Char('m') || key == Key::Char('q') ==> final(play).selection == old(play).selection,
{
}

/// Two people play a game without the solver, and a game against it begins with the human player. The
/// players have different names.
pub proof fn lemma_players_of_a_game(maze: Maze, people: Game, machine: Game)
    requires
        maze.wf(),
        call_ensures(Game::human_vs_human_on, (maze,), people),
        call_ensures(Game::human_vs_cpu_on, (maze,), machine),
    ensures
        people.maze@ == maze@,
        machine.maze@ == maze@,
        people.turn == 0,
        machine.turn == 0,
        people.players[0].kind == PlayerKind::Human,
        people.players[1].kind == PlayerKind::Human,
        machine.players[0].kind == PlayerKind::Human,
        machine.players[1].kind == PlayerKind::SolverCpu,
        people.players[0].name@ != people.players[1].name@,
        machine.players[0].name@ != machine.players[1].name@,
{
    reveal_strlit("Player 1");
    reveal_strlit("Player 2");
    reveal_strlit("Human");
    reveal_strlit("CPU");
    assert(people.players[0].name@[7] != people.players[1].name@[7]);
    assert(machine.players[0].name@.len() != machine.players[1].name@.len());
}

/// How far two numbers are apart.
pub open spec fn distance(a: int, b: int) -> int {
    if a < b {
        b - a
    } else {
        a - b
    }
}

/// A step goes as far as it was asked to, or as near to that as the limit allows.
pub proof fn lemma_shift_goes_as_far_as_it_can(
    value: usize,
    delta: isize,
    limit: usize,
    moved: usize,
    other: usize,
)
    requires
        other < limit,
        call_ensures(shift, (value, delta, limit), moved),
    ensures
        moved < limit,
        distance(moved as int, value + delta) <= distance(other as int, value + delta),
{
}

/// A cursor that is moved by any number of rows and columns goes as far as the board allows, each way
/// for itself. What is selected stays so if and only if the cursor is still on the corridor.
pub proof fn lemma_cursor_goes_as_far_as_it_can(
    selection: &mut Selection,
    maze: &Maze,
    rows: isize,
    cols: isize,
    corridor: Vec<Cell>,
    other: Cell,
)
    requires
        maze.wf(),
        old(selection).wf(maze@),
        maze@.contains(other.at()),
        call_ensures(Selection::corridor, (old(selection), maze), corridor),
        call_ensures(Selection::move_cursor, (selection, maze, rows, cols), ()),
    ensures
        maze@.contains(final(selection).cursor.at()),
        distance(final(selection).cursor.row as int, old(selection).cursor.row + rows) <= distance(
            other.row as int,
            old(selection).cursor.row + rows,
        ),
        distance(final(selection).cursor.col as int, old(selection).cursor.col + cols) <= distance(
            other.col as int,
            old(selection).cursor.col + cols,
        ),
        final(selection).axis == old(selection).axis,
        corridor@.contains(final(selection).cursor) ==> final(selection).cells@ == old(selection).cells@,
        !corridor@.contains(final(selection).cursor) ==> final(selection).cells@.len() == 0,
{
    lemma_listed_corridor(
        maze@,
        old(selection).axis,
        old(selection).cursor.at(),
        corridor@,
        final(selection).cursor,
    );
}

/// A node that is selected is among the selected ones, one that is dropped is not, and no other changes.
/// Selecting it and dropping it again leaves the selected nodes as they were, if it was not among them.
pub proof fn lemma_selecting_and_dropping(
    selected: &mut Selection,
    dropped: &mut Selection,
    cell: Cell,
    other: Cell,
)
    requires
        old(selected).cells@.no_duplicates(),
        call_ensures(Selection::select_cell, (selected, cell), ()),
        *old(dropped) == *final(selected),
        call_ensures(Selection::deselect_cell, (dropped, cell), ()),
    ensures
        final(selected).cells@.contains(cell),
        other != cell ==> (final(selected).cells@.contains(other) <==> old(selected).cells@.contains(other)),
        !final(dropped).cells@.contains(cell),
        other != cell ==> (final(dropped).cells@.contains(other) <==> old(selected).cells@.contains(other)),
        final(dropped).cursor == old(selected).cursor,
        final(dropped).axis == old(selected).axis,
{
    let before = old(selected).cells@;
    let after = final(selected).cells@;
    if !before.contains(cell) {
        assert(after[before.len() as int] == cell);
        assert forall|any: Cell| any != cell implies (#[trigger] after.contains(any)
            <==> before.contains(any)) by {
            if after.contains(any) {
                let i = choose|i: int| 0 <= i < after.len() && after[i] == any;
                assert(before[i] == any);
            }
            if before.contains(any) {
                let i = choose|i: int| 0 <= i < before.len() && before[i] == any;
                assert(after[i] == any);
            }
        }
        assert(after.no_duplicates()) by {
            assert forall|i: int, j: int| 0 <= i < after.len() && 0 <= j < after.len() && i
                != j implies after[i] != after[j] by {
                if i < before.len() {
                    assert(before.contains(before[i]));
                }
                if j < before.len() {
                    assert(before.contains(before[j]));
                }
            }
        }
    }
    lemma_without_cell(after, cell);
}

/// The nodes that are left are listed row by row, each once and none left out.
pub proof fn lemma_nodes_are_listed_row_by_row(maze: Maze, alive: Vec<Cell>)
    requires
        maze.wf(),
        call_ensures(list_alive, (&maze,), alive),
    ensures
        forall|i: int, j: int|
            0 <= i < j < alive@.len() ==> (#[trigger] alive@[i]).row < (#[trigger] alive@[j]).row
                || alive@[i].row == alive@[j].row && alive@[i].col < alive@[j].col,
        forall|cell: Cell| #[trigger]
            node_at(maze@, cell.at()) <==> alive@.contains(cell),
{
    let board = maze@;
    let cols = board.cols() as int;
    let n = board.rows() * board.cols();
    let keep = crate::corridors::node_at(board);
    let list = listed(n, keep);
    lemma_listed(n, keep);
    assert forall|i: int| 0 <= i < list.len() implies (#[trigger] alive@[i]).at() == (
        list[i] as int / cols,
        list[i] as int % cols,
    ) by {
        let k = list[i] as int;
        assert(keep(k));
        assert(node_at(board, (k / cols, k % cols)));
    }
    assert forall|i: int, j: int| 0 <= i < j < alive@.len() implies (#[trigger] alive@[i]).row < (
    #[trigger] alive@[j]).row || alive@[i].row == alive@[j].row && alive@[i].col < alive@[j].col by {
        assert(list[i] < list[j]);
        vstd::arithmetic::div_mod::lemma_fundamental_div_mod(list[i] as int, cols);
        vstd::arithmetic::div_mod::lemma_fundamental_div_mod(list[j] as int, cols);
        vstd::arithmetic::div_mod::lemma_div_is_ordered(list[i] as int, list[j] as int, cols);
        assert(alive@[i].at() == (list[i] as int / cols, list[i] as int % cols));
        assert(alive@[j].at() == (list[j] as int / cols, list[j] as int % cols));
    }
    assert forall|cell: Cell| #[trigger] node_at(board, cell.at()) <==> alive@.contains(cell) by {
        if node_at(board, cell.at()) {
            let k = cell.row * cols + cell.col;
            crate::bits::lemma_flat_index(
                cell.row as int,
                cell.col as int,
                board.rows() as int,
                cols,
            );
            assert(keep(k));
            assert(list.contains(k as usize));
            let i = choose|i: int| 0 <= i < list.len() && list[i] == k as usize;
            assert(alive@[i].at() == cell.at());
            assert(alive@[i] == cell);
        }
        if alive@.contains(cell) {
            let i = choose|i: int| 0 <= i < alive@.len() && alive@[i] == cell;
            assert(node_at(board, alive@[i].at()));
        }
    }
}

/// Every node lies on one of the listed corridors of each direction, among the nodes that are left on it.
pub proof fn lemma_corridors_hold_every_node(
    maze: Maze,
    corridors: Vec<Corridor>,
    cell: Cell,
    axis: Axis,
)
    requires
        maze.wf(),
        call_ensures(alive_corridors, (&maze,), corridors),
        node_at(maze@, cell.at()),
    ensures
        exists|i: int|
            0 <= i < corridors@.len() && (#[trigger] corridors@[i]).axis == axis
                && corridors@[i].alive@.contains(cell),
        forall|i: int, j: int|
            0 <= i < corridors@.len() && 0 <= j < corridors@.len() && (
            #[trigger] corridors@[i]).axis == axis && (#[trigger] corridors@[j]).axis == axis
                && corridors@[i].alive@.contains(cell) && corridors@[j].alive@.contains(cell) ==> i
                == j,
{
    let board = maze@;
    let start = lemma_start_exists(board, axis, cell.at());
    lemma_alive_on(board, axis, start);
    assert(alive_on(board, axis, start).contains(cell));
    assert(alive_on(board, axis, start).len() > 0);
    assert(has_start(corridors@, axis, start));
    let i = choose|i: int|
        0 <= i < corridors@.len() && (#[trigger] corridors@[i]).axis == axis
            && corridors@[i].anchor.at() == start;
    assert(is_corridor(board, corridors@[i]));
    assert forall|i: int, j: int|
        0 <= i < corridors@.len() && 0 <= j < corridors@.len() && (#[trigger] corridors@[i]).axis
            == axis && (#[trigger] corridors@[j]).axis == axis && corridors@[i].alive@.contains(cell)
            && corridors@[j].alive@.contains(cell) implies i == j by {
        let a = corridors@[i].anchor.at();
        let b = corridors@[j].anchor.at();
        assert(is_corridor(board, corridors@[i]));
        assert(is_corridor(board, corridors@[j]));
        lemma_alive_on(board, axis, a);
        lemma_alive_on(board, axis, b);
        match axis {
            Axis::Horizontal => {
                if a.1 < b.1 {
                    assert(board.joined_right(b.0, b.1 - 1));
                }
                if b.1 < a.1 {
                    assert(board.joined_right(a.0, a.1 - 1));
                }
            },
            Axis::Vertical => {
                if a.0 < b.0 {
                    assert(board.joined_down(b.0 - 1, b.1));
                }
                if b.0 < a.0 {
                    assert(board.joined_down(a.0 - 1, a.1));
                }
            },
        }
        assert(a == b);
        assert(corridors@[i].anchor == corridors@[j].anchor);
    }
}

/// The solver's work is shown in a game if and only if the solver plays in it, whoever is to move.
pub proof fn lemma_panel_goes_with_the_solver(maze: Maze, people: Game, machine: Game, plays: (
    Play,
    Play,
), shows: (bool, bool))
    requires
        maze.wf(),
        call_ensures(Game::human_vs_human_on, (maze,), people),
        call_ensures(Game::human_vs_cpu_on, (maze,), machine),
        call_ensures(Play::new, (people,), plays.0),
        call_ensures(Play::new, (machine,), plays.1),
        call_ensures(Play::shows_solver_panel, (&plays.0,), shows.0),
        call_ensures(Play::shows_solver_panel, (&plays.1,), shows.1),
    ensures
        !shows.0,
        shows.1,
        plays.0.game.maze@ == maze@,
        plays.1.game.maze@ == maze@,
{
}

/// Whether a key has a meaning while a player is to move.
pub open spec fn is_game_key(key: Key) -> bool {
    match key {
        Key::Char(c) => c == 'h' || c == 'j' || c == 'k' || c == 'l' || c == ' ' || c == 'm' || c
            == 'q',
        Key::Other => false,
        _ => true,
    }
}

/// A key without a meaning does nothing: not even a second press of the space bar is spoiled by it.
pub proof fn lemma_other_keys_do_nothing(
    play: &mut Play,
    key: Key,
    now_millis: u64,
    action: PlayAction,
)
    requires
        is_at_move(*old(play)),
        !is_game_key(key),
        call_ensures(Play::press, (play, key, now_millis), action),
    ensures
        *final(play) == *old(play),
        action is Continue,
{
}

/// The players of a rematch have the names of the players of a new game of their kind.
pub proof fn lemma_rematch_keeps_the_names(
    play: &mut Play,
    maze: Maze,
    people: Game,
    machine: Game,
    now_millis: u64,
    action: PlayAction,
)
    requires
        old(play).wf(),
        old(play).game.winner is Some,
        maze.wf(),
        call_ensures(Game::human_vs_human_on, (maze,), people),
        call_ensures(Game::human_vs_cpu_on, (maze,), machine),
        call_ensures(Play::press, (play, Key::Char('r'), now_millis), action),
    ensures
        old(play).game.players[1].kind == PlayerKind::SolverCpu ==> final(play).game.players[0].name@ == machine.players[0].name@ && final(play).game.players[1].name@
            == machine.players[1].name@,
        old(play).game.players[1].kind == PlayerKind::Human ==> final(play).game.players[0].name@ == people.players[0].name@ && final(play).game.players[1].name@
            == people.players[1].name@,
{
}

/// When a node is dropped from the selection, the one that was selected last takes its place; the others
/// keep theirs.
pub proof fn lemma_last_takes_the_place(selection: &mut Selection, i: int)
    requires
        old(selection).cells@.no_duplicates(),
        0 <= i < old(selection).cells@.len(),
        call_ensures(
            Selection::deselect_cell,
            (selection, old(selection).cells@[i]),
            (),
        ),
    ensures
        final(selection).cells@.len() == old(selection).cells@.len() - 1,
        i < final(selection).cells@.len() ==> final(selection).cells@[i] == old(selection).cells@.last(),
        forall|k: int|
            0 <= k < final(selection).cells@.len() && k != i ==> #[trigger] final(selection).cells@[k] == old(selection).cells@[k],
{
    let cells = old(selection).cells@;
    cells.index_of_first_ensures(cells[i]);
    assert(crate::selection::place_of(cells, cells[i]) == i);
}

/// The move that takes the selection takes what is selected, in the order in which it was selected, from
/// the corridor through the cursor; there is none where nothing is selected. It can be made, and nothing
/// is selected after it.
pub proof fn lemma_selection_becomes_a_move(
    selection: &mut Selection,
    movement: Option<Move>,
    game: &mut Game,
    outcome: Result<(), MoveError>,
)
    requires
        old(game).wf(),
        old(selection).wf(old(game).maze@),
        call_ensures(Selection::take_move, (selection,), movement),
        movement is Some ==> call_ensures(Game::play, (game, movement->0), outcome),
    ensures
        movement is None <==> old(selection).cells@.len() == 0,
        movement is Some ==> {
            &&& movement->0.cells@ == old(selection).cells@
            &&& movement->0.axis == old(selection).axis
            &&& movement->0.anchor == old(selection).cursor
            &&& outcome is Ok
        },
        final(selection).cells@.len() == 0,
        final(selection).cursor == old(selection).cursor,
        final(selection).axis == old(selection).axis,
{
    if movement is Some {
        assert(movement->0.is_legal(old(game).maze@));
    }
}

/// A direction turned twice is the direction, and turned once it is the other. The two have different
/// names.
pub proof fn lemma_axis_turned_twice(
    axis: Axis,
    turned: Axis,
    again: Axis,
    name: &'static str,
    turned_name: &'static str,
)
    requires
        call_ensures(Axis::toggled, (axis,), turned),
        call_ensures(Axis::toggled, (turned,), again),
        call_ensures(Axis::name, (axis,), name),
        call_ensures(Axis::name, (turned,), turned_name),
    ensures
        turned != axis,
        again == axis,
        name@ != turned_name@,
{
    reveal_strlit("horizontal");
    reveal_strlit("vertical");
    assert("horizontal"@.len() == 10);
    assert("vertical"@.len() == 8);
}

/// A game waits for the solver if and only if it goes on and the player who is to move is the solver;
/// else it waits for a key.
pub proof fn lemma_step_is_whose_turn_it_is(play: Play, step: PlayStep)
    requires
        play.wf(),
        call_ensures(Play::next_step, (&play,), step),
    ensures
        step is CpuTurn <==> play.game.winner is None
            && play.game.players[play.game.turn as int].kind == PlayerKind::SolverCpu,
        step is CpuTurn || step is AwaitKey,
{
}

/// What is shown while the solver is told to stop is not what is shown while it is at work.
pub proof fn lemma_statuses_differ(cancelling: &'static str, thinking: &'static str)
    requires
        call_ensures(cpu_status, (true,), cancelling),
        call_ensures(cpu_status, (false,), thinking),
    ensures
        cancelling@ != thinking@,
{
    reveal_strlit("CPU cancelling...");
    reveal_strlit("CPU thinking... Esc/x: cancel");
    assert("CPU cancelling..."@.len() == 17);
    assert("CPU thinking... Esc/x: cancel"@.len() == 29);
}

/// A sweep ends the double press: the next press of the space bar is a first press again, however soon
/// it comes.
pub proof fn lemma_sweep_ends_the_double_press(
    play: &mut Play,
    again: &mut Play,
    millis: u64,
    later_millis: u64,
    action: PlayAction,
    later_action: PlayAction,
)
    requires
        is_at_move(*old(play)),
        call_ensures(Play::press, (play, Key::Char(' '), millis), action),
        action is Sweep,
        *old(again) == *final(play),
        call_ensures(Play::press, (again, Key::Char(' '), later_millis), later_action),
    ensures
        later_action is Continue,
        final(play).selection.cells@ == old(play).selection.cells@,
{
}

/// The games without a maze of their own are those on the built-in maze.
pub proof fn lemma_games_on_the_built_in_maze(
    maze: Maze,
    people: Game,
    people_on: Game,
    machine: Game,
    machine_on: Game,
)
    requires
        call_ensures(Maze::demo, (), maze),
        call_ensures(Game::human_vs_human, (), people),
        call_ensures(Game::human_vs_human_on, (maze,), people_on),
        call_ensures(Game::human_vs_cpu, (), machine),
        call_ensures(Game::human_vs_cpu_on, (maze,), machine_on),
    ensures
        people.maze@ == people_on.maze@,
        people.players[0].name@ == people_on.players[0].name@,
        people.players[1].name@ == people_on.players[1].name@,
        people.players[0].kind == people_on.players[0].kind,
        people.players[1].kind == people_on.players[1].kind,
        machine.maze@ == machine_on.maze@,
        machine.players[0].name@ == machine_on.players[0].name@,
        machine.players[1].name@ == machine_on.players[1].name@,
        machine.players[0].kind == machine_on.players[0].kind,
        machine.players[1].kind == machine_on.players[1].kind,
        people.turn == 0 && people.winner is None && people.last_move is None,
        machine.turn == 0 && machine.winner is None && machine.last_move is None,
{
}

/// The player who is to move is the one whose move the next one is.
pub proof fn lemma_current_player_moves(
    game: &mut Game,
    player: &Player,
    movement: Move,
)
    requires
        old(game).wf(),
        call_ensures(Game::current_player, (old(game),), player),
        call_ensures(Game::play, (game, movement), Ok::<(), MoveError>(())),
    ensures
        final(game).last_move is Some,
        *player == final(game).players[(final(game).last_move->0).0 as int],
{
}

} // verus!
