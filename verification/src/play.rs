//! A game at the keyboard: what each key does.
use crate::board::{Axis, Board, Cell, Maze};
use crate::corridors::{alive_on, lemma_alive_on};
use crate::game::{Game, Move, PlayerKind};
use crate::selection::{fully_selected, shifted, with_selected, without_cell, Selection};
use crate::solver_moves::SolverMoveResult;
use vstd::prelude::*;

verus! {

/// A key on the keyboard.
#[derive(Clone, Copy, Debug, PartialEq, Eq, Structural)]
pub enum Key {
    Up,
    Down,
    Left,
    Right,
    Tab,
    Enter,
    Esc,
    Char(char),
    Other,
}

/// A press of the space bar: when, on which corridor, and whether a second press would select.
#[derive(Debug)]
pub struct LastSpace {
    pub at_millis: u64,
    pub corridor: Vec<Cell>,
    pub sweep_select: bool,
}

/// How many milliseconds may lie between two presses of the space bar that count as a double press.
pub const DOUBLE_SPACE_WINDOW: u64 = 350;

/// What is left to do after a key.
#[derive(Debug)]
pub enum PlayAction {
    /// Nothing more.
    Continue,
    /// To select the cells one after the other, or no longer.
    Sweep { cells: Vec<Cell>, select: bool },
    Menu,
    Quit,
}

/// What a game waits for.
#[derive(Clone, Copy, Debug, PartialEq, Eq, Structural)]
pub enum PlayStep {
    AwaitKey,
    CpuTurn,
}

/// How a turn of the solver ends.
#[derive(Clone, Copy, Debug, PartialEq, Eq, Structural)]
pub enum CpuTurn {
    Played,
    Cancelled,
}

/// What a key means while the solver is at work.
#[derive(Clone, Copy, Debug, PartialEq, Eq, Structural)]
pub enum CpuKey {
    Cancel,
    Quit,
    Ignore,
}

/// A game, what is selected, and the board that it began on.
pub struct Play {
    pub game: Game,
    pub selection: Selection,
    pub last_space: Option<LastSpace>,
    pub initial: Maze,
}

/// By how much the cursor moves, in rows and columns.
pub open spec fn key_delta(key: Key) -> Option<(int, int)> {
    match key {
        Key::Up => Some((-1, 0)),
        Key::Down => Some((1, 0)),
        Key::Left => Some((0, -1)),
        Key::Right => Some((0, 1)),
        Key::Char(c) => if c == 'k' {
            Some((-1, 0))
        } else if c == 'j' {
            Some((1, 0))
        } else if c == 'h' {
            Some((0, -1))
        } else if c == 'l' {
            Some((0, 1))
        } else {
            None
        },
        _ => None,
    }
}

/// By how much a key moves a cursor.
pub fn cursor_delta(key: Key) -> (delta: Option<(isize, isize)>)
    ensures
        delta is Some <==> key_delta(key) is Some,
        delta is Some ==> (delta->0).0 == (key_delta(key)->0).0 && (delta->0).1 == (key_delta(key)->0).1,
{
    match key {
        Key::Up => Some((-1, 0)),
        Key::Down => Some((1, 0)),
        Key::Left => Some((0, -1)),
        Key::Right => Some((0, 1)),
        Key::Char(c) => if c == 'k' {
            Some((-1, 0))
        } else if c == 'j' {
            Some((1, 0))
        } else if c == 'h' {
            Some((0, -1))
        } else if c == 'l' {
            Some((0, 1))
        } else {
            None
        },
        _ => None,
    }
}

/// What the keys mean while the solver is at work.
pub fn cpu_key(key: Key) -> (meaning: CpuKey)
    ensures
        meaning == (if key == Key::Esc || key == Key::Char('x') {
            CpuKey::Cancel
        } else if key == Key::Char('q') {
            CpuKey::Quit
        } else {
            CpuKey::Ignore
        }),
{
    match key {
        Key::Esc => CpuKey::Cancel,
        Key::Char(c) => if c == 'x' {
            CpuKey::Cancel
        } else if c == 'q' {
            CpuKey::Quit
        } else {
            CpuKey::Ignore
        },
        _ => CpuKey::Ignore,
    }
}

/// What is shown while the solver is at work.
pub fn cpu_status(cancelling: bool) -> (status: &'static str)
    ensures
        status@ == (if cancelling {
            "CPU cancelling..."@
        } else {
            "CPU thinking... Esc/x: cancel"@
        }),
{
    if cancelling {
        "CPU cancelling..."
    } else {
        "CPU thinking... Esc/x: cancel"
    }
}

/// A corridor has only one list of cells.
pub proof fn lemma_corridor_unique(
    board: Board,
    axis: Axis,
    at: (int, int),
    a: Seq<Cell>,
    b: Seq<Cell>,
)
    requires
        board.lists_corridor(axis, at, a),
        board.lists_corridor(axis, at, b),
    ensures
        a == b,
{
    let first_a = match axis {
        Axis::Horizontal => a[0].col as int,
        Axis::Vertical => a[0].row as int,
    };
    let first_b = match axis {
        Axis::Horizontal => b[0].col as int,
        Axis::Vertical => b[0].row as int,
    };
    let last_a = first_a + a.len() - 1;
    let last_b = first_b + b.len() - 1;
    match axis {
        Axis::Horizontal => {
            if first_a < first_b {
                assert(board.joined_right(at.0, first_b - 1));
            }
            if first_b < first_a {
                assert(board.joined_right(at.0, first_a - 1));
            }
            if last_a < last_b {
                assert(board.joined_right(at.0, last_a));
            }
            if last_b < last_a {
                assert(board.joined_right(at.0, last_b));
            }
        },
        Axis::Vertical => {
            if first_a < first_b {
                assert(board.joined_down(first_b - 1, at.1));
            }
            if first_b < first_a {
                assert(board.joined_down(first_a - 1, at.1));
            }
            if last_a < last_b {
                assert(board.joined_down(last_a, at.1));
            }
            if last_b < last_a {
                assert(board.joined_down(last_b, at.1));
            }
        },
    }
    assert forall|i: int| 0 <= i < a.len() implies a[i] == b[i] by {
        assert(a[i].at() == b[i].at());
    }
    assert(a =~= b);
}

fn same_cells(a: &Vec<Cell>, b: &Vec<Cell>) -> (same: bool)
    ensures
        same == (a@ == b@),
{
    if a.len() != b.len() {
        return false;
    }
    let mut k: usize = 0;
    while k < a.len()
        invariant
            a@.len() == b@.len(),
            k <= a@.len(),
            forall|i: int| 0 <= i < k ==> #[trigger] a@[i] == b@[i],
        decreases a@.len() - k,
    {
        if a[k] != b[k] {
            return false;
        }
        k = k + 1;
    }
    proof {
        assert(a@ =~= b@);
    }
    true
}

/// Whether a press of the space bar now is the second of a double press.
pub open spec fn is_double_space(play: Play, now_millis: u64) -> bool {
    &&& play.last_space is Some
    &&& now_millis - play.last_space->0.at_millis <= DOUBLE_SPACE_WINDOW
    &&& play.game.maze@.lists_corridor(
        play.selection.axis,
        play.selection.cursor.at(),
        play.last_space->0.corridor@,
    )
}

/// Whether the game, the selection and the first board stay.
pub open spec fn stays(before: Play, after: Play) -> bool {
    &&& after.game == before.game
    &&& after.selection == before.selection
    &&& after.initial == before.initial
}

/// What a key does when the game is over: a rematch, or away from the game.
pub open spec fn pressed_after_game(
    before: Play,
    key: Key,
    after: Play,
    action: PlayAction,
) -> bool {
    if key == Key::Char('r') {
        &&& action is Continue
        &&& after.game.is_fresh(before.initial@)
        &&& after.game.players[0].kind == PlayerKind::Human
        &&& after.game.players[1].kind == before.game.players[1].kind
        &&& if before.game.players[1].kind == PlayerKind::SolverCpu {
            after.game.players[0].name@ == "Human"@ && after.game.players[1].name@ == "CPU"@
        } else {
            after.game.players[0].name@ == "Player 1"@ && after.game.players[1].name@
                == "Player 2"@
        }
        &&& after.selection.cursor == (Cell { row: 0, col: 0 })
        &&& after.selection.axis == Axis::Horizontal
        &&& after.selection.cells@.len() == 0
        &&& after.last_space is None
    } else {
        &&& stays(before, after)
        &&& after.last_space == before.last_space
        &&& if key == Key::Char('m') || key == Key::Esc {
            action is Menu
        } else if key == Key::Char('q') {
            action is Quit
        } else {
            action is Continue
        }
    }
}

/// What the space bar does: the first press selects the node under the cursor, or no longer; the second
/// asks for the whole corridor.
pub open spec fn pressed_space(
    before: Play,
    now_millis: u64,
    after: Play,
    action: PlayAction,
) -> bool {
    let board = before.game.maze@;
    let cursor = before.selection.cursor;
    &&& after.game == before.game
    &&& after.selection.cursor == cursor
    &&& after.selection.axis == before.selection.axis
    &&& if is_double_space(before, now_millis) {
        &&& after.selection.cells == before.selection.cells
        &&& after.last_space is None
        &&& action matches PlayAction::Sweep { cells, select } && cells@ == alive_on(
            board,
            before.selection.axis,
            cursor.at(),
        ) && select == before.last_space->0.sweep_select
    } else {
        &&& action is Continue
        &&& after.selection.cells@ == if !board.nodes.cells.contains(cursor.at()) {
            before.selection.cells@
        } else if before.selection.cells@.contains(cursor) {
            without_cell(before.selection.cells@, cursor)
        } else {
            before.selection.cells@.push(cursor)
        }
        &&& after.last_space matches Some(last) && last.at_millis == now_millis
            && last.sweep_select == !fully_selected(board, before.selection)
            && board.lists_corridor(before.selection.axis, cursor.at(), last.corridor@)
    }
}

/// What the enter key does: it takes the selected nodes, if there are any.
pub open spec fn pressed_enter(before: Play, after: Play) -> bool {
    let board = before.game.maze@;
    let taken = crate::board::places(before.selection.cells@);
    &&& after.selection.cursor == before.selection.cursor
    &&& after.selection.axis == before.selection.axis
    &&& after.selection.cells@.len() == 0
    &&& after.last_space is None
    &&& after.game.players == before.game.players
    &&& if before.selection.cells@.len() == 0 {
        after.game == before.game
    } else {
        &&& after.game.maze@ == board.without(taken)
        &&& after.game.last_move matches Some((player, movement)) && player == before.game.turn
            && movement.axis == before.selection.axis && movement.anchor == before.selection.cursor
            && movement.cells@ == before.selection.cells@
        &&& if after.game.maze@.nodes.cells.len() == 0 {
            after.game.winner == Some(before.game.turn) && after.game.turn == before.game.turn
        } else {
            after.game.winner is None && after.game.turn == 1 - before.game.turn
        }
    }
}

/// What a key does while a player is to move.
pub open spec fn pressed_in_game(
    before: Play,
    key: Key,
    now_millis: u64,
    after: Play,
    action: PlayAction,
) -> bool {
    let board = before.game.maze@;
    if key_delta(key) is Some {
        &&& action is Continue
        &&& after.game == before.game
        &&& after.last_space is None
        &&& after.selection.axis == before.selection.axis
        &&& after.selection.cursor.row == shifted(
            before.selection.cursor.row as int,
            (key_delta(key)->0).0,
            board.rows() as int,
        )
        &&& after.selection.cursor.col == shifted(
            before.selection.cursor.col as int,
            (key_delta(key)->0).1,
            board.cols() as int,
        )
        &&& after.selection.cells@ == if board.same_corridor(
            before.selection.axis,
            before.selection.cursor.at(),
            after.selection.cursor.at(),
        ) {
            before.selection.cells@
        } else {
            Seq::<Cell>::empty()
        }
    } else if key == Key::Tab {
        &&& action is Continue
        &&& after.game == before.game
        &&& after.last_space is None
        &&& after.selection.cursor == before.selection.cursor
        &&& after.selection.axis != before.selection.axis
        &&& after.selection.cells@.len() == 0
    } else if key == Key::Char(' ') {
        pressed_space(before, now_millis, after, action)
    } else if key == Key::Enter {
        action is Continue && pressed_enter(before, after)
    } else if key == Key::Esc {
        &&& action is Continue
        &&& after.game == before.game
        &&& after.last_space is None
        &&& after.selection.cursor == before.selection.cursor
        &&& after.selection.axis == before.selection.axis
        &&& after.selection.cells@.len() == 0
    } else {
        &&& stays(before, after)
        &&& after.last_space == before.last_space
        &&& if key == Key::Char('m') {
            action is Menu
        } else if key == Key::Char('q') {
            action is Quit
        } else {
            action is Continue
        }
    }
}

impl Play {
    /// What holds of every game at the keyboard: what is selected can be taken, and nothing is
    /// selected while the solver is to move.
    pub open spec fn wf(&self) -> bool {
        &&& self.game.wf()
        &&& self.initial.wf()
        &&& self.selection.wf(self.game.maze@)
        &&& self.cpu_to_move() ==> self.selection.cells@.len() == 0
        &&& self.game.players[0].kind == PlayerKind::Human
    }

    /// Whether the solver is to move.
    pub open spec fn cpu_to_move(&self) -> bool {
        self.game.winner is None && self.game.players[self.game.turn as int].kind
            == PlayerKind::SolverCpu
    }

    /// Begins a game.
    pub fn new(game: Game) -> (play: Self)
        requires
            game.wf(),
            game.winner is None,
            game.turn == 0,
            game.players[0].kind == PlayerKind::Human,
        ensures
            play.wf(),
            play.game == game,
            play.initial@ == game.maze@,
            play.selection.cursor == (Cell { row: 0, col: 0 }),
            play.selection.axis == Axis::Horizontal,
            play.selection.cells@.len() == 0,
            play.last_space is None,
    {
        let initial: Maze = game.maze.clone();
        Play { game, selection: Selection::new(), last_space: None, initial }
    }

    /// Whether the solver's work is shown: if it takes part.
    pub fn shows_solver_panel(&self) -> (shows: bool)
        ensures
            shows == (self.game.players[0].kind == PlayerKind::SolverCpu
                || self.game.players[1].kind == PlayerKind::SolverCpu),
    {
        self.game.players[0].kind == PlayerKind::SolverCpu || self.game.players[1].kind
            == PlayerKind::SolverCpu
    }

    /// What the game waits for.
    pub fn next_step(&self) -> (step: PlayStep)
        requires
            self.wf(),
        ensures
            step == (if self.cpu_to_move() {
                PlayStep::CpuTurn
            } else {
                PlayStep::AwaitKey
            }),
    {
        if self.game.winner.is_some() {
            return PlayStep::AwaitKey;
        }
        if self.game.current_player().kind == PlayerKind::SolverCpu {
            PlayStep::CpuTurn
        } else {
            PlayStep::AwaitKey
        }
    }

    /// What a key does, pressed at the given time, unless the solver is to move.
    pub fn press(&mut self, key: Key, now_millis: u64) -> (action: PlayAction)
        requires
            old(self).wf(),
            !old(self).cpu_to_move(),
        ensures
            final(self).wf(),
            final(self).initial == old(self).initial,
            old(self).game.winner is Some ==> pressed_after_game(
                *old(self),
                key,
                *final(self),
                action,
            ),
            old(self).game.winner is None ==> pressed_in_game(
                *old(self),
                key,
                now_millis,
                *final(self),
                action,
            ),
    {
        if self.game.winner.is_some() {
            return self.press_after_game(key);
        }
        if let Some((row_delta, col_delta)) = cursor_delta(key) {
            self.selection.move_cursor(&self.game.maze, row_delta, col_delta);
            self.last_space = None;
            return PlayAction::Continue;
        }
        match key {
            Key::Tab => {
                self.selection.toggle_axis();
                self.last_space = None;
                PlayAction::Continue
            },
            Key::Enter => {
                self.press_enter();
                PlayAction::Continue
            },
            Key::Esc => {
                self.selection.clear();
                self.last_space = None;
                PlayAction::Continue
            },
            Key::Char(c) => if c == ' ' {
                self.press_space(now_millis)
            } else if c == 'm' {
                PlayAction::Menu
            } else if c == 'q' {
                PlayAction::Quit
            } else {
                PlayAction::Continue
            },
            _ => PlayAction::Continue,
        }
    }

    fn press_after_game(&mut self, key: Key) -> (action: PlayAction)
        requires
            old(self).wf(),
            old(self).game.winner is Some,
        ensures
            final(self).wf(),
            final(self).initial == old(self).initial,
            pressed_after_game(*old(self), key, *final(self), action),
    {
        match key {
            Key::Esc => PlayAction::Menu,
            Key::Char(c) => if c == 'r' {
                let maze: Maze = self.initial.clone();
                let game: Game = if self.game.players[1].kind == PlayerKind::SolverCpu {
                    Game::human_vs_cpu_on(maze)
                } else {
                    Game::human_vs_human_on(maze)
                };
                self.game = game;
                self.selection = Selection::new();
                self.last_space = None;
                PlayAction::Continue
            } else if c == 'm' {
                PlayAction::Menu
            } else if c == 'q' {
                PlayAction::Quit
            } else {
                PlayAction::Continue
            },
            _ => PlayAction::Continue,
        }
    }

    fn press_space(&mut self, now_millis: u64) -> (action: PlayAction)
        requires
            old(self).wf(),
            old(self).game.winner is None,
            !old(self).cpu_to_move(),
        ensures
            final(self).wf(),
            final(self).initial == old(self).initial,
            pressed_space(*old(self), now_millis, *final(self), action),
    {
        let corridor: Vec<Cell> = self.selection.corridor(&self.game.maze);
        let ghost board = self.game.maze@;
        let ghost at = self.selection.cursor.at();
        let double: Option<bool> = match &self.last_space {
            Some(last) => {
                proof {
                    if board.lists_corridor(self.selection.axis, at, last.corridor@) {
                        lemma_corridor_unique(
                            board,
                            self.selection.axis,
                            at,
                            last.corridor@,
                            corridor@,
                        );
                    }
                }
                if now_millis.saturating_sub(last.at_millis) <= DOUBLE_SPACE_WINDOW && same_cells(
                    &last.corridor,
                    &corridor,
                ) {
                    Some(last.sweep_select)
                } else {
                    None
                }
            },
            None => None,
        };
        match double {
            Some(select) => {
                let cells: Vec<Cell> = self.selection.alive_corridor(&self.game.maze);
                self.last_space = None;
                PlayAction::Sweep { cells, select }
            },
            None => {
                let full: bool = self.selection.corridor_is_fully_selected(&self.game.maze);
                self.selection.toggle_current(&self.game.maze);
                self.last_space = Some(
                    LastSpace { at_millis: now_millis, corridor, sweep_select: !full },
                );
                PlayAction::Continue
            },
        }
    }

    fn press_enter(&mut self)
        requires
            old(self).wf(),
            old(self).game.winner is None,
            !old(self).cpu_to_move(),
        ensures
            final(self).wf(),
            final(self).initial == old(self).initial,
            pressed_enter(*old(self), *final(self)),
    {
        if let Some(movement) = self.selection.take_move() {
            proof {
                assert(movement.is_legal(self.game.maze@));
            }
            let _outcome = self.game.play(movement);
        }
        self.last_space = None;
    }

    /// Selects a node of the corridor through the cursor, or no longer.
    pub fn sweep_step(&mut self, cell: Cell, select: bool)
        requires
            old(self).wf(),
            !old(self).cpu_to_move(),
            alive_on(
                old(self).game.maze@,
                old(self).selection.axis,
                old(self).selection.cursor.at(),
            ).contains(cell),
        ensures
            final(self).wf(),
            final(self).game == old(self).game,
            final(self).initial == old(self).initial,
            final(self).last_space == old(self).last_space,
            final(self).selection.cursor == old(self).selection.cursor,
            final(self).selection.axis == old(self).selection.axis,
            final(self).selection.cells@ == if select {
                with_selected(old(self).selection.cells@, cell)
            } else {
                without_cell(old(self).selection.cells@, cell)
            },
    {
        proof {
            lemma_alive_on(self.game.maze@, self.selection.axis, self.selection.cursor.at());
        }
        if select {
            self.selection.select_cell(cell);
        } else {
            self.selection.deselect_cell(cell);
        }
    }

    /// Ends a turn of the solver.
    pub fn finish_cpu_turn(&mut self, found: SolverMoveResult) -> (turn: CpuTurn)
        requires
            old(self).wf(),
            old(self).cpu_to_move(),
            found matches SolverMoveResult::Move(movement) ==> movement.is_legal(
                old(self).game.maze@,
            ),
        ensures
            final(self).wf(),
            final(self).initial == old(self).initial,
            final(self).selection == old(self).selection,
            final(self).last_space == old(self).last_space,
            final(self).game.players == old(self).game.players,
            turn == (if found is Cancelled {
                CpuTurn::Cancelled
            } else {
                CpuTurn::Played
            }),
            match found {
                SolverMoveResult::Move(movement) => {
                    &&& final(self).game.maze@ == movement.after(old(self).game.maze@)
                    &&& final(self).game.last_move == Some((old(self).game.turn, movement))
                    &&& if final(self).game.maze@.nodes.cells.len() == 0 {
                        final(self).game.winner == Some(old(self).game.turn)
                            && final(self).game.turn == old(self).game.turn
                    } else {
                        final(self).game.winner is None && final(self).game.turn == 1 - old(
                            self,
                        ).game.turn
                    }
                },
                _ => final(self).game == old(self).game,
            },
    {
        match found {
            SolverMoveResult::Move(movement) => {
                let _outcome = self.game.play(movement);
                CpuTurn::Played
            },
            SolverMoveResult::NoMove => CpuTurn::Played,
            SolverMoveResult::Cancelled => CpuTurn::Cancelled,
        }
    }
}

/// What is selected after a sweep over the cells.
pub open spec fn swept(selected: Seq<Cell>, cells: Seq<Cell>, select: bool) -> Seq<Cell>
    decreases cells.len(),
{
    if cells.len() == 0 {
        selected
    } else {
        let before = swept(selected, cells.drop_last(), select);
        if select {
            with_selected(before, cells.last())
        } else {
            without_cell(before, cells.last())
        }
    }
}

/// A sweep selects all cells that it goes over, or none of them.
pub proof fn lemma_sweep(selected: Seq<Cell>, cells: Seq<Cell>, select: bool)
    requires
        selected.no_duplicates(),
    ensures
        swept(selected, cells, select).no_duplicates(),
        forall|cell: Cell| #[trigger]
            swept(selected, cells, select).contains(cell) <==> if select {
                selected.contains(cell) || cells.contains(cell)
            } else {
                selected.contains(cell) && !cells.contains(cell)
            },
    decreases cells.len(),
{
    if cells.len() > 0 {
        let most = cells.drop_last();
        let last = cells.last();
        lemma_sweep(selected, most, select);
        let before = swept(selected, most, select);
        let after = swept(selected, cells, select);
        crate::selection::lemma_without_cell(before, last);
        assert forall|cell: Cell| #[trigger] cells.contains(cell) <==> most.contains(cell) || cell
            == last by {
            if cells.contains(cell) {
                let i = choose|i: int| 0 <= i < cells.len() && cells[i] == cell;
                if i < most.len() {
                    assert(most[i] == cell);
                }
            }
            if most.contains(cell) {
                let i = choose|i: int| 0 <= i < most.len() && most[i] == cell;
                assert(cells[i] == cell);
            }
            assert(cells[cells.len() - 1] == last);
        }
        if select && !before.contains(last) {
            assert forall|cell: Cell| #[trigger] after.contains(cell) <==> before.contains(cell)
                || cell == last by {
                if after.contains(cell) {
                    let i = choose|i: int| 0 <= i < after.len() && after[i] == cell;
                    if i < before.len() {
                        assert(before[i] == cell);
                    }
                }
                if before.contains(cell) {
                    let i = choose|i: int| 0 <= i < before.len() && before[i] == cell;
                    assert(after[i] == cell);
                }
                assert(after[after.len() - 1] == last);
            }
        }
    }
}

/// A sweep over the nodes of a corridor selects them all, or leaves none selected.
pub proof fn lemma_full_sweep(board: Board, axis: Axis, at: (int, int), selected: Seq<Cell>)
    requires
        board.wf(),
        board.contains(at),
        crate::selection::are_corridor_nodes(board, axis, at, selected),
    ensures
        forall|cell: Cell| #[trigger]
            swept(selected, alive_on(board, axis, at), true).contains(cell) <==> alive_on(
                board,
                axis,
                at,
            ).contains(cell),
        swept(selected, alive_on(board, axis, at), false).len() == 0,
{
    let alive = alive_on(board, axis, at);
    lemma_alive_on(board, axis, at);
    lemma_sweep(selected, alive, true);
    lemma_sweep(selected, alive, false);
    let none = swept(selected, alive, false);
    if none.len() > 0 {
        assert(none.contains(none[0]));
        assert(selected.contains(none[0]));
        assert(alive.contains(none[0]));
    }
}

} // verus!
