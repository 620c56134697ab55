//! The level editor: what each key does.
use crate::board::{demo_board, open_board, resized_board, with_cell, Board, Cell, Maze};
use crate::grid::countable;
use crate::matrix::BitMatrix;
use crate::play::{cursor_delta, key_delta, Key};
use crate::selection::{shift, shifted};
use vstd::prelude::*;

verus! {

/// What the cursor of the editor is on.
#[derive(Clone, Copy, Debug, PartialEq, Eq, Structural)]
pub enum EditTarget {
    Node,
    VerticalWall,
    HorizontalWall,
}

impl EditTarget {
    pub fn name(self) -> (name: &'static str)
        ensures
            name@ == target_name(self),
    {
        match self {
            Self::Node => "node",
            Self::VerticalWall => "vertical wall",
            Self::HorizontalWall => "horizontal wall",
        }
    }
}

/// The name of a target.
pub open spec fn target_name(target: EditTarget) -> Seq<char> {
    match target {
        EditTarget::Node => "node"@,
        EditTarget::VerticalWall => "vertical wall"@,
        EditTarget::HorizontalWall => "horizontal wall"@,
    }
}

/// The number of threads that the solver starts with.
pub const DEFAULT_SOLVER_THREADS: usize = 6;

/// The highest number of threads.
pub const MAX_SOLVER_THREADS: usize = 64;

/// The nimber of a board, how long it took, and the matrix that was evaluated.
#[derive(Debug)]
pub struct EvaluationReport {
    pub nimber: usize,
    pub elapsed: String,
    pub matrix_rows: usize,
    pub matrix_cols: usize,
    pub matrix_nodes: usize,
}

/// What is left to do after a key.
#[derive(Clone, Copy, Debug, PartialEq, Eq, Structural)]
pub enum EditorAction {
    Continue,
    /// To compute the nimber of the board.
    Evaluate,
    /// To forget all nimbers.
    ClearCache,
    /// To go on with another number of threads and the same nimbers.
    SetThreads(usize),
    /// To go on with or without looking for symmetries, and the same nimbers.
    SetSymmetry(bool),
    Save,
    Load,
    Menu,
    Quit,
}

/// A board under edit, and what is known of its nimber.
pub struct Editor {
    pub maze: Maze,
    pub row: usize,
    pub col: usize,
    pub target: EditTarget,
    pub solver_threads: usize,
    pub symmetry: bool,
    pub last_evaluation: Option<EvaluationReport>,
    pub nimber_is_current: bool,
    pub last_cancelled: bool,
}

/// How many rows and columns the targets have.
pub open spec fn target_size(board: Board, target: EditTarget) -> (int, int) {
    match target {
        EditTarget::Node => (board.rows() as int, board.cols() as int),
        EditTarget::VerticalWall => (board.rows() as int, board.cols() - 1),
        EditTarget::HorizontalWall => (board.rows() - 1, board.cols() as int),
    }
}

/// The target after `target`: one that the board has.
pub open spec fn next_target(board: Board, target: EditTarget) -> EditTarget {
    match target {
        EditTarget::Node => if board.cols() > 1 {
            EditTarget::VerticalWall
        } else if board.rows() > 1 {
            EditTarget::HorizontalWall
        } else {
            EditTarget::Node
        },
        EditTarget::VerticalWall => if board.rows() > 1 {
            EditTarget::HorizontalWall
        } else {
            EditTarget::Node
        },
        EditTarget::HorizontalWall => EditTarget::Node,
    }
}

/// The board with the target at a place exchanged: a node for none, a wall for none.
pub open spec fn toggled_board(board: Board, target: EditTarget, at: (int, int)) -> Board {
    match target {
        EditTarget::Node => Board {
            nodes: with_cell(board.nodes, at, !board.nodes.cells.contains(at)),
            ..board
        },
        EditTarget::VerticalWall => Board {
            vertical: with_cell(board.vertical, at, !board.vertical.has(at.0, at.1)),
            ..board
        },
        EditTarget::HorizontalWall => Board {
            horizontal: with_cell(board.horizontal, at, !board.horizontal.has(at.0, at.1)),
            ..board
        },
    }
}

/// `at`, moved into a rectangle of the given size.
pub open spec fn clamped(at: int, limit: int) -> int {
    if at < limit {
        at
    } else {
        limit - 1
    }
}

/// `size` changed by `delta`, at least one.
pub open spec fn resized_to(size: int, delta: int) -> int {
    if size + delta < 1 {
        1
    } else if size + delta > usize::MAX {
        usize::MAX as int
    } else {
        size + delta
    }
}

fn resize_by(size: usize, delta: isize) -> (resized: usize)
    ensures
        resized == resized_to(size as int, delta as int),
        resized >= 1,
{
    let sum: i128 = size as i128 + delta as i128;
    if sum < 1 {
        1
    } else if sum > usize::MAX as i128 {
        usize::MAX
    } else {
        sum as usize
    }
}

/// Whether nothing but the board and the cursor has changed, and the nimber of the board is not known.
pub open spec fn edited(before: Editor, after: Editor) -> bool {
    &&& after.solver_threads == before.solver_threads
    &&& after.symmetry == before.symmetry
    &&& after.last_evaluation == before.last_evaluation
    &&& !after.nimber_is_current
    &&& !after.last_cancelled
}

/// Whether nothing but the cursor and the target has changed.
pub open spec fn cursor_moved(before: Editor, after: Editor) -> bool {
    &&& after.maze == before.maze
    &&& after.solver_threads == before.solver_threads
    &&& after.symmetry == before.symmetry
    &&& after.last_evaluation == before.last_evaluation
    &&& after.nimber_is_current == before.nimber_is_current
    &&& after.last_cancelled == before.last_cancelled
}

/// By how much a key changes the size of the board, in rows and columns.
pub open spec fn size_delta(key: Key) -> Option<(int, int)> {
    match key {
        Key::Char(c) => if c == '+' || c == '=' {
            Some((1, 0))
        } else if c == '-' {
            Some((-1, 0))
        } else if c == '>' || c == '.' {
            Some((0, 1))
        } else if c == '<' || c == ',' {
            Some((0, -1))
        } else {
            None
        },
        _ => None,
    }
}

fn resize_delta(key: Key) -> (delta: Option<(isize, isize)>)
    ensures
        delta is Some <==> size_delta(key) is Some,
        delta is Some ==> (delta->0).0 == (size_delta(key)->0).0 && (delta->0).1 == (size_delta(
            key,
        )->0).1,
{
    match key {
        Key::Char(c) => if c == '+' || c == '=' {
            Some((1, 0))
        } else if c == '-' {
            Some((-1, 0))
        } else if c == '>' || c == '.' {
            Some((0, 1))
        } else if c == '<' || c == ',' {
            Some((0, -1))
        } else {
            None
        },
        _ => None,
    }
}

/// By how much a key changes the number of threads.
pub open spec fn thread_delta(key: Key) -> int {
    if key == Key::Char('[') {
        -1
    } else {
        1
    }
}

/// The number of threads changed by `delta`, between one and the highest number.
pub open spec fn threads_changed(threads: int, delta: int) -> int {
    if threads + delta < 1 {
        1
    } else if threads + delta > MAX_SOLVER_THREADS {
        MAX_SOLVER_THREADS as int
    } else {
        threads + delta
    }
}

/// What a key does in the editor.
pub open spec fn editor_pressed(
    before: Editor,
    key: Key,
    after: Editor,
    action: EditorAction,
) -> bool {
    let board = before.maze@;
    let at = (before.row as int, before.col as int);
    if key_delta(key) is Some {
        let size = target_size(board, before.target);
        &&& action is Continue
        &&& cursor_moved(before, after)
        &&& after.target == before.target
        &&& after.row == shifted(at.0, (key_delta(key)->0).0, size.0)
        &&& after.col == shifted(at.1, (key_delta(key)->0).1, size.1)
    } else if key == Key::Tab {
        let target = next_target(board, before.target);
        &&& action is Continue
        &&& cursor_moved(before, after)
        &&& after.target == target
        &&& after.row == clamped(at.0, target_size(board, target).0)
        &&& after.col == clamped(at.1, target_size(board, target).1)
    } else if key == Key::Char(' ') {
        &&& action is Continue
        &&& edited(before, after)
        &&& after.maze@ == toggled_board(board, before.target, at)
        &&& after.target == before.target
        &&& after.row == before.row
        &&& after.col == before.col
    } else if key == Key::Char('c') {
        &&& action is ClearCache
        &&& after.maze == before.maze
        &&& after.target == before.target
        &&& after.row == before.row
        &&& after.col == before.col
        &&& after.solver_threads == before.solver_threads
        &&& after.symmetry == before.symmetry
        &&& after.last_evaluation is None
        &&& !after.nimber_is_current
        &&& !after.last_cancelled
    } else if key == Key::Char('[') || key == Key::Char(']') {
        let threads = threads_changed(before.solver_threads as int, thread_delta(key));
        &&& after.maze == before.maze
        &&& after.target == before.target
        &&& after.row == before.row
        &&& after.col == before.col
        &&& after.symmetry == before.symmetry
        &&& after.last_evaluation == before.last_evaluation
        &&& after.nimber_is_current == before.nimber_is_current
        &&& after.solver_threads == threads
        &&& if threads == before.solver_threads {
            action is Continue && after.last_cancelled == before.last_cancelled
        } else {
            action == EditorAction::SetThreads(threads as usize) && !after.last_cancelled
        }
    } else if key == Key::Char('y') {
        &&& action == EditorAction::SetSymmetry(!before.symmetry)
        &&& after.symmetry == !before.symmetry
        &&& after.maze == before.maze
        &&& after.target == before.target
        &&& after.row == before.row
        &&& after.col == before.col
        &&& after.solver_threads == before.solver_threads
        &&& after.last_evaluation == before.last_evaluation
        &&& after.nimber_is_current == before.nimber_is_current
        &&& !after.last_cancelled
    } else if key == Key::Char('r') || key == Key::Char('o') {
        &&& action is Continue
        &&& edited(before, after)
        &&& after.maze@ == if key == Key::Char('r') {
            demo_board()
        } else {
            open_board(board.rows(), board.cols())
        }
        &&& after.target is Node
        &&& after.row == 0
        &&& after.col == 0
    } else if size_delta(key) is Some {
        let rows = resized_to(board.rows() as int, (size_delta(key)->0).0);
        let cols = resized_to(board.cols() as int, (size_delta(key)->0).1);
        &&& action is Continue
        &&& edited(before, after)
        &&& after.maze@ == if countable(rows as nat, cols as nat) {
            resized_board(board, rows as nat, cols as nat)
        } else {
            board
        }
        &&& after.target is Node
        &&& after.row == clamped(at.0, after.maze@.rows() as int)
        &&& after.col == clamped(at.1, after.maze@.cols() as int)
    } else {
        &&& after == before
        &&& if key == Key::Char('n') {
            action is Evaluate
        } else if key == Key::Char('S') {
            action is Save
        } else if key == Key::Char('L') {
            action is Load
        } else if key == Key::Char('m') || key == Key::Esc {
            action is Menu
        } else if key == Key::Char('q') {
            action is Quit
        } else {
            action is Continue
        }
    }
}

impl Editor {
    /// What holds of every editor: the cursor is on a target, and the number of threads is in range.
    pub open spec fn wf(&self) -> bool {
        &&& self.maze.wf()
        &&& self.row < target_size(self.maze@, self.target).0
        &&& self.col < target_size(self.maze@, self.target).1
        &&& 1 <= self.solver_threads <= MAX_SOLVER_THREADS
    }

    pub fn new() -> (editor: Self)
        ensures
            editor.wf(),
            editor.maze@ == demo_board(),
            editor.row == 0,
            editor.col == 0,
            editor.target is Node,
            editor.solver_threads == DEFAULT_SOLVER_THREADS,
            editor.symmetry,
            editor.last_evaluation is None,
            !editor.nimber_is_current,
            !editor.last_cancelled,
    {
        Editor {
            maze: Maze::demo(),
            row: 0,
            col: 0,
            target: EditTarget::Node,
            solver_threads: DEFAULT_SOLVER_THREADS,
            symmetry: true,
            last_evaluation: None,
            nimber_is_current: false,
            last_cancelled: false,
        }
    }

    /// How many rows and columns the targets have.
    fn target_dimensions(&self) -> (size: (usize, usize))
        requires
            self.maze.wf(),
        ensures
            size.0 == target_size(self.maze@, self.target).0,
            size.1 == target_size(self.maze@, self.target).1,
    {
        match self.target {
            EditTarget::Node => (self.maze.rows(), self.maze.cols()),
            EditTarget::VerticalWall => (self.maze.rows(), self.maze.cols() - 1),
            EditTarget::HorizontalWall => (self.maze.rows() - 1, self.maze.cols()),
        }
    }

    fn move_cursor(&mut self, row_delta: isize, col_delta: isize)
        requires
            old(self).wf(),
        ensures
            final(self).wf(),
            cursor_moved(*old(self), *final(self)),
            final(self).target == old(self).target,
            final(self).row == shifted(
                old(self).row as int,
                row_delta as int,
                target_size(old(self).maze@, old(self).target).0,
            ),
            final(self).col == shifted(
                old(self).col as int,
                col_delta as int,
                target_size(old(self).maze@, old(self).target).1,
            ),
    {
        let (rows, cols) = self.target_dimensions();
        self.row = shift(self.row, row_delta, rows);
        self.col = shift(self.col, col_delta, cols);
    }

    fn cycle_target(&mut self)
        requires
            old(self).wf(),
        ensures
            final(self).wf(),
            cursor_moved(*old(self), *final(self)),
            final(self).target == next_target(old(self).maze@, old(self).target),
            final(self).row == clamped(
                old(self).row as int,
                target_size(old(self).maze@, final(self).target).0,
            ),
            final(self).col == clamped(
                old(self).col as int,
                target_size(old(self).maze@, final(self).target).1,
            ),
    {
        let wide: bool = self.maze.cols() > 1;
        let high: bool = self.maze.rows() > 1;
        self.target = match self.target {
            EditTarget::Node => if wide {
                EditTarget::VerticalWall
            } else if high {
                EditTarget::HorizontalWall
            } else {
                EditTarget::Node
            },
            EditTarget::VerticalWall => if high {
                EditTarget::HorizontalWall
            } else {
                EditTarget::Node
            },
            EditTarget::HorizontalWall => EditTarget::Node,
        };
        self.clamp_cursor();
    }

    fn toggle_current(&mut self)
        requires
            old(self).wf(),
        ensures
            final(self).wf(),
            edited(*old(self), *final(self)),
            final(self).maze@ == toggled_board(
                old(self).maze@,
                old(self).target,
                (old(self).row as int, old(self).col as int),
            ),
            final(self).target == old(self).target,
            final(self).row == old(self).row,
            final(self).col == old(self).col,
    {
        match self.target {
            EditTarget::Node => {
                self.maze.toggle_alive(Cell::new(self.row, self.col));
            },
            EditTarget::VerticalWall => {
                self.maze.toggle_vertical_wall(self.row, self.col);
            },
            EditTarget::HorizontalWall => {
                self.maze.toggle_horizontal_wall(self.row, self.col);
            },
        }
        self.nimber_is_current = false;
        self.last_cancelled = false;
    }

    fn clear_cache(&mut self)
        requires
            old(self).wf(),
        ensures
            final(self).wf(),
            editor_pressed(
                *old(self),
                Key::Char('c'),
                *final(self),
                EditorAction::ClearCache,
            ),
    {
        self.last_evaluation = None;
        self.nimber_is_current = false;
        self.last_cancelled = false;
    }

    /// Changes the number of threads. Returns whether it is another one.
    fn adjust_solver_threads(&mut self, delta: isize) -> (changed: bool)
        requires
            old(self).wf(),
        ensures
            final(self).wf(),
            changed == (final(self).solver_threads != old(self).solver_threads),
            final(self).solver_threads == threads_changed(
                old(self).solver_threads as int,
                delta as int,
            ),
            final(self).last_cancelled == (old(self).last_cancelled && !changed),
            final(self).maze == old(self).maze,
            final(self).target == old(self).target,
            final(self).row == old(self).row,
            final(self).col == old(self).col,
            final(self).symmetry == old(self).symmetry,
            final(self).last_evaluation == old(self).last_evaluation,
            final(self).nimber_is_current == old(self).nimber_is_current,
    {
        let sum: i128 = self.solver_threads as i128 + delta as i128;
        let threads: usize = if sum < 1 {
            1
        } else if sum > MAX_SOLVER_THREADS as i128 {
            MAX_SOLVER_THREADS
        } else {
            sum as usize
        };
        if threads == self.solver_threads {
            return false;
        }
        self.solver_threads = threads;
        self.last_cancelled = false;
        true
    }

    /// Goes on with another board, at its first node.
    fn reset(&mut self, maze: Maze)
        requires
            old(self).wf(),
            maze.wf(),
        ensures
            final(self).wf(),
            edited(*old(self), *final(self)),
            final(self).maze == maze,
            final(self).target is Node,
            final(self).row == 0,
            final(self).col == 0,
    {
        self.maze = maze;
        self.row = 0;
        self.col = 0;
        self.target = EditTarget::Node;
        self.nimber_is_current = false;
        self.last_cancelled = false;
    }

    fn reset_demo(&mut self)
        requires
            old(self).wf(),
        ensures
            final(self).wf(),
            editor_pressed(*old(self), Key::Char('r'), *final(self), EditorAction::Continue),
    {
        self.reset(Maze::demo());
    }

    fn reset_open(&mut self)
        requires
            old(self).wf(),
        ensures
            final(self).wf(),
            editor_pressed(*old(self), Key::Char('o'), *final(self), EditorAction::Continue),
    {
        let rows: usize = self.maze.rows();
        let cols: usize = self.maze.cols();
        self.reset(Maze::open(rows, cols));
    }

    /// Changes the size of the board, unless a machine word could not count its nodes.
    fn resize(&mut self, row_delta: isize, col_delta: isize)
        requires
            old(self).wf(),
        ensures
            final(self).wf(),
            edited(*old(self), *final(self)),
            ({
                let board = old(self).maze@;
                let rows = resized_to(board.rows() as int, row_delta as int);
                let cols = resized_to(board.cols() as int, col_delta as int);
                final(self).maze@ == if countable(rows as nat, cols as nat) {
                    resized_board(board, rows as nat, cols as nat)
                } else {
                    board
                }
            }),
            final(self).target is Node,
            final(self).row == clamped(old(self).row as int, final(self).maze@.rows() as int),
            final(self).col == clamped(old(self).col as int, final(self).maze@.cols() as int),
    {
        let rows: usize = resize_by(self.maze.rows(), row_delta);
        let cols: usize = resize_by(self.maze.cols(), col_delta);
        if rows.checked_mul(cols).is_some() && rows.checked_add(cols).is_some() {
            self.maze = self.maze.resized(rows, cols);
        }
        self.target = EditTarget::Node;
        self.clamp_cursor();
        self.nimber_is_current = false;
        self.last_cancelled = false;
    }

    fn clamp_cursor(&mut self)
        requires
            old(self).maze.wf(),
            target_size(old(self).maze@, old(self).target).0 > 0,
            target_size(old(self).maze@, old(self).target).1 > 0,
            1 <= old(self).solver_threads <= MAX_SOLVER_THREADS,
        ensures
            final(self).wf(),
            cursor_moved(*old(self), *final(self)),
            final(self).target == old(self).target,
            final(self).row == clamped(
                old(self).row as int,
                target_size(old(self).maze@, old(self).target).0,
            ),
            final(self).col == clamped(
                old(self).col as int,
                target_size(old(self).maze@, old(self).target).1,
            ),
    {
        let (rows, cols) = self.target_dimensions();
        if self.row >= rows {
            self.row = rows - 1;
        }
        if self.col >= cols {
            self.col = cols - 1;
        }
    }

    /// What a key does.
    pub fn press(&mut self, key: Key) -> (action: EditorAction)
        requires
            old(self).wf(),
        ensures
            final(self).wf(),
            editor_pressed(*old(self), key, *final(self), action),
    {
        if let Some((row_delta, col_delta)) = cursor_delta(key) {
            self.move_cursor(row_delta, col_delta);
            return EditorAction::Continue;
        }
        if let Some((row_delta, col_delta)) = resize_delta(key) {
            self.resize(row_delta, col_delta);
            return EditorAction::Continue;
        }
        match key {
            Key::Tab => {
                self.cycle_target();
                EditorAction::Continue
            },
            Key::Esc => EditorAction::Menu,
            Key::Char(c) => self.press_char(c),
            _ => EditorAction::Continue,
        }
    }

    fn press_char(&mut self, c: char) -> (action: EditorAction)
        requires
            old(self).wf(),
            key_delta(Key::Char(c)) is None,
            size_delta(Key::Char(c)) is None,
        ensures
            final(self).wf(),
            editor_pressed(*old(self), Key::Char(c), *final(self), action),
    {
        if c == ' ' {
            self.toggle_current();
            EditorAction::Continue
        } else if c == 'n' {
            EditorAction::Evaluate
        } else if c == 'c' {
            self.clear_cache();
            EditorAction::ClearCache
        } else if c == '[' {
            if self.adjust_solver_threads(-1) {
                EditorAction::SetThreads(self.solver_threads)
            } else {
                EditorAction::Continue
            }
        } else if c == ']' {
            if self.adjust_solver_threads(1) {
                EditorAction::SetThreads(self.solver_threads)
            } else {
                EditorAction::Continue
            }
        } else if c == 'y' {
            self.symmetry = !self.symmetry;
            self.last_cancelled = false;
            EditorAction::SetSymmetry(self.symmetry)
        } else if c == 'r' {
            self.reset_demo();
            EditorAction::Continue
        } else if c == 'o' {
            self.reset_open();
            EditorAction::Continue
        } else if c == 'S' {
            EditorAction::Save
        } else if c == 'L' {
            EditorAction::Load
        } else if c == 'm' {
            EditorAction::Menu
        } else if c == 'q' {
            EditorAction::Quit
        } else {
            EditorAction::Continue
        }
    }

    /// Takes down the result of an evaluation of the matrix, or that it was cancelled.
    pub fn finish_evaluation(&mut self, matrix: &BitMatrix, nimber: Option<usize>, elapsed: String)
        requires
            old(self).wf(),
            matrix.wf(),
        ensures
            final(self).wf(),
            final(self).maze == old(self).maze,
            final(self).target == old(self).target,
            final(self).row == old(self).row,
            final(self).col == old(self).col,
            final(self).solver_threads == old(self).solver_threads,
            final(self).symmetry == old(self).symmetry,
            final(self).nimber_is_current == nimber is Some,
            final(self).last_cancelled == nimber is None,
            match nimber {
                Some(nimber) => final(self).last_evaluation matches Some(report) && report.nimber
                    == nimber && report.elapsed@ == elapsed@ && report.matrix_rows == matrix@.rows
                    && report.matrix_cols == matrix@.cols && report.matrix_nodes
                    == matrix@.cells.len(),
                None => final(self).last_evaluation == old(self).last_evaluation,
            },
    {
        match nimber {
            Some(nimber) => {
                self.last_evaluation = Some(
                    EvaluationReport {
                        nimber,
                        elapsed,
                        matrix_rows: matrix.rows(),
                        matrix_cols: matrix.cols(),
                        matrix_nodes: matrix.count_ones(),
                    },
                );
                self.nimber_is_current = true;
                self.last_cancelled = false;
            },
            None => {
                self.nimber_is_current = false;
                self.last_cancelled = true;
            },
        }
    }
}

/// Whether a key cancels an evaluation.
pub fn cancels_evaluation(key: Key) -> (cancels: bool)
    ensures
        cancels == (key == Key::Esc || key == Key::Char('x')),
{
    match key {
        Key::Esc => true,
        Key::Char(c) => c == 'x',
        _ => false,
    }
}

/// What the menu offers.
#[derive(Clone, Copy, Debug, PartialEq, Eq, Structural)]
pub enum MenuChoice {
    HumanVsHuman,
    HumanVsCpu,
    Editor,
    Quit,
}

/// What a key chooses from the menu.
pub fn menu_choice(key: Key) -> (choice: Option<MenuChoice>)
    ensures
        choice == (if key == Key::Char('1') {
            Some(MenuChoice::HumanVsHuman)
        } else if key == Key::Char('2') {
            Some(MenuChoice::HumanVsCpu)
        } else if key == Key::Char('3') {
            Some(MenuChoice::Editor)
        } else if key == Key::Char('q') || key == Key::Esc {
            Some(MenuChoice::Quit)
        } else {
            None
        }),
{
    match key {
        Key::Esc => Some(MenuChoice::Quit),
        Key::Char(c) => if c == '1' {
            Some(MenuChoice::HumanVsHuman)
        } else if c == '2' {
            Some(MenuChoice::HumanVsCpu)
        } else if c == '3' {
            Some(MenuChoice::Editor)
        } else if c == 'q' {
            Some(MenuChoice::Quit)
        } else {
            None
        },
        _ => None,
    }
}

} // verus!
