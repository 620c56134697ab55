//! What the screen shows: pieces of text in colours, from top to bottom.
use crate::board::{lemma_listed_corridor, lists_cell, Axis, Board, Cell, Maze};
use crate::editor::{target_name, EditTarget, Editor};
use crate::game::Game;
use crate::selection::Selection;
use crate::stats::EvaluatorStats;
use crate::text::{append_number, decimal, inked, plain, put, put_string, shown, Ink, Piece, Span};
use vstd::prelude::*;

verus! {

/// The end of a line.
pub open spec fn line_end() -> Piece {
    plain("\r\n"@)
}

/// The line between two rows of nodes, up to column `k`.
pub open spec fn boundary_part(
    below: spec_fn(Option<int>, int) -> Piece,
    above: Option<int>,
    k: int,
) -> Seq<Piece>
    decreases k,
{
    if k <= 0 {
        seq![plain("+"@)]
    } else {
        boundary_part(below, above, k - 1) + seq![below(above, k - 1), plain("+"@)]
    }
}

/// The line below row `above`, or the line at the top.
pub open spec fn boundary_line(
    below: spec_fn(Option<int>, int) -> Piece,
    above: Option<int>,
    cols: int,
) -> Seq<Piece> {
    boundary_part(below, above, cols).push(line_end())
}

/// A row of nodes, up to column `k`.
pub open spec fn row_part(
    node: spec_fn(int, int) -> Piece,
    right: spec_fn(int, int) -> Piece,
    r: int,
    k: int,
) -> Seq<Piece>
    decreases k,
{
    if k <= 0 {
        seq![plain("│"@)]
    } else {
        row_part(node, right, r, k - 1) + seq![
            plain(" "@),
            node(r, k - 1),
            plain(" "@),
            right(r, k - 1),
        ]
    }
}

/// A row of nodes.
pub open spec fn row_line(
    node: spec_fn(int, int) -> Piece,
    right: spec_fn(int, int) -> Piece,
    r: int,
    cols: int,
) -> Seq<Piece> {
    row_part(node, right, r, cols).push(line_end())
}

/// How the nodes and walls of a board are shown.
pub struct Look {
    pub node: spec_fn(int, int) -> Piece,
    pub right: spec_fn(int, int) -> Piece,
    pub below: spec_fn(Option<int>, int) -> Piece,
}

/// The board from the top down to row `k`, without the line at the bottom.
pub open spec fn board_part(look: Look, rows: int, cols: int, k: int) -> Seq<Piece>
    decreases k,
{
    if k <= 0 {
        boundary_line(look.below, None, cols)
    } else {
        board_part(look, rows, cols, k - 1) + row_line(look.node, look.right, k - 1, cols) + if k
            < rows {
            boundary_line(look.below, Some(k - 1), cols)
        } else {
            Seq::empty()
        }
    }
}

/// The board.
pub open spec fn board_frame(look: Look, rows: int, cols: int) -> Seq<Piece> {
    board_part(look, rows, cols, rows) + boundary_line(look.below, Some(rows - 1), cols)
}

/// Whether there is a wall below row `above`: on the border there always is.
pub open spec fn walled_below(board: Board, above: Option<int>, c: int) -> bool {
    above is None || !board.joined_down(above->0, c)
}

/// A wall between two rows, or none.
pub open spec fn plain_below(board: Board) -> spec_fn(Option<int>, int) -> Piece {
    |above: Option<int>, c: int|
        plain(
            if walled_below(board, above, c) {
                "───"@
            } else {
                "   "@
            },
        )
}

/// A wall between two columns, or none.
pub open spec fn plain_right(board: Board) -> spec_fn(int, int) -> Piece {
    |r: int, c: int|
        plain(
            if board.joined_right(r, c) {
                " "@
            } else {
                "│"@
            },
        )
}

/// A node during a game: selected, under the cursor, on the corridor, elsewhere, or taken.
pub open spec fn game_node(
    board: Board,
    axis: Axis,
    cursor: Cell,
    cells: Seq<Cell>,
) -> spec_fn(int, int) -> Piece {
    |r: int, c: int|
        {
            let cell = Cell { row: r as usize, col: c as usize };
            let alive = board.nodes.cells.contains((r, c));
            if cells.contains(cell) {
                inked(Ink::Yellow, "◆"@)
            } else if cursor == cell {
                inked(
                    Ink::White,
                    if alive {
                        "◉"@
                    } else {
                        "⊗"@
                    },
                )
            } else if !alive {
                inked(Ink::DarkGrey, "×"@)
            } else if board.same_corridor(axis, cursor.at(), (r, c)) {
                inked(Ink::DarkCyan, "●"@)
            } else {
                inked(Ink::Green, "•"@)
            }
        }
}

/// How the board is shown during a game.
pub open spec fn game_look(board: Board, axis: Axis, cursor: Cell, cells: Seq<Cell>) -> Look {
    Look {
        node: game_node(board, axis, cursor, cells),
        right: plain_right(board),
        below: plain_below(board),
    }
}

/// A node in the editor: under the cursor, alive, or taken.
pub open spec fn editor_node(board: Board, target: EditTarget, at: (int, int)) -> spec_fn(
    int,
    int,
) -> Piece {
    |r: int, c: int|
        {
            let alive = board.nodes.cells.contains((r, c));
            if target is Node && at == (r, c) {
                inked(
                    Ink::White,
                    if alive {
                        "◉"@
                    } else {
                        "⊗"@
                    },
                )
            } else if alive {
                inked(Ink::Green, "•"@)
            } else {
                inked(Ink::DarkGrey, "×"@)
            }
        }
}

/// A wall between two columns in the editor, perhaps under the cursor.
pub open spec fn editor_right(board: Board, target: EditTarget, at: (int, int)) -> spec_fn(
    int,
    int,
) -> Piece {
    |r: int, c: int|
        if target is VerticalWall && at == (r, c) && c + 1 < board.cols() {
            inked(
                Ink::Yellow,
                if board.joined_right(r, c) {
                    "╎"@
                } else {
                    "┃"@
                },
            )
        } else {
            plain_right(board)(r, c)
        }
}

/// A wall between two rows in the editor, perhaps under the cursor.
pub open spec fn editor_below(board: Board, target: EditTarget, at: (int, int)) -> spec_fn(
    Option<int>,
    int,
) -> Piece {
    |above: Option<int>, c: int|
        if target is HorizontalWall && above == Some(at.0) && at.1 == c && at.0 + 1 < board.rows() {
            inked(
                Ink::Yellow,
                if walled_below(board, above, c) {
                    "━━━"@
                } else {
                    "┄┄┄"@
                },
            )
        } else {
            plain_below(board)(above, c)
        }
}

/// How the board is shown in the editor.
pub open spec fn editor_look(board: Board, target: EditTarget, at: (int, int)) -> Look {
    Look {
        node: editor_node(board, target, at),
        right: editor_right(board, target, at),
        below: editor_below(board, target, at),
    }
}

/// What is drawn on: a board as it looks in a game or in the editor.
enum Canvas<'a> {
    Game { selection: &'a Selection, corridor: &'a Vec<Cell> },
    Editor { target: EditTarget, row: usize, col: usize },
}

/// How the canvas looks.
spec fn canvas_look(board: Board, canvas: Canvas) -> Look {
    match canvas {
        Canvas::Game { selection, corridor: _ } => game_look(
            board,
            selection.axis,
            selection.cursor,
            selection.cells@,
        ),
        Canvas::Editor { target, row, col } => editor_look(
            board,
            target,
            (row as int, col as int),
        ),
    }
}

/// Whether the canvas knows the corridor through the cursor.
spec fn canvas_wf(board: Board, canvas: Canvas) -> bool {
    match canvas {
        Canvas::Game { selection, corridor } => board.contains(selection.cursor.at())
            && board.lists_corridor(selection.axis, selection.cursor.at(), corridor@),
        Canvas::Editor { target: _, row: _, col: _ } => true,
    }
}

fn draw_node(frame: &mut Vec<Span>, maze: &Maze, canvas: &Canvas, cell: Cell)
    requires
        maze.wf(),
        canvas_wf(maze@, *canvas),
        maze@.contains(cell.at()),
    ensures
        shown(final(frame)@) == shown(old(frame)@).push(
            (canvas_look(maze@, *canvas).node)(cell.row as int, cell.col as int),
        ),
{
    let alive: bool = maze.is_alive(cell);
    match canvas {
        Canvas::Game { selection, corridor } => {
            proof {
                lemma_listed_corridor(
                    maze@,
                    selection.axis,
                    selection.cursor.at(),
                    corridor@,
                    cell,
                );
            }
            if lists_cell(selection.cells.as_slice(), selection.cells.len(), cell) {
                put(frame, Ink::Yellow, "◆");
            } else if selection.cursor == cell {
                if alive {
                    put(frame, Ink::White, "◉");
                } else {
                    put(frame, Ink::White, "⊗");
                }
            } else if !alive {
                put(frame, Ink::DarkGrey, "×");
            } else if lists_cell(corridor.as_slice(), corridor.len(), cell) {
                put(frame, Ink::DarkCyan, "●");
            } else {
                put(frame, Ink::Green, "•");
            }
        },
        Canvas::Editor { target, row, col } => {
            if *target == EditTarget::Node && *row == cell.row && *col == cell.col {
                if alive {
                    put(frame, Ink::White, "◉");
                } else {
                    put(frame, Ink::White, "⊗");
                }
            } else if alive {
                put(frame, Ink::Green, "•");
            } else {
                put(frame, Ink::DarkGrey, "×");
            }
        },
    }
}

fn draw_right(frame: &mut Vec<Span>, maze: &Maze, canvas: &Canvas, cell: Cell)
    requires
        maze.wf(),
        maze@.contains(cell.at()),
    ensures
        shown(final(frame)@) == shown(old(frame)@).push(
            (canvas_look(maze@, *canvas).right)(cell.row as int, cell.col as int),
        ),
{
    let joined: bool = maze.connected_right(cell.row, cell.col);
    if let Canvas::Editor { target, row, col } = canvas {
        if *target == EditTarget::VerticalWall && *row == cell.row && *col == cell.col && *col
            < maze.cols() - 1 {
            if joined {
                put(frame, Ink::Yellow, "╎");
            } else {
                put(frame, Ink::Yellow, "┃");
            }
            return;
        }
    }
    if joined {
        put(frame, Ink::Plain, " ");
    } else {
        put(frame, Ink::Plain, "│");
    }
}

/// The row as a number, where there is one.
spec fn row_number(above: Option<usize>) -> Option<int> {
    match above {
        Some(row) => Some(row as int),
        None => None,
    }
}

fn draw_below(frame: &mut Vec<Span>, maze: &Maze, canvas: &Canvas, above: Option<usize>, c: usize)
    requires
        maze.wf(),
        above is Some ==> above->0 < maze@.rows(),
        c < maze@.cols(),
    ensures
        shown(final(frame)@) == shown(old(frame)@).push(
            (canvas_look(maze@, *canvas).below)(row_number(above), c as int),
        ),
{
    let wall: bool = match above {
        Some(row) => !maze.connected_down(row, c),
        None => true,
    };
    if let Canvas::Editor { target, row, col } = canvas {
        if *target == EditTarget::HorizontalWall && above == Some(*row) && *col == c && *row
            < maze.rows() - 1 {
            if wall {
                put(frame, Ink::Yellow, "━━━");
            } else {
                put(frame, Ink::Yellow, "┄┄┄");
            }
            return;
        }
    }
    if wall {
        put(frame, Ink::Plain, "───");
    } else {
        put(frame, Ink::Plain, "   ");
    }
}

/// Draws the line below row `above`, or the line at the top.
fn draw_boundary(frame: &mut Vec<Span>, maze: &Maze, canvas: &Canvas, above: Option<usize>)
    requires
        maze.wf(),
        above is Some ==> above->0 < maze@.rows(),
    ensures
        shown(final(frame)@) == shown(old(frame)@) + boundary_line(
            canvas_look(maze@, *canvas).below,
            row_number(above),
            maze@.cols() as int,
        ),
{
    let ghost below = canvas_look(maze@, *canvas).below;
    let ghost start = shown(frame@);
    put(frame, Ink::Plain, "+");
    let mut c: usize = 0;
    proof {
        assert(shown(frame@) =~= start + boundary_part(below, row_number(above), 0));
    }
    while c < maze.cols()
        invariant
            maze.wf(),
            above is Some ==> above->0 < maze@.rows(),
            below == canvas_look(maze@, *canvas).below,
            c <= maze@.cols(),
            shown(frame@) == start + boundary_part(below, row_number(above), c as int),
        decreases maze@.cols() - c,
    {
        draw_below(frame, maze, canvas, above, c);
        put(frame, Ink::Plain, "+");
        proof {
            assert(shown(frame@) =~= start + boundary_part(below, row_number(above), c + 1));
        }
        c = c + 1;
    }
    put(frame, Ink::Plain, "\r\n");
    proof {
        assert(shown(frame@) =~= start + boundary_line(
            below,
            row_number(above),
            maze@.cols() as int,
        ));
    }
}

/// Draws a row of nodes.
fn draw_row(frame: &mut Vec<Span>, maze: &Maze, canvas: &Canvas, row: usize)
    requires
        maze.wf(),
        canvas_wf(maze@, *canvas),
        row < maze@.rows(),
    ensures
        shown(final(frame)@) == shown(old(frame)@) + row_line(
            canvas_look(maze@, *canvas).node,
            canvas_look(maze@, *canvas).right,
            row as int,
            maze@.cols() as int,
        ),
{
    let ghost look = canvas_look(maze@, *canvas);
    let ghost start = shown(frame@);
    put(frame, Ink::Plain, "│");
    let mut c: usize = 0;
    proof {
        assert(shown(frame@) =~= start + row_part(look.node, look.right, row as int, 0));
    }
    while c < maze.cols()
        invariant
            maze.wf(),
            canvas_wf(maze@, *canvas),
            row < maze@.rows(),
            look == canvas_look(maze@, *canvas),
            c <= maze@.cols(),
            shown(frame@) == start + row_part(look.node, look.right, row as int, c as int),
        decreases maze@.cols() - c,
    {
        let cell: Cell = Cell::new(row, c);
        put(frame, Ink::Plain, " ");
        draw_node(frame, maze, canvas, cell);
        put(frame, Ink::Plain, " ");
        draw_right(frame, maze, canvas, cell);
        proof {
            assert(shown(frame@) =~= start + row_part(look.node, look.right, row as int, c + 1));
        }
        c = c + 1;
    }
    put(frame, Ink::Plain, "\r\n");
    proof {
        assert(shown(frame@) =~= start + row_line(
            look.node,
            look.right,
            row as int,
            maze@.cols() as int,
        ));
    }
}

/// Draws the board.
fn draw_board(frame: &mut Vec<Span>, maze: &Maze, canvas: &Canvas)
    requires
        maze.wf(),
        canvas_wf(maze@, *canvas),
    ensures
        shown(final(frame)@) == shown(old(frame)@) + board_frame(
            canvas_look(maze@, *canvas),
            maze@.rows() as int,
            maze@.cols() as int,
        ),
{
    let ghost look = canvas_look(maze@, *canvas);
    let ghost start = shown(frame@);
    let ghost rows = maze@.rows() as int;
    let ghost cols = maze@.cols() as int;
    draw_boundary(frame, maze, canvas, None);
    let mut row: usize = 0;
    while row < maze.rows()
        invariant
            maze.wf(),
            canvas_wf(maze@, *canvas),
            look == canvas_look(maze@, *canvas),
            rows == maze@.rows(),
            cols == maze@.cols(),
            row <= rows,
            shown(frame@) == start + board_part(look, rows, cols, row as int),
        decreases rows - row,
    {
        draw_row(frame, maze, canvas, row);
        if row < maze.rows() - 1 {
            draw_boundary(frame, maze, canvas, Some(row));
        }
        proof {
            assert(shown(frame@) =~= start + board_part(look, rows, cols, row + 1));
        }
        row = row + 1;
    }
    draw_boundary(frame, maze, canvas, Some(maze.rows() - 1));
    proof {
        assert(shown(frame@) =~= start + board_frame(look, rows, cols));
    }
}

/// The board as it looks during a game.
pub fn render_maze(maze: &Maze, selection: &Selection) -> (frame: Vec<Span>)
    requires
        maze.wf(),
        selection.wf(maze@),
    ensures
        shown(frame@) == board_frame(
            game_look(maze@, selection.axis, selection.cursor, selection.cells@),
            maze@.rows() as int,
            maze@.cols() as int,
        ),
{
    let corridor: Vec<Cell> = selection.corridor(maze);
    let canvas = Canvas::Game { selection, corridor: &corridor };
    let mut frame: Vec<Span> = Vec::new();
    draw_board(&mut frame, maze, &canvas);
    proof {
        assert(shown(frame@) =~= board_frame(
            game_look(maze@, selection.axis, selection.cursor, selection.cells@),
            maze@.rows() as int,
            maze@.cols() as int,
        ));
    }
    frame
}

/// The board as it looks in the editor.
pub fn render_editor_maze(editor: &Editor) -> (frame: Vec<Span>)
    requires
        editor.wf(),
    ensures
        shown(frame@) == board_frame(
            editor_look(editor.maze@, editor.target, (editor.row as int, editor.col as int)),
            editor.maze@.rows() as int,
            editor.maze@.cols() as int,
        ),
{
    let canvas = Canvas::Editor { target: editor.target, row: editor.row, col: editor.col };
    let mut frame: Vec<Span> = Vec::new();
    draw_board(&mut frame, &editor.maze, &canvas);
    proof {
        assert(shown(frame@) =~= board_frame(
            editor_look(editor.maze@, editor.target, (editor.row as int, editor.col as int)),
            editor.maze@.rows() as int,
            editor.maze@.cols() as int,
        ));
    }
    frame
}

/// What is shown of the solver's work: its counts, the size of the cache, and the line with rates,
/// which is put into words elsewhere.
#[derive(Debug)]
pub struct ProgressView {
    pub stats: EvaluatorStats,
    pub cache_done_entries: usize,
    pub cache_processing_entries: usize,
    pub cache_size: String,
    pub rates: String,
}

/// The first line of the solver's work.
pub open spec fn progress_first(progress: ProgressView) -> Seq<char> {
    "evals "@ + decimal(progress.stats.evaluation_attempts as nat) + "  unique "@ + decimal(
        progress.stats.unique_positions_claimed as nat,
    ) + "  done "@ + decimal(progress.stats.completed_positions as nat) + "  hits "@ + decimal(
        progress.stats.completed_cache_hits as nat,
    ) + "  cache "@ + decimal(progress.cache_done_entries as nat) + "+"@ + decimal(
        progress.cache_processing_entries as nat,
    ) + " (~"@ + progress.cache_size@ + ")\r\n"@
}

/// The second line of the solver's work.
pub open spec fn progress_second(progress: ProgressView) -> Seq<char> {
    "busy "@ + decimal(progress.stats.processing_hits as nat) + "  deferred "@ + decimal(
        progress.stats.deferred_resolved as nat,
    ) + "  forced "@ + decimal(progress.stats.forced_duplicate_evaluations as nat) + "  symmetry "@
        + decimal(progress.stats.symmetry_zero_certificates as nat) + "  parallel "@ + decimal(
        progress.stats.cooperative_regions as nat,
    ) + "\r\n"@
}

/// The solver's work.
pub open spec fn progress_frame(progress: ProgressView) -> Seq<Piece> {
    seq![
        plain(progress_first(progress)),
        plain(progress_second(progress)),
        plain(progress.rates@),
    ]
}

/// The solver's work.
pub fn render_progress(progress: &ProgressView) -> (frame: Vec<Span>)
    ensures
        shown(frame@) == progress_frame(*progress),
{
    let mut first: String = "evals ".to_owned();
    append_number(&mut first, progress.stats.evaluation_attempts);
    first.append("  unique ");
    append_number(&mut first, progress.stats.unique_positions_claimed);
    first.append("  done ");
    append_number(&mut first, progress.stats.completed_positions);
    first.append("  hits ");
    append_number(&mut first, progress.stats.completed_cache_hits);
    first.append("  cache ");
    append_number(&mut first, progress.cache_done_entries);
    first.append("+");
    append_number(&mut first, progress.cache_processing_entries);
    first.append(" (~");
    first.append(progress.cache_size.as_str());
    first.append(")\r\n");
    let mut second: String = "busy ".to_owned();
    append_number(&mut second, progress.stats.processing_hits);
    second.append("  deferred ");
    append_number(&mut second, progress.stats.deferred_resolved);
    second.append("  forced ");
    append_number(&mut second, progress.stats.forced_duplicate_evaluations);
    second.append("  symmetry ");
    append_number(&mut second, progress.stats.symmetry_zero_certificates);
    second.append("  parallel ");
    append_number(&mut second, progress.stats.cooperative_regions);
    second.append("\r\n");
    let mut frame: Vec<Span> = Vec::new();
    put_string(&mut frame, Ink::Plain, first);
    put_string(&mut frame, Ink::Plain, second);
    put(&mut frame, Ink::Plain, progress.rates.as_str());
    proof {
        assert(shown(frame@) =~= progress_frame(*progress));
    }
    frame
}

/// Puts one frame after the other.
fn append_frame(frame: &mut Vec<Span>, more: Vec<Span>)
    ensures
        shown(final(frame)@) == shown(old(frame)@) + shown(more@),
{
    let mut more: Vec<Span> = more;
    let ghost added = more@;
    frame.append(&mut more);
    proof {
        assert(shown(frame@) =~= shown(old(frame)@) + shown(added));
    }
}

/// What is shown of the solver below a game.
pub struct SolverPanel<'a> {
    pub status: &'a str,
    pub threads: usize,
    pub progress: &'a ProgressView,
}

/// The solver below a game.
pub open spec fn panel_frame(panel: SolverPanel) -> Seq<Piece> {
    seq![
        plain("\r\n\r\n"@),
        plain(panel.status@),
        plain("    threads: "@ + decimal(panel.threads as nat)),
        plain("\r\n"@),
    ] + progress_frame(*panel.progress)
}

/// The colour of a player.
pub open spec fn player_ink(player: int) -> Ink {
    if player == 0 {
        Ink::Cyan
    } else {
        Ink::Magenta
    }
}

fn ink_of(player: usize) -> (ink: Ink)
    ensures
        ink == player_ink(player as int),
{
    if player == 0 {
        Ink::Cyan
    } else {
        Ink::Magenta
    }
}

/// The name of a direction.
pub open spec fn axis_name(axis: Axis) -> Seq<char> {
    match axis {
        Axis::Horizontal => "horizontal"@,
        Axis::Vertical => "vertical"@,
    }
}

/// What is shown above the board: who has won, or who is to move and what the keys do.
pub open spec fn game_header(game: Game, axis: Axis) -> Seq<Piece> {
    match game.winner {
        Some(winner) => seq![
            inked(Ink::Green, game.players[winner as int].name@ + " wins!\r\n"@),
            plain("r: rematch   m/Esc: menu   q: quit\r\n\r\n"@),
        ],
        None => seq![
            plain("Turn: "@),
            inked(player_ink(game.turn as int), game.players[game.turn as int].name@),
            plain(
                "    nodes: "@ + decimal(game.maze@.nodes.cells.len()) + "    corridor: "@ + axis_name(
                    axis,
                ) + "\r\n"@,
            ),
            plain(
                "Move: arrows/hjkl  Axis: Tab  Select: Space  Sweep: Space×2  Take: Enter\r\n"@,
            ),
            plain("Esc clears selection  ·  m menu  ·  q quit\r\n\r\n"@),
        ],
    }
}

/// What is shown of the last move.
pub open spec fn last_move_frame(game: Game) -> Seq<Piece> {
    match game.last_move {
        Some((player, movement)) => seq![
            plain("\r\n"@),
            inked(player_ink(player as int), game.players[player as int].name@),
            plain(
                " took "@ + decimal(movement.cells@.len()) + " node"@ + (if movement.cells@.len()
                    == 1 {
                    ""@
                } else {
                    "s"@
                }) + " from a "@ + axis_name(movement.axis) + " corridor."@,
            ),
        ],
        None => Seq::empty(),
    }
}

/// The screen during a game.
pub open spec fn game_frame(game: Game, selection: Selection, panel: Option<SolverPanel>) -> Seq<
    Piece,
> {
    game_header(game, selection.axis) + board_frame(
        game_look(game.maze@, selection.axis, selection.cursor, selection.cells@),
        game.maze@.rows() as int,
        game.maze@.cols() as int,
    ) + last_move_frame(game) + (match panel {
        Some(panel) => panel_frame(panel),
        None => Seq::empty(),
    })
}

fn render_game_header(game: &Game, axis: Axis) -> (frame: Vec<Span>)
    requires
        game.wf(),
    ensures
        shown(frame@) == game_header(*game, axis),
{
    let mut frame: Vec<Span> = Vec::new();
    match game.winner {
        Some(winner) => {
            let mut text: String = game.players[winner].name.clone();
            text.append(" wins!\r\n");
            put_string(&mut frame, Ink::Green, text);
            put(&mut frame, Ink::Plain, "r: rematch   m/Esc: menu   q: quit\r\n\r\n");
        },
        None => {
            put(&mut frame, Ink::Plain, "Turn: ");
            put(&mut frame, ink_of(game.turn), game.current_player().name.as_str());
            let mut text: String = "    nodes: ".to_owned();
            append_number(&mut text, game.maze.alive_count());
            text.append("    corridor: ");
            text.append(axis.name());
            text.append("\r\n");
            put_string(&mut frame, Ink::Plain, text);
            put(
                &mut frame,
                Ink::Plain,
                "Move: arrows/hjkl  Axis: Tab  Select: Space  Sweep: Space×2  Take: Enter\r\n",
            );
            put(&mut frame, Ink::Plain, "Esc clears selection  ·  m menu  ·  q quit\r\n\r\n");
        },
    }
    proof {
        assert(shown(frame@) =~= game_header(*game, axis));
    }
    frame
}

fn render_last_move(game: &Game) -> (frame: Vec<Span>)
    requires
        game.wf(),
    ensures
        shown(frame@) == last_move_frame(*game),
{
    let mut frame: Vec<Span> = Vec::new();
    if let Some((player, movement)) = &game.last_move {
        put(&mut frame, Ink::Plain, "\r\n");
        put(&mut frame, ink_of(*player), game.players[*player].name.as_str());
        let mut text: String = " took ".to_owned();
        append_number(&mut text, movement.cells.len());
        text.append(" node");
        if movement.cells.len() == 1 {
            text.append("");
        } else {
            text.append("s");
        }
        text.append(" from a ");
        text.append(movement.axis.name());
        text.append(" corridor.");
        put_string(&mut frame, Ink::Plain, text);
    }
    proof {
        assert(shown(frame@) =~= last_move_frame(*game));
    }
    frame
}

fn render_panel(panel: &SolverPanel) -> (frame: Vec<Span>)
    ensures
        shown(frame@) == panel_frame(*panel),
{
    let mut frame: Vec<Span> = Vec::new();
    put(&mut frame, Ink::Plain, "\r\n\r\n");
    put(&mut frame, Ink::Plain, panel.status);
    let mut text: String = "    threads: ".to_owned();
    append_number(&mut text, panel.threads);
    put_string(&mut frame, Ink::Plain, text);
    put(&mut frame, Ink::Plain, "\r\n");
    append_frame(&mut frame, render_progress(panel.progress));
    proof {
        assert(shown(frame@) =~= panel_frame(*panel));
    }
    frame
}

/// The screen during a game.
pub fn render(game: &Game, selection: &Selection, panel: Option<SolverPanel>) -> (frame: Vec<Span>)
    requires
        game.wf(),
        selection.wf(game.maze@),
    ensures
        shown(frame@) == game_frame(*game, *selection, panel),
{
    let mut frame: Vec<Span> = render_game_header(game, selection.axis);
    append_frame(&mut frame, render_maze(&game.maze, selection));
    append_frame(&mut frame, render_last_move(game));
    if let Some(panel) = &panel {
        append_frame(&mut frame, render_panel(panel));
    }
    proof {
        assert(shown(frame@) =~= game_frame(*game, *selection, panel));
    }
    frame
}

/// What is shown above the board in the editor.
pub open spec fn editor_header(editor: Editor, cache_len: usize) -> Seq<Piece> {
    seq![
        inked(Ink::Cyan, "NIM LIGHT — editor\r\n"@),
        plain(
            decimal(editor.maze@.rows()) + "×"@ + decimal(editor.maze@.cols()) + "  target: "@
                + target_name(editor.target) + "  nodes: "@ + decimal(
                editor.maze@.nodes.cells.len(),
            ) + "  threads: "@ + decimal(editor.solver_threads as nat) + "  cache: "@ + decimal(
                cache_len as nat,
            ) + "\r\n"@,
        ),
        plain("Move arrows/hjkl · Tab target · Space toggle · n nimber · c cache\r\n"@),
        plain(
            "+/- rows · </> cols · [/] threads · r demo · o open · m/Esc menu · q quit\r\n\r\n"@,
        ),
    ]
}

/// What is shown of the nimber: that it is being computed and for how long, or what is known of it.
pub open spec fn nimber_frame(editor: Editor, computing: Option<Seq<char>>) -> Seq<Piece> {
    match computing {
        Some(elapsed) => seq![
            inked(Ink::Yellow, "Computing nimber...\r\n"@),
            plain("elapsed: "@ + elapsed + "    Esc/x: cancel\r\n"@),
        ],
        None => if editor.last_cancelled {
            seq![
                inked(
                    Ink::Yellow,
                    "nimber: cancelled; completed cache entries were kept\r\n"@,
                ),
            ]
        } else {
            match editor.last_evaluation {
                Some(report) => seq![
                    if editor.nimber_is_current {
                        inked(
                            if report.nimber == 0 {
                                Ink::Green
                            } else {
                                Ink::Magenta
                            },
                            "nimber: "@ + decimal(report.nimber as nat) + "\r\n"@,
                        )
                    } else {
                        inked(
                            Ink::DarkGrey,
                            "nimber: stale after edits; previous value was "@ + decimal(
                                report.nimber as nat,
                            ) + "\r\n"@,
                        )
                    },
                    plain(
                        "previous compiled matrix: "@ + decimal(report.matrix_rows as nat) + " × "@
                            + decimal(report.matrix_cols as nat) + " with "@ + decimal(
                            report.matrix_nodes as nat,
                        ) + " nodes\r\n"@,
                    ),
                    plain("previous elapsed: "@ + report.elapsed@ + "\r\n"@),
                ],
                None => seq![plain("nimber: not computed for this edit state\r\n"@)],
            }
        },
    }
}

/// The screen in the editor.
pub open spec fn editor_frame(
    editor: Editor,
    cache_len: usize,
    computing: Option<Seq<char>>,
    progress: ProgressView,
) -> Seq<Piece> {
    editor_header(editor, cache_len) + board_frame(
        editor_look(editor.maze@, editor.target, (editor.row as int, editor.col as int)),
        editor.maze@.rows() as int,
        editor.maze@.cols() as int,
    ) + seq![plain("\r\n"@)] + nimber_frame(editor, computing) + progress_frame(progress)
}

fn render_editor_header(editor: &Editor, cache_len: usize) -> (frame: Vec<Span>)
    requires
        editor.wf(),
    ensures
        shown(frame@) == editor_header(*editor, cache_len),
{
    let mut frame: Vec<Span> = Vec::new();
    put(&mut frame, Ink::Cyan, "NIM LIGHT — editor\r\n");
    let mut text: String = String::new();
    append_number(&mut text, editor.maze.rows());
    proof {
        assert(text@ =~= decimal(editor.maze@.rows()));
    }
    text.append("×");
    append_number(&mut text, editor.maze.cols());
    text.append("  target: ");
    text.append(editor.target.name());
    text.append("  nodes: ");
    append_number(&mut text, editor.maze.alive_count());
    text.append("  threads: ");
    append_number(&mut text, editor.solver_threads);
    text.append("  cache: ");
    append_number(&mut text, cache_len);
    text.append("\r\n");
    put_string(&mut frame, Ink::Plain, text);
    put(
        &mut frame,
        Ink::Plain,
        "Move arrows/hjkl · Tab target · Space toggle · n nimber · c cache\r\n",
    );
    put(
        &mut frame,
        Ink::Plain,
        "+/- rows · </> cols · [/] threads · r demo · o open · m/Esc menu · q quit\r\n\r\n",
    );
    proof {
        assert(shown(frame@) =~= editor_header(*editor, cache_len));
    }
    frame
}

/// The elapsed time as it is shown, if there is one.
pub open spec fn elapsed_text(computing: Option<&str>) -> Option<Seq<char>> {
    match computing {
        Some(elapsed) => Some(elapsed@),
        None => None,
    }
}

fn render_nimber(editor: &Editor, computing: Option<&str>) -> (frame: Vec<Span>)
    ensures
        shown(frame@) == nimber_frame(*editor, elapsed_text(computing)),
{
    let mut frame: Vec<Span> = Vec::new();
    match computing {
        Some(elapsed) => {
            put(&mut frame, Ink::Yellow, "Computing nimber...\r\n");
            let mut text: String = "elapsed: ".to_owned();
            text.append(elapsed);
            text.append("    Esc/x: cancel\r\n");
            put_string(&mut frame, Ink::Plain, text);
        },
        None => {
            if editor.last_cancelled {
                put(
                    &mut frame,
                    Ink::Yellow,
                    "nimber: cancelled; completed cache entries were kept\r\n",
                );
            } else {
                match &editor.last_evaluation {
                    Some(report) => {
                        if editor.nimber_is_current {
                            let mut text: String = "nimber: ".to_owned();
                            append_number(&mut text, report.nimber);
                            text.append("\r\n");
                            let ink: Ink = if report.nimber == 0 {
                                Ink::Green
                            } else {
                                Ink::Magenta
                            };
                            put_string(&mut frame, ink, text);
                        } else {
                            let mut text: String =
                                "nimber: stale after edits; previous value was ".to_owned();
                            append_number(&mut text, report.nimber);
                            text.append("\r\n");
                            put_string(&mut frame, Ink::DarkGrey, text);
                        }
                        let mut text: String = "previous compiled matrix: ".to_owned();
                        append_number(&mut text, report.matrix_rows);
                        text.append(" × ");
                        append_number(&mut text, report.matrix_cols);
                        text.append(" with ");
                        append_number(&mut text, report.matrix_nodes);
                        text.append(" nodes\r\n");
                        put_string(&mut frame, Ink::Plain, text);
                        let mut text: String = "previous elapsed: ".to_owned();
                        text.append(report.elapsed.as_str());
                        text.append("\r\n");
                        put_string(&mut frame, Ink::Plain, text);
                    },
                    None => {
                        put(
                            &mut frame,
                            Ink::Plain,
                            "nimber: not computed for this edit state\r\n",
                        );
                    },
                }
            }
        },
    }
    proof {
        assert(shown(frame@) =~= nimber_frame(*editor, elapsed_text(computing)));
    }
    frame
}

/// The screen in the editor. While the nimber is being computed, the elapsed time is shown.
pub fn render_editor(
    editor: &Editor,
    cache_len: usize,
    computing: Option<&str>,
    progress: &ProgressView,
) -> (frame: Vec<Span>)
    requires
        editor.wf(),
    ensures
        shown(frame@) == editor_frame(*editor, cache_len, elapsed_text(computing), *progress),
{
    let mut frame: Vec<Span> = render_editor_header(editor, cache_len);
    append_frame(&mut frame, render_editor_maze(editor));
    put(&mut frame, Ink::Plain, "\r\n");
    append_frame(&mut frame, render_nimber(editor, computing));
    append_frame(&mut frame, render_progress(progress));
    proof {
        assert(shown(frame@) =~= editor_frame(
            *editor,
            cache_len,
            elapsed_text(computing),
            *progress,
        ));
    }
    frame
}

/// The menu.
pub open spec fn menu_frame() -> Seq<Piece> {
    seq![
        inked(Ink::Cyan, "NIM LIGHT\r\n\r\n"@),
        plain("Take one or more nodes from one corridor. Last move wins.\r\n\r\n"@),
        plain("  1  Human vs human\r\n"@),
        plain("  2  Human vs solver CPU\r\n"@),
        plain("  3  Level editor / solver\r\n\r\n"@),
        plain("  q  Quit\r\n"@),
    ]
}

/// The menu.
pub fn render_menu() -> (frame: Vec<Span>)
    ensures
        shown(frame@) == menu_frame(),
{
    let mut frame: Vec<Span> = Vec::new();
    put(&mut frame, Ink::Cyan, "NIM LIGHT\r\n\r\n");
    put(
        &mut frame,
        Ink::Plain,
        "Take one or more nodes from one corridor. Last move wins.\r\n\r\n",
    );
    put(&mut frame, Ink::Plain, "  1  Human vs human\r\n");
    put(&mut frame, Ink::Plain, "  2  Human vs solver CPU\r\n");
    put(&mut frame, Ink::Plain, "  3  Level editor / solver\r\n\r\n");
    put(&mut frame, Ink::Plain, "  q  Quit\r\n");
    proof {
        assert(shown(frame@) =~= menu_frame());
    }
    frame
}

} // verus!
