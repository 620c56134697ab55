//! What can be read off the board on the screen: every node and every wall has its place.
use crate::board::{lemma_listed_corridor, Board, Cell, Maze};
use crate::board_laws::{node_at, wall_below, wall_right_of};
use crate::editor::Editor;
use crate::editor_laws::cursor_of;
use crate::game::Game;
use crate::screen::{board_frame, board_part, boundary_line, boundary_part, editor_header};
use crate::screen::{editor_look, elapsed_text, game_header, game_look, last_move_frame, nimber_frame};
use crate::screen::{panel_frame, progress_frame, render, render_editor, render_editor_maze};
use crate::screen::{render_maze, row_line, row_part, Look, ProgressView, SolverPanel};
use crate::screen_laws::says;
use crate::selection::Selection;
use crate::text::{plain, shown, Ink, Piece, Span};
use vstd::prelude::*;

verus! {

/// How many pieces a row of nodes takes, with the line below it.
pub open spec fn band(cols: int) -> int {
    6 * cols + 4
}

/// The piece of the node in row `r` and column `c`.
pub open spec fn node_piece(cols: int, r: int, c: int) -> int {
    2 * cols + 2 + r * band(cols) + 4 * c + 2
}

/// The piece between the node in row `r` and column `c` and the next one.
pub open spec fn right_piece(cols: int, r: int, c: int) -> int {
    node_piece(cols, r, c) + 2
}

/// The piece below the node in row `r` and column `c`; for row `-1`, that at the top.
pub open spec fn below_piece(cols: int, r: int, c: int) -> int {
    (r + 1) * band(cols) + 2 * c + 1
}

proof fn lemma_boundary(
    below: spec_fn(Option<int>, int) -> Piece,
    above: Option<int>,
    k: int,
    c: int,
)
    requires
        0 <= c < k,
    ensures
        boundary_part(below, above, k).len() == 2 * k + 1,
        boundary_part(below, above, k)[2 * c + 1] == below(above, c),
    decreases k,
{
    let less = boundary_part(below, above, k - 1);
    if k == 1 {
        assert(less =~= seq![plain("+"@)]);
    } else if c < k - 1 {
        lemma_boundary(below, above, k - 1, c);
    } else {
        lemma_boundary(below, above, k - 1, 0);
    }
}

proof fn lemma_row(
    node: spec_fn(int, int) -> Piece,
    right: spec_fn(int, int) -> Piece,
    r: int,
    k: int,
    c: int,
)
    requires
        0 <= c < k,
    ensures
        row_part(node, right, r, k).len() == 4 * k + 1,
        row_part(node, right, r, k)[4 * c + 2] == node(r, c),
        row_part(node, right, r, k)[4 * c + 4] == right(r, c),
    decreases k,
{
    let less = row_part(node, right, r, k - 1);
    if k == 1 {
        assert(less =~= seq![plain("│"@)]);
    } else if c < k - 1 {
        lemma_row(node, right, r, k - 1, c);
    } else {
        lemma_row(node, right, r, k - 1, 0);
    }
}

proof fn lemma_band_below(r: int, k: int, cols: int)
    requires
        r < k,
        0 <= cols,
    ensures
        r * band(cols) + band(cols) <= k * band(cols),
        (r + 1) * band(cols) == r * band(cols) + band(cols),
{
    let w = band(cols);
    assert((r + 1) * w == r * w + w) by (nonlinear_arith);
    assert((r + 1) * w <= k * w) by (nonlinear_arith)
        requires
            r + 1 <= k,
            0 <= w,
    ;
}

/// How many pieces the board takes down to row `k`.
proof fn lemma_part_length(look: Look, rows: int, cols: int, k: int)
    requires
        0 <= k <= rows,
        0 < cols,
        0 < rows,
    ensures
        board_part(look, rows, cols, k).len() == if k < rows {
            2 * cols + 2 + k * band(cols)
        } else {
            k * band(cols)
        },
    decreases k,
{
    if k == 0 {
        lemma_boundary(look.below, None, cols, 0);
        assert(0 * band(cols) == 0);
    } else {
        lemma_part_length(look, rows, cols, k - 1);
        lemma_row(look.node, look.right, k - 1, cols, 0);
        lemma_boundary(look.below, Some(k - 1), cols, 0);
        lemma_band_below(k - 1, k, cols);
    }
}

/// Where the node in row `r` and column `c` and the walls around it are.
proof fn lemma_part_places(look: Look, rows: int, cols: int, k: int, r: int, c: int)
    requires
        0 <= r < k <= rows,
        0 <= c < cols,
    ensures
        board_part(look, rows, cols, k)[node_piece(cols, r, c)] == (look.node)(r, c),
        board_part(look, rows, cols, k)[right_piece(cols, r, c)] == (look.right)(r, c),
        r + 1 < rows ==> board_part(look, rows, cols, k)[below_piece(cols, r, c)] == (look.below)(
            Some(r),
            c,
        ),
        board_part(look, rows, cols, k)[below_piece(cols, -1, c)] == (look.below)(None, c),
    decreases k,
{
    lemma_part_length(look, rows, cols, k - 1);
    lemma_part_length(look, rows, cols, k);
    let less = board_part(look, rows, cols, k - 1);
    let row = row_line(look.node, look.right, k - 1, cols);
    let line = boundary_line(look.below, Some(k - 1), cols);
    let all = board_part(look, rows, cols, k);
    lemma_row(look.node, look.right, k - 1, cols, c);
    lemma_boundary(look.below, Some(k - 1), cols, c);
    lemma_boundary(look.below, None, cols, c);
    lemma_band_below(k - 1, k, cols);
    lemma_band_below(r, k, cols);
    assert((-1 + 1) * band(cols) == 0);
    if r < k - 1 {
        lemma_band_below(r, k - 1, cols);
        lemma_part_places(look, rows, cols, k - 1, r, c);
        assert(all[node_piece(cols, r, c)] == less[node_piece(cols, r, c)]);
        assert(all[right_piece(cols, r, c)] == less[right_piece(cols, r, c)]);
        assert(all[below_piece(cols, r, c)] == less[below_piece(cols, r, c)]);
        assert(all[below_piece(cols, -1, c)] == less[below_piece(cols, -1, c)]);
    } else {
        assert(all[node_piece(cols, r, c)] == row[4 * c + 2]);
        assert(all[right_piece(cols, r, c)] == row[4 * c + 4]);
        if k < rows {
            assert(all[below_piece(cols, r, c)] == line[2 * c + 1]);
        }
        if k > 1 {
            lemma_band_below(0, k, cols);
            lemma_band_below(0, k - 1, cols);
            assert(0 * band(cols) == 0);
            lemma_part_places(look, rows, cols, k - 1, 0, c);
            assert(all[below_piece(cols, -1, c)] == less[below_piece(cols, -1, c)]);
        } else {
            assert(less == boundary_line(look.below, None, cols));
            assert(all[below_piece(cols, -1, c)] == less[2 * c + 1]);
        }
    }
}

/// Where everything is on the whole board.
proof fn lemma_places_on_board(look: Look, rows: int, cols: int, r: int, c: int)
    requires
        0 <= r < rows,
        0 <= c < cols,
    ensures
        board_frame(look, rows, cols).len() == 2 * cols + 2 + rows * band(cols),
        0 <= node_piece(cols, r, c),
        right_piece(cols, r, c) < board_frame(look, rows, cols).len(),
        0 <= below_piece(cols, -1, c),
        0 <= below_piece(cols, r, c) < board_frame(look, rows, cols).len(),
        board_frame(look, rows, cols)[node_piece(cols, r, c)] == (look.node)(r, c),
        board_frame(look, rows, cols)[right_piece(cols, r, c)] == (look.right)(r, c),
        board_frame(look, rows, cols)[below_piece(cols, r, c)] == (look.below)(Some(r), c),
        board_frame(look, rows, cols)[below_piece(cols, -1, c)] == (look.below)(None, c),
{
    let part = board_part(look, rows, cols, rows);
    let line = boundary_line(look.below, Some(rows - 1), cols);
    let all = board_frame(look, rows, cols);
    lemma_part_length(look, rows, cols, rows);
    lemma_part_places(look, rows, cols, rows, r, c);
    lemma_boundary(look.below, Some(rows - 1), cols, c);
    lemma_band_below(r, rows, cols);
    lemma_band_below(-1, 0, cols);
    lemma_band_below(-1, r, cols);
    assert(0 * band(cols) == 0);
    assert(0 <= r * band(cols)) by (nonlinear_arith)
        requires
            0 <= r,
            0 <= band(cols),
    ;
    assert(all[node_piece(cols, r, c)] == part[node_piece(cols, r, c)]);
    assert(all[right_piece(cols, r, c)] == part[right_piece(cols, r, c)]);
    assert(all[below_piece(cols, -1, c)] == part[below_piece(cols, -1, c)]);
    if r + 1 < rows {
        lemma_band_below(r + 1, rows, cols);
        assert(all[below_piece(cols, r, c)] == part[below_piece(cols, r, c)]);
    } else {
        assert(all[below_piece(cols, r, c)] == line[2 * c + 1]);
    }
}

/// Whether piece `i` of the screen has the colour and the text.
pub open spec fn looks(frame: Seq<Span>, i: int, ink: Ink, text: Seq<char>) -> bool {
    says(frame, i, text) && frame[i].ink == ink
}

/// Whether the walls around a place are drawn: to its right, below it and, in the first row, above it.
/// On the border there always is one.
pub open spec fn walls_are_drawn(board: Board, frame: Seq<Span>, r: int, c: int) -> bool {
    let cols = board.cols() as int;
    &&& looks(
        frame,
        right_piece(cols, r, c),
        Ink::Plain,
        if c + 1 == cols || wall_right_of(board, (r, c)) {
            "│"@
        } else {
            " "@
        },
    )
    &&& looks(
        frame,
        below_piece(cols, r, c),
        Ink::Plain,
        if r + 1 == board.rows() || wall_below(board, (r, c)) {
            "───"@
        } else {
            "   "@
        },
    )
    &&& looks(frame, below_piece(cols, -1, c), Ink::Plain, "───"@)
}

proof fn lemma_drawn(frame: Seq<Span>, look: Look, rows: int, cols: int, r: int, c: int)
    requires
        0 <= r < rows,
        0 <= c < cols,
        shown(frame) == board_frame(look, rows, cols),
    ensures
        frame.len() == 2 * cols + 2 + rows * band(cols),
        looks(
            frame,
            node_piece(cols, r, c),
            (look.node)(r, c).ink,
            (look.node)(r, c).text,
        ),
        looks(
            frame,
            right_piece(cols, r, c),
            (look.right)(r, c).ink,
            (look.right)(r, c).text,
        ),
        looks(
            frame,
            below_piece(cols, r, c),
            (look.below)(Some(r), c).ink,
            (look.below)(Some(r), c).text,
        ),
        looks(
            frame,
            below_piece(cols, -1, c),
            (look.below)(None, c).ink,
            (look.below)(None, c).text,
        ),
{
    lemma_places_on_board(look, rows, cols, r, c);
    lemma_band_below(-1, r, cols);
    assert(shown(frame).len() == frame.len());
    assert(forall|i: int|
        0 <= i < frame.len() ==> #[trigger] shown(frame)[i] == (Piece {
            ink: frame[i].ink,
            text: frame[i].text@,
        }));
    lemma_first_line_inside(rows, cols, r, c);
    assert(shown(frame)[node_piece(cols, r, c)] == (look.node)(r, c));
    assert(shown(frame)[right_piece(cols, r, c)] == (look.right)(r, c));
    assert(shown(frame)[below_piece(cols, r, c)] == (look.below)(Some(r), c));
    assert(shown(frame)[below_piece(cols, -1, c)] == (look.below)(None, c));
}

proof fn lemma_first_line_inside(rows: int, cols: int, r: int, c: int)
    requires
        0 <= r < rows,
        0 <= c < cols,
    ensures
        0 <= below_piece(cols, -1, c) < 2 * cols + 2 + rows * band(cols),
{
    lemma_band_below(-1, 0, cols);
    assert(0 <= rows * band(cols)) by (nonlinear_arith)
        requires
            0 <= rows,
            0 <= band(cols),
    ;
}

/// During a game every place of the board has its piece on the screen, and shows what is there: a node
/// that is selected, under the cursor, on the corridor or elsewhere, or that the node is taken. The
/// walls are drawn where they are, and along the border.
pub proof fn lemma_game_board_is_drawn(
    maze: Maze,
    selection: Selection,
    corridor: Vec<Cell>,
    frame: Vec<Span>,
    cell: Cell,
)
    requires
        maze.wf(),
        selection.wf(maze@),
        call_ensures(Maze::corridor, (&maze, selection.cursor, selection.axis), corridor),
        call_ensures(render_maze, (&maze, &selection), frame),
        maze@.contains(cell.at()),
    ensures
        ({
            let i = node_piece(maze@.cols() as int, cell.row as int, cell.col as int);
            let alive = node_at(maze@, cell.at());
            let selected = selection.cells@.contains(cell);
            let here = selection.cursor == cell;
            let along = corridor@.contains(cell);
            &&& selected ==> looks(frame@, i, Ink::Yellow, "◆"@)
            &&& !selected && here && alive ==> looks(frame@, i, Ink::White, "◉"@)
            &&& !selected && here && !alive ==> looks(frame@, i, Ink::White, "⊗"@)
            &&& !selected && !here && !alive ==> looks(frame@, i, Ink::DarkGrey, "×"@)
            &&& !selected && !here && alive && along ==> looks(frame@, i, Ink::DarkCyan, "●"@)
            &&& !selected && !here && alive && !along ==> looks(frame@, i, Ink::Green, "•"@)
        }),
        walls_are_drawn(maze@, frame@, cell.row as int, cell.col as int),
{
    let board = maze@;
    lemma_listed_corridor(board, selection.axis, selection.cursor.at(), corridor@, cell);
    lemma_drawn(
        frame@,
        game_look(board, selection.axis, selection.cursor, selection.cells@),
        board.rows() as int,
        board.cols() as int,
        cell.row as int,
        cell.col as int,
    );
}

/// In the editor every place of the board has its piece on the screen, and shows whether there is a node
/// or none; so do the walls. What the cursor is on stands out, and only that.
pub proof fn lemma_editor_board_is_drawn(editor: Editor, frame: Vec<Span>, cell: Cell)
    requires
        editor.wf(),
        call_ensures(render_editor_maze, (&editor,), frame),
        editor.maze@.contains(cell.at()),
    ensures
        ({
            let board = editor.maze@;
            let cols = board.cols() as int;
            let r = cell.row as int;
            let c = cell.col as int;
            let alive = node_at(board, cell.at());
            let wall_right = wall_right_of(board, cell.at());
            let wall_under = wall_below(board, cell.at());
            let here = cursor_of(editor) == cell.at();
            let node = node_piece(cols, r, c);
            let right = right_piece(cols, r, c);
            let below = below_piece(cols, r, c);
            &&& if here && editor.target is Node {
                &&& alive ==> looks(frame@, node, Ink::White, "◉"@)
                &&& !alive ==> looks(frame@, node, Ink::White, "⊗"@)
            } else {
                &&& alive ==> looks(frame@, node, Ink::Green, "•"@)
                &&& !alive ==> looks(frame@, node, Ink::DarkGrey, "×"@)
            }
            &&& if here && editor.target is VerticalWall {
                &&& wall_right ==> looks(frame@, right, Ink::Yellow, "┃"@)
                &&& !wall_right ==> looks(frame@, right, Ink::Yellow, "╎"@)
            } else {
                &&& c + 1 == cols || wall_right ==> looks(frame@, right, Ink::Plain, "│"@)
                &&& c + 1 < cols && !wall_right ==> looks(frame@, right, Ink::Plain, " "@)
            }
            &&& if here && editor.target is HorizontalWall {
                &&& wall_under ==> looks(frame@, below, Ink::Yellow, "━━━"@)
                &&& !wall_under ==> looks(frame@, below, Ink::Yellow, "┄┄┄"@)
            } else {
                &&& r + 1 == board.rows() || wall_under ==> looks(
                    frame@,
                    below,
                    Ink::Plain,
                    "───"@,
                )
                &&& r + 1 < board.rows() && !wall_under ==> looks(
                    frame@,
                    below,
                    Ink::Plain,
                    "   "@,
                )
            }
            &&& looks(frame@, below_piece(cols, -1, c), Ink::Plain, "───"@)
        }),
{
    let board = editor.maze@;
    lemma_drawn(
        frame@,
        editor_look(board, editor.target, cursor_of(editor)),
        board.rows() as int,
        board.cols() as int,
        cell.row as int,
        cell.col as int,
    );
}

/// Whether a screen shows a board from piece `from` on, as it looks by itself.
pub open spec fn shows_from(screen: Seq<Span>, from: int, board: Seq<Span>) -> bool {
    forall|i: int|
        0 <= i < board.len() ==> looks(
            screen,
            from + i,
            (#[trigger] board[i]).ink,
            board[i].text@,
        )
}

/// The screen of a game shows the board below its headline.
pub proof fn lemma_game_screen_has_the_board(
    game: Game,
    selection: Selection,
    panel: Option<SolverPanel>,
    screen: Vec<Span>,
    board: Vec<Span>,
)
    requires
        game.wf(),
        selection.wf(game.maze@),
        call_ensures(render, (&game, &selection, panel), screen),
        call_ensures(render_maze, (&game.maze, &selection), board),
    ensures
        shows_from(
            screen@,
            if game.winner is Some {
                2
            } else {
                5
            },
            board@,
        ),
{
    let header = game_header(game, selection.axis);
    let rest = last_move_frame(game) + (match panel {
        Some(panel) => panel_frame(panel),
        None => Seq::empty(),
    });
    assert(shown(screen@) =~= header + shown(board@) + rest);
    lemma_shown_from(screen@, header, board@, rest);
}

proof fn lemma_shown_from(screen: Seq<Span>, before: Seq<Piece>, board: Seq<Span>, after: Seq<Piece>)
    requires
        shown(screen) == before + shown(board) + after,
    ensures
        shows_from(screen, before.len() as int, board),
{
    let from = before.len() as int;
    assert(shown(screen).len() == screen.len());
    assert(shown(board).len() == board.len());
    assert forall|i: int| 0 <= i < board.len() implies looks(
        screen,
        from + i,
        (#[trigger] board[i]).ink,
        board[i].text@,
    ) by {
        assert((before + shown(board) + after)[from + i] == shown(board)[i]);
        assert(shown(screen)[from + i] == (Piece {
            ink: screen[from + i].ink,
            text: screen[from + i].text@,
        }));
        assert(shown(board)[i] == (Piece { ink: board[i].ink, text: board[i].text@ }));
    }
}

/// The editor's screen shows the board below its four lines on top.
pub proof fn lemma_editor_screen_has_the_board(
    editor: Editor,
    cache_len: usize,
    computing: Option<&str>,
    progress: ProgressView,
    screen: Vec<Span>,
    board: Vec<Span>,
)
    requires
        editor.wf(),
        call_ensures(render_editor, (&editor, cache_len, computing, &progress), screen),
        call_ensures(render_editor_maze, (&editor,), board),
    ensures
        shows_from(screen@, 4, board@),
{
    let header = editor_header(editor, cache_len);
    let rest = seq![plain("\r\n"@)] + nimber_frame(editor, elapsed_text(computing))
        + progress_frame(progress);
    assert(shown(screen@) =~= header + shown(board@) + rest);
    lemma_shown_from(screen@, header, board@, rest);
}

/// The screen of a game is its headline, the board, the last move, if one was made, and the solver's
/// work, if it is shown; there is nothing else on it.
pub proof fn lemma_game_screen_is_complete(
    game: Game,
    selection: Selection,
    panel: Option<SolverPanel>,
    screen: Vec<Span>,
    board: Vec<Span>,
)
    requires
        game.wf(),
        selection.wf(game.maze@),
        call_ensures(render, (&game, &selection, panel), screen),
        call_ensures(render_maze, (&game.maze, &selection), board),
    ensures
        screen@.len() == (if game.winner is Some {
            2int
        } else {
            5
        }) + board@.len() + (if game.last_move is Some {
            3int
        } else {
            0
        }) + (if panel is Some {
            7int
        } else {
            0
        }),
{
    assert(shown(screen@).len() == screen@.len());
    assert(shown(board@).len() == board@.len());
}

/// The editor's screen is its four lines on top, the board, an empty line, what is known of the nimber,
/// and the solver's work; there is nothing else on it.
pub proof fn lemma_editor_screen_is_complete(
    editor: Editor,
    cache_len: usize,
    computing: Option<&str>,
    progress: ProgressView,
    screen: Vec<Span>,
    board: Vec<Span>,
)
    requires
        editor.wf(),
        call_ensures(render_editor, (&editor, cache_len, computing, &progress), screen),
        call_ensures(render_editor_maze, (&editor,), board),
    ensures
        screen@.len() == 4 + board@.len() + 1 + (if computing is Some {
            2int
        } else if editor.last_cancelled || editor.last_evaluation is None {
            1
        } else {
            3
        }) + 3,
        says(screen@, 4int + board@.len(), "\r\n"@),
{
    let before = editor_header(editor, cache_len) + shown(board@);
    let rest = nimber_frame(editor, elapsed_text(computing)) + progress_frame(progress);
    assert(shown(screen@).len() == screen@.len());
    assert(shown(board@).len() == board@.len());
    assert(shown(screen@) =~= before + seq![plain("\r\n"@)] + rest);
    assert(shown(screen@)[before.len() as int] == plain("\r\n"@));
    assert(shown(screen@)[before.len() as int] == (Piece {
        ink: screen@[before.len() as int].ink,
        text: screen@[before.len() as int].text@,
    }));
}

} // verus!
