//! What can be read off the screen.
use crate::board::{Axis, Board, MoveError};
use crate::editor::{menu_choice, EditTarget, Editor, EvaluationReport, MenuChoice};
use crate::editor_laws::cursor_of;
use crate::game::{Game, Move};
use crate::matrix::BitMatrix;
use crate::play::Key;
use crate::screen::{board_frame, editor_header, editor_look, elapsed_text, game_header, game_look};
use crate::screen::{last_move_frame, nimber_frame, panel_frame, progress_frame, render};
use crate::screen::{render_editor, render_menu, render_progress, ProgressView, SolverPanel};
use crate::selection::Selection;
use crate::text::{decimal, shown, Ink, Piece, Span};
use crate::text_laws::{is_numeral_of, lemma_decimal_is_read};
use vstd::prelude::*;

verus! {

/// Whether piece `i` of the screen has the text.
pub open spec fn says(frame: Seq<Span>, i: int, text: Seq<char>) -> bool {
    0 <= i < frame.len() && frame[i].text@ == text
}

/// A piece in the middle of a screen is where what comes before it ends.
proof fn lemma_middle(
    frame: Seq<Span>,
    before: Seq<Piece>,
    middle: Seq<Piece>,
    after: Seq<Piece>,
    k: int,
)
    requires
        shown(frame) == before + middle + after,
        0 <= k < middle.len(),
    ensures
        says(frame, before.len() + k, middle[k].text),
        frame[before.len() + k].ink == middle[k].ink,
{
    let i = before.len() + k;
    assert(shown(frame).len() == frame.len());
    assert((before + middle + after)[i] == middle[k]);
    assert(shown(frame)[i] == (Piece { ink: frame[i].ink, text: frame[i].text@ }));
}

/// Whether piece `i` of the screen is the line of the nimber: the number that it shows, read as a
/// numeral, is `nimber`.
pub open spec fn shows_nimber(frame: Seq<Span>, i: int, nimber: int) -> bool {
    exists|digits: Seq<char>| #[trigger]
        is_numeral_of(digits, nimber) && says(frame, i, "nimber: "@ + digits + "\r\n"@)
}

/// Where the line of the nimber is: below the lines on top, the board, and an empty line.
spec fn nimber_place(editor: Editor, cache_len: usize) -> int {
    (editor_header(editor, cache_len).len() + board_frame(
        editor_look(editor.maze@, editor.target, (editor.row as int, editor.col as int)),
        editor.maze@.rows() as int,
        editor.maze@.cols() as int,
    ).len() + 1) as int
}

proof fn lemma_nimber_place(
    editor: Editor,
    cache_len: usize,
    computing: Option<&str>,
    progress: ProgressView,
    frame: Vec<Span>,
    k: int,
)
    requires
        editor.wf(),
        call_ensures(render_editor, (&editor, cache_len, computing, &progress), frame),
        0 <= k < nimber_frame(editor, elapsed_text(computing)).len(),
    ensures
        says(
            frame@,
            nimber_place(editor, cache_len) + k,
            nimber_frame(editor, elapsed_text(computing))[k].text,
        ),
        frame@[nimber_place(editor, cache_len) + k].ink == nimber_frame(
            editor,
            elapsed_text(computing),
        )[k].ink,
{
    let before = editor_header(editor, cache_len) + board_frame(
        editor_look(editor.maze@, editor.target, (editor.row as int, editor.col as int)),
        editor.maze@.rows() as int,
        editor.maze@.cols() as int,
    ) + seq![crate::text::plain("\r\n"@)];
    lemma_middle(
        frame@,
        before,
        nimber_frame(editor, elapsed_text(computing)),
        progress_frame(progress),
        k,
    );
}

/// Where the nimber of the board is known, the screen shows it: the number on the line of the nimber
/// is the nimber itself. The line is green for zero and magenta for anything else.
pub proof fn lemma_known_nimber_is_shown(
    editor: Editor,
    cache_len: usize,
    progress: ProgressView,
    frame: Vec<Span>,
    report: EvaluationReport,
)
    requires
        editor.wf(),
        editor.last_evaluation == Some(report),
        editor.nimber_is_current,
        !editor.last_cancelled,
        call_ensures(render_editor, (&editor, cache_len, None::<&str>, &progress), frame),
    ensures
        exists|i: int| #[trigger]
            shows_nimber(frame@, i, report.nimber as int) && frame@[i].ink == if report.nimber == 0 {
                Ink::Green
            } else {
                Ink::Magenta
            },
{
    lemma_nimber_place(editor, cache_len, None, progress, frame, 0);
    lemma_decimal_is_read(report.nimber as nat);
    assert(is_numeral_of(decimal(report.nimber as nat), report.nimber as int));
    assert(shows_nimber(frame@, nimber_place(editor, cache_len), report.nimber as int));
}

/// What an evaluation found is on the screen right after it: its nimber, its time, and the size and
/// nodes of the matrix.
pub proof fn lemma_result_is_shown(
    editor: &mut Editor,
    matrix: &BitMatrix,
    nimber: usize,
    elapsed: String,
    cache_len: usize,
    progress: ProgressView,
    frame: Vec<Span>,
)
    requires
        old(editor).wf(),
        matrix.wf(),
        call_ensures(Editor::finish_evaluation, (editor, matrix, Some(nimber), elapsed), ()),
        call_ensures(render_editor, (final(editor), cache_len, None::<&str>, &progress), frame),
    ensures
        exists|i: int| #[trigger] shows_nimber(frame@, i, nimber as int),
        exists|i: int| #[trigger] says(frame@, i, "previous elapsed: "@ + elapsed@ + "\r\n"@),
        exists|i: int| #[trigger]
            shows_matrix(
                frame@,
                i,
                matrix@.rows as int,
                matrix@.cols as int,
                matrix@.cells.len() as int,
            ),
{
    let after = *final(editor);
    let report = after.last_evaluation->0;
    lemma_known_nimber_is_shown(after, cache_len, progress, frame, report);
    lemma_report_is_shown(after, cache_len, progress, frame, report);
}

/// Whether piece `i` of the screen is the line of the matrix, with its rows, columns and nodes.
pub open spec fn shows_matrix(frame: Seq<Span>, i: int, rows: int, cols: int, nodes: int) -> bool {
    exists|r: Seq<char>, c: Seq<char>, n: Seq<char>|
        {
            &&& #[trigger] is_numeral_of(r, rows)
            &&& #[trigger] is_numeral_of(c, cols)
            &&& #[trigger] is_numeral_of(n, nodes)
            &&& says(
                frame,
                i,
                "previous compiled matrix: "@ + r + " × "@ + c + " with "@ + n + " nodes\r\n"@,
            )
        }
}

/// Whether piece `i` of the screen says that the board has been edited, and which nimber it had.
pub open spec fn shows_old_nimber(frame: Seq<Span>, i: int, nimber: int) -> bool {
    exists|digits: Seq<char>| #[trigger]
        is_numeral_of(digits, nimber) && says(
            frame,
            i,
            "nimber: stale after edits; previous value was "@ + digits + "\r\n"@,
        )
}

/// What the last evaluation found stays on the screen until another one is cancelled or under way: the
/// time it took, the size and nodes of its matrix, and its nimber, as that of the board or, if the board
/// has been edited, as an old one.
pub proof fn lemma_report_is_shown(
    editor: Editor,
    cache_len: usize,
    progress: ProgressView,
    frame: Vec<Span>,
    report: EvaluationReport,
)
    requires
        editor.wf(),
        editor.last_evaluation == Some(report),
        !editor.last_cancelled,
        call_ensures(render_editor, (&editor, cache_len, None::<&str>, &progress), frame),
    ensures
        editor.nimber_is_current ==> exists|i: int| #[trigger]
            shows_nimber(frame@, i, report.nimber as int),
        !editor.nimber_is_current ==> exists|i: int| #[trigger]
            shows_old_nimber(frame@, i, report.nimber as int) && frame@[i].ink == Ink::DarkGrey,
        exists|i: int| #[trigger] says(frame@, i, "previous elapsed: "@ + report.elapsed@ + "\r\n"@),
        exists|i: int| #[trigger]
            shows_matrix(
                frame@,
                i,
                report.matrix_rows as int,
                report.matrix_cols as int,
                report.matrix_nodes as int,
            ),
{
    let at = nimber_place(editor, cache_len);
    lemma_nimber_place(editor, cache_len, None, progress, frame, 0);
    lemma_nimber_place(editor, cache_len, None, progress, frame, 1);
    lemma_nimber_place(editor, cache_len, None, progress, frame, 2);
    lemma_decimal_is_read(report.nimber as nat);
    lemma_decimal_is_read(report.matrix_rows as nat);
    lemma_decimal_is_read(report.matrix_cols as nat);
    lemma_decimal_is_read(report.matrix_nodes as nat);
    assert(is_numeral_of(decimal(report.nimber as nat), report.nimber as int));
    if editor.nimber_is_current {
        assert(shows_nimber(frame@, at, report.nimber as int));
    } else {
        assert(shows_old_nimber(frame@, at, report.nimber as int));
    }
    assert(is_numeral_of(decimal(report.matrix_rows as nat), report.matrix_rows as int));
    assert(is_numeral_of(decimal(report.matrix_cols as nat), report.matrix_cols as int));
    assert(is_numeral_of(decimal(report.matrix_nodes as nat), report.matrix_nodes as int));
    assert(shows_matrix(
        frame@,
        at + 1,
        report.matrix_rows as int,
        report.matrix_cols as int,
        report.matrix_nodes as int,
    ));
    assert(says(frame@, at + 2, "previous elapsed: "@ + report.elapsed@ + "\r\n"@));
}

/// Two editors that differ in nothing but the nimber give different screens.
pub proof fn lemma_different_nimbers_differ(
    editor: Editor,
    other: Editor,
    cache_len: usize,
    progress: ProgressView,
    frame: Vec<Span>,
    other_frame: Vec<Span>,
)
    requires
        editor.wf(),
        other.wf(),
        other.maze@ == editor.maze@,
        other.target == editor.target,
        cursor_of(other) == cursor_of(editor),
        editor.last_evaluation is Some,
        other.last_evaluation is Some,
        editor.last_evaluation->0.nimber != other.last_evaluation->0.nimber,
        editor.nimber_is_current == other.nimber_is_current,
        !editor.last_cancelled,
        !other.last_cancelled,
        call_ensures(render_editor, (&editor, cache_len, None::<&str>, &progress), frame),
        call_ensures(render_editor, (&other, cache_len, None::<&str>, &progress), other_frame),
    ensures
        shown(frame@) != shown(other_frame@),
{
    let at = nimber_place(editor, cache_len);
    assert(nimber_place(other, cache_len) == at);
    lemma_nimber_place(editor, cache_len, None, progress, frame, 0);
    lemma_nimber_place(other, cache_len, None, progress, other_frame, 0);
    let n = editor.last_evaluation->0.nimber as nat;
    let m = other.last_evaluation->0.nimber as nat;
    lemma_decimal_is_read(n);
    lemma_decimal_is_read(m);
    if shown(frame@) == shown(other_frame@) {
        assert(shown(frame@)[at].text == shown(other_frame@)[at].text);
        let head = if editor.nimber_is_current {
            "nimber: "@
        } else {
            "nimber: stale after edits; previous value was "@
        };
        let a = head + decimal(n) + "\r\n"@;
        let b = head + decimal(m) + "\r\n"@;
        assert(a == b);
        assert(a.len() == b.len());
        assert(a.subrange(head.len() as int, (head.len() + decimal(n).len()) as int) =~= decimal(n));
        assert(b.subrange(head.len() as int, (head.len() + decimal(m).len()) as int) =~= decimal(m));
    }
}

/// While a nimber is computed, the screen says so and shows the time; a cancelled evaluation is shown
/// as such; and before any evaluation the screen says that there is none.
pub proof fn lemma_no_nimber_is_made_up(
    editor: Editor,
    cache_len: usize,
    computing: Option<&str>,
    progress: ProgressView,
    frame: Vec<Span>,
)
    requires
        editor.wf(),
        call_ensures(render_editor, (&editor, cache_len, computing, &progress), frame),
    ensures
        computing is Some ==> exists|i: int| #[trigger]
            says(frame@, i, "elapsed: "@ + computing->0@ + "    Esc/x: cancel\r\n"@) && says(
                frame@,
                i - 1,
                "Computing nimber...\r\n"@,
            ) && frame@[i - 1].ink == Ink::Yellow,
        computing is None && editor.last_cancelled ==> exists|i: int| #[trigger]
            says(frame@, i, "nimber: cancelled; completed cache entries were kept\r\n"@)
                && frame@[i].ink == Ink::Yellow,
        computing is None && !editor.last_cancelled && editor.last_evaluation is None ==> exists|
            i: int,
        | #[trigger] says(frame@, i, "nimber: not computed for this edit state\r\n"@),
{
    let at = nimber_place(editor, cache_len);
    lemma_nimber_place(editor, cache_len, computing, progress, frame, 0);
    if computing is Some {
        lemma_nimber_place(editor, cache_len, computing, progress, frame, 1);
        assert(says(frame@, at + 1, "elapsed: "@ + computing->0@ + "    Esc/x: cancel\r\n"@));
    }
}

/// Whether piece `i` of the screen is the line about the board in the editor: how many rows, columns
/// and nodes it has, what the cursor is on, how many threads the solver has, and how many nimbers are
/// kept.
pub open spec fn shows_board_line(
    frame: Seq<Span>,
    i: int,
    board: Board,
    target: EditTarget,
    threads: int,
    cache: int,
) -> bool {
    exists|r: Seq<char>, c: Seq<char>, n: Seq<char>, t: Seq<char>, k: Seq<char>|
        {
            &&& #[trigger] is_numeral_of(r, board.rows() as int)
            &&& #[trigger] is_numeral_of(c, board.cols() as int)
            &&& #[trigger] is_numeral_of(n, board.nodes.cells.len() as int)
            &&& #[trigger] is_numeral_of(t, threads)
            &&& #[trigger] is_numeral_of(k, cache)
            &&& says(
                frame,
                i,
                r + "×"@ + c + "  target: "@ + (match target {
                    EditTarget::Node => "node"@,
                    EditTarget::VerticalWall => "vertical wall"@,
                    EditTarget::HorizontalWall => "horizontal wall"@,
                }) + "  nodes: "@ + n + "  threads: "@ + t + "  cache: "@ + k + "\r\n"@,
            )
        }
}

/// The editor's screen begins with a title, the line about the board, and what the keys do.
pub proof fn lemma_board_line_is_shown(
    editor: Editor,
    cache_len: usize,
    computing: Option<&str>,
    progress: ProgressView,
    frame: Vec<Span>,
)
    requires
        editor.wf(),
        call_ensures(render_editor, (&editor, cache_len, computing, &progress), frame),
    ensures
        shows_board_line(
            frame@,
            1,
            editor.maze@,
            editor.target,
            editor.solver_threads as int,
            cache_len as int,
        ),
        says(frame@, 0, "NIM LIGHT — editor\r\n"@) && frame@[0].ink == Ink::Cyan,
        says(
            frame@,
            2,
            "Move arrows/hjkl · Tab target · Space toggle · n nimber · c cache\r\n"@,
        ),
        says(
            frame@,
            3,
            "+/- rows · </> cols · [/] threads · r demo · o open · m/Esc menu · q quit\r\n\r\n"@,
        ),
{
    let header = editor_header(editor, cache_len);
    let rest = board_frame(
        editor_look(editor.maze@, editor.target, (editor.row as int, editor.col as int)),
        editor.maze@.rows() as int,
        editor.maze@.cols() as int,
    ) + seq![crate::text::plain("\r\n"@)] + nimber_frame(editor, elapsed_text(computing))
        + progress_frame(progress);
    assert(shown(frame@) =~= Seq::<Piece>::empty() + header + rest);
    lemma_middle(frame@, Seq::empty(), header, rest, 0);
    lemma_middle(frame@, Seq::empty(), header, rest, 1);
    lemma_middle(frame@, Seq::empty(), header, rest, 2);
    lemma_middle(frame@, Seq::empty(), header, rest, 3);
    let board = editor.maze@;
    lemma_decimal_is_read(board.rows());
    lemma_decimal_is_read(board.cols());
    lemma_decimal_is_read(board.nodes.cells.len());
    lemma_decimal_is_read(editor.solver_threads as nat);
    lemma_decimal_is_read(cache_len as nat);
    assert(is_numeral_of(decimal(board.rows()), board.rows() as int));
    assert(is_numeral_of(decimal(board.cols()), board.cols() as int));
    assert(is_numeral_of(
        decimal(board.nodes.cells.len()),
        board.nodes.cells.len() as int,
    ));
    assert(is_numeral_of(
        decimal(editor.solver_threads as nat),
        editor.solver_threads as int,
    ));
    assert(is_numeral_of(decimal(cache_len as nat), cache_len as int));
}

proof fn lemma_game_begins(
    game: Game,
    selection: Selection,
    panel: Option<SolverPanel>,
    frame: Vec<Span>,
    k: int,
)
    requires
        game.wf(),
        selection.wf(game.maze@),
        call_ensures(render, (&game, &selection, panel), frame),
        0 <= k < game_header(game, selection.axis).len(),
    ensures
        says(frame@, k, game_header(game, selection.axis)[k].text),
        frame@[k].ink == game_header(game, selection.axis)[k].ink,
{
    let header = game_header(game, selection.axis);
    let rest = board_frame(
        game_look(game.maze@, selection.axis, selection.cursor, selection.cells@),
        game.maze@.rows() as int,
        game.maze@.cols() as int,
    ) + last_move_frame(game) + (match panel {
        Some(panel) => panel_frame(panel),
        None => Seq::empty(),
    });
    assert(shown(frame@) =~= Seq::<Piece>::empty() + header + rest);
    lemma_middle(frame@, Seq::empty(), header, rest, k);
}

/// Once the last node is taken, the headline names the player who took it, whichever of the two it was.
pub proof fn lemma_headline_names_the_winner(
    game: &mut Game,
    movement: Move,
    selection: Selection,
    panel: Option<SolverPanel>,
    frame: Vec<Span>,
)
    requires
        old(game).wf(),
        old(game).winner is None,
        call_ensures(Game::play, (game, movement), Ok::<(), MoveError>(())),
        final(game).maze@.nodes.cells.len() == 0,
        selection.wf(final(game).maze@),
        call_ensures(render, (final(game), &selection, panel), frame),
    ensures
        says(frame@, 0, old(game).players[old(game).turn as int].name@ + " wins!\r\n"@),
        says(frame@, 1, "r: rematch   m/Esc: menu   q: quit\r\n\r\n"@),
        frame@[0].ink == Ink::Green,
{
    lemma_game_begins(*final(game), selection, panel, frame, 0);
    lemma_game_begins(*final(game), selection, panel, frame, 1);
}

/// Whether piece `i` of the screen shows how many nodes are left, and the direction of the corridor.
pub open spec fn shows_nodes_left(frame: Seq<Span>, i: int, nodes: int, axis: Axis) -> bool {
    exists|digits: Seq<char>| #[trigger]
        is_numeral_of(digits, nodes) && says(
            frame,
            i,
            "    nodes: "@ + digits + "    corridor: "@ + (match axis {
                Axis::Horizontal => "horizontal"@,
                Axis::Vertical => "vertical"@,
            }) + "\r\n"@,
        )
}

/// While the game goes on, the headline names the player who is to move, and shows how many nodes are
/// left. The two players have different colours.
pub proof fn lemma_headline_names_who_is_to_move(
    game: Game,
    selection: Selection,
    panel: Option<SolverPanel>,
    frame: Vec<Span>,
)
    requires
        game.wf(),
        game.winner is None,
        selection.wf(game.maze@),
        call_ensures(render, (&game, &selection, panel), frame),
    ensures
        says(frame@, 0, "Turn: "@),
        says(frame@, 1, game.players[game.turn as int].name@),
        says(
            frame@,
            3,
            "Move: arrows/hjkl  Axis: Tab  Select: Space  Sweep: Space×2  Take: Enter\r\n"@,
        ),
        says(frame@, 4, "Esc clears selection  ·  m menu  ·  q quit\r\n\r\n"@),
        frame@[1].ink == if game.turn == 0 {
            Ink::Cyan
        } else {
            Ink::Magenta
        },
        shows_nodes_left(frame@, 2, game.maze@.nodes.cells.len() as int, selection.axis),
{
    lemma_game_begins(game, selection, panel, frame, 0);
    lemma_game_begins(game, selection, panel, frame, 1);
    lemma_game_begins(game, selection, panel, frame, 2);
    lemma_game_begins(game, selection, panel, frame, 3);
    lemma_game_begins(game, selection, panel, frame, 4);
    lemma_decimal_is_read(game.maze@.nodes.cells.len());
    assert(is_numeral_of(
        decimal(game.maze@.nodes.cells.len()),
        game.maze@.nodes.cells.len() as int,
    ));
}

/// A move passes the headline to the other player: the name that is shown after it is not the one that
/// was shown before, unless the move was the last.
pub proof fn lemma_headline_passes_on(
    game: &mut Game,
    movement: Move,
    selection: Selection,
    later_selection: Selection,
    frame: Vec<Span>,
    later_frame: Vec<Span>,
)
    requires
        old(game).wf(),
        old(game).winner is None,
        old(game).players[0].name@ != old(game).players[1].name@,
        selection.wf(old(game).maze@),
        call_ensures(render, (old(game), &selection, None::<SolverPanel>), frame),
        call_ensures(Game::play, (game, movement), Ok::<(), MoveError>(())),
        final(game).maze@.nodes.cells.len() > 0,
        later_selection.wf(final(game).maze@),
        call_ensures(render, (final(game), &later_selection, None::<SolverPanel>), later_frame),
    ensures
        frame@[1].text@ != later_frame@[1].text@,
        frame@[1].ink != later_frame@[1].ink,
{
    lemma_headline_names_who_is_to_move(*old(game), selection, None, frame);
    lemma_headline_names_who_is_to_move(*final(game), later_selection, None, later_frame);
}

/// Whether piece `i` of the screen says how many nodes were taken, and from which kind of corridor.
pub open spec fn shows_taken(frame: Seq<Span>, i: int, nodes: int, axis: Axis) -> bool {
    exists|digits: Seq<char>| #[trigger]
        is_numeral_of(digits, nodes) && says(
            frame,
            i,
            " took "@ + digits + (if nodes == 1 {
                " node"@ + ""@
            } else {
                " node"@ + "s"@
            }) + " from a "@ + (match axis {
                Axis::Horizontal => "horizontal"@,
                Axis::Vertical => "vertical"@,
            }) + " corridor."@,
        )
}

/// The last lines tell of the last move: the name of the player who made it, and how many nodes it took
/// from which kind of corridor.
pub proof fn lemma_last_move_is_told(
    game: &mut Game,
    movement: Move,
    selection: Selection,
    panel: Option<SolverPanel>,
    frame: Vec<Span>,
)
    requires
        old(game).wf(),
        call_ensures(Game::play, (game, movement), Ok::<(), MoveError>(())),
        selection.wf(final(game).maze@),
        call_ensures(render, (final(game), &selection, panel), frame),
    ensures
        exists|i: int| #[trigger]
            says(frame@, i, old(game).players[old(game).turn as int].name@) && shows_taken(
                frame@,
                i + 1,
                movement.cells@.len() as int,
                movement.axis,
            ) && frame@[i].ink == if old(game).turn == 0 {
                Ink::Cyan
            } else {
                Ink::Magenta
            },
{
    let after = *final(game);
    let before = game_header(after, selection.axis) + board_frame(
        game_look(after.maze@, selection.axis, selection.cursor, selection.cells@),
        after.maze@.rows() as int,
        after.maze@.cols() as int,
    );
    let rest = match panel {
        Some(panel) => panel_frame(panel),
        None => Seq::empty(),
    };
    let middle = last_move_frame(after);
    assert(shown(frame@) =~= before + middle + rest);
    lemma_middle(frame@, before, middle, rest, 1);
    lemma_middle(frame@, before, middle, rest, 2);
    let n = movement.cells@.len();
    lemma_decimal_is_read(n);
    assert(is_numeral_of(decimal(n), n as int));
    let at: int = before.len() + 1int;
    let words = if n == 1 {
        " node"@ + ""@
    } else {
        " node"@ + "s"@
    };
    assert(" took "@ + decimal(n) + " node"@ + (if n == 1 {
        ""@
    } else {
        "s"@
    }) =~= " took "@ + decimal(n) + words);
    assert(shows_taken(frame@, at + 1, n as int, movement.axis));
    assert(says(frame@, at, old(game).players[old(game).turn as int].name@));
}

/// Whether two pieces of the screen are the lines of the solver's work, with every count in its place.
pub open spec fn shows_progress(frame: Seq<Span>, i: int, progress: ProgressView) -> bool {
    &&& shows_first_line(frame, i, progress)
    &&& shows_second_line(frame, i + 1, progress)
    &&& says(frame, i + 2, progress.rates@)
}

/// Whether piece `i` of the screen is the first line of the solver's work.
pub open spec fn shows_first_line(frame: Seq<Span>, i: int, progress: ProgressView) -> bool {
    exists|
        a: Seq<char>,
        b: Seq<char>,
        c: Seq<char>,
        d: Seq<char>,
        e: Seq<char>,
        f: Seq<char>,
    |
        {
            &&& #[trigger] is_numeral_of(a, progress.stats.evaluation_attempts as int)
            &&& #[trigger] is_numeral_of(b, progress.stats.unique_positions_claimed as int)
            &&& #[trigger] is_numeral_of(c, progress.stats.completed_positions as int)
            &&& #[trigger] is_numeral_of(d, progress.stats.completed_cache_hits as int)
            &&& #[trigger] is_numeral_of(e, progress.cache_done_entries as int)
            &&& #[trigger] is_numeral_of(f, progress.cache_processing_entries as int)
            &&& says(
                frame,
                i,
                "evals "@ + a + "  unique "@ + b + "  done "@ + c + "  hits "@ + d + "  cache "@ + e
                    + "+"@ + f + " (~"@ + progress.cache_size@ + ")\r\n"@,
            )
        }
}

/// Whether piece `i` of the screen is the second line of the solver's work.
pub open spec fn shows_second_line(frame: Seq<Span>, i: int, progress: ProgressView) -> bool {
    exists|a: Seq<char>, b: Seq<char>, c: Seq<char>, d: Seq<char>, e: Seq<char>|
        {
            &&& #[trigger] is_numeral_of(a, progress.stats.processing_hits as int)
            &&& #[trigger] is_numeral_of(b, progress.stats.deferred_resolved as int)
            &&& #[trigger] is_numeral_of(c, progress.stats.forced_duplicate_evaluations as int)
            &&& #[trigger] is_numeral_of(d, progress.stats.symmetry_zero_certificates as int)
            &&& #[trigger] is_numeral_of(e, progress.stats.cooperative_regions as int)
            &&& says(
                frame,
                i,
                "busy "@ + a + "  deferred "@ + b + "  forced "@ + c + "  symmetry "@ + d
                    + "  parallel "@ + e + "\r\n"@,
            )
        }
}

proof fn lemma_progress_lines(frame: Seq<Span>, at: int, progress: ProgressView)
    requires
        says(frame, at, crate::screen::progress_first(progress)),
        says(frame, at + 1, crate::screen::progress_second(progress)),
        says(frame, at + 2, progress.rates@),
    ensures
        shows_progress(frame, at, progress),
{
    let stats = progress.stats;
    lemma_decimal_is_read(stats.evaluation_attempts as nat);
    lemma_decimal_is_read(stats.unique_positions_claimed as nat);
    lemma_decimal_is_read(stats.completed_positions as nat);
    lemma_decimal_is_read(stats.completed_cache_hits as nat);
    lemma_decimal_is_read(progress.cache_done_entries as nat);
    lemma_decimal_is_read(progress.cache_processing_entries as nat);
    lemma_decimal_is_read(stats.processing_hits as nat);
    lemma_decimal_is_read(stats.deferred_resolved as nat);
    lemma_decimal_is_read(stats.forced_duplicate_evaluations as nat);
    lemma_decimal_is_read(stats.symmetry_zero_certificates as nat);
    lemma_decimal_is_read(stats.cooperative_regions as nat);
    assert(shows_first_line(frame, at, progress)) by {
        assert(is_numeral_of(
            decimal(stats.evaluation_attempts as nat),
            progress.stats.evaluation_attempts as int,
        ));
        assert(is_numeral_of(
            decimal(stats.unique_positions_claimed as nat),
            progress.stats.unique_positions_claimed as int,
        ));
        assert(is_numeral_of(
            decimal(stats.completed_positions as nat),
            progress.stats.completed_positions as int,
        ));
        assert(is_numeral_of(
            decimal(stats.completed_cache_hits as nat),
            progress.stats.completed_cache_hits as int,
        ));
        assert(is_numeral_of(
            decimal(progress.cache_done_entries as nat),
            progress.cache_done_entries as int,
        ));
        assert(is_numeral_of(
            decimal(progress.cache_processing_entries as nat),
            progress.cache_processing_entries as int,
        ));
    }
    assert(shows_second_line(frame, at + 1, progress)) by {
        assert(is_numeral_of(
            decimal(stats.processing_hits as nat),
            progress.stats.processing_hits as int,
        ));
        assert(is_numeral_of(
            decimal(stats.deferred_resolved as nat),
            progress.stats.deferred_resolved as int,
        ));
        assert(is_numeral_of(
            decimal(stats.forced_duplicate_evaluations as nat),
            progress.stats.forced_duplicate_evaluations as int,
        ));
        assert(is_numeral_of(
            decimal(stats.symmetry_zero_certificates as nat),
            progress.stats.symmetry_zero_certificates as int,
        ));
        assert(is_numeral_of(
            decimal(stats.cooperative_regions as nat),
            progress.stats.cooperative_regions as int,
        ));
    }
}

/// The counts of the solver's work can be read, each next to its own name.
pub proof fn lemma_progress_is_shown(progress: ProgressView, frame: Vec<Span>)
    requires
        call_ensures(render_progress, (&progress,), frame),
    ensures
        frame@.len() == 3,
        shows_progress(frame@, 0, progress),
{
    let pieces = progress_frame(progress);
    assert(shown(frame@) =~= Seq::<Piece>::empty() + pieces + Seq::<Piece>::empty());
    assert(shown(frame@).len() == frame@.len());
    lemma_middle(frame@, Seq::empty(), pieces, Seq::empty(), 0);
    lemma_middle(frame@, Seq::empty(), pieces, Seq::empty(), 1);
    lemma_middle(frame@, Seq::empty(), pieces, Seq::empty(), 2);
    lemma_progress_lines(frame@, 0, progress);
}

/// The counts end the editor's screen, and the screen of a game with the solver, where the status and
/// the number of threads stand above them.
pub proof fn lemma_progress_ends_the_screen(
    editor: Editor,
    cache_len: usize,
    computing: Option<&str>,
    progress: ProgressView,
    frame: Vec<Span>,
    game: Game,
    selection: Selection,
    panel: SolverPanel,
    game_screen: Vec<Span>,
)
    requires
        editor.wf(),
        call_ensures(render_editor, (&editor, cache_len, computing, &progress), frame),
        game.wf(),
        selection.wf(game.maze@),
        call_ensures(render, (&game, &selection, Some(panel)), game_screen),
    ensures
        shows_progress(frame@, frame@.len() - 3, progress),
        shows_progress(game_screen@, game_screen@.len() - 3, *panel.progress),
        says(game_screen@, game_screen@.len() - 6, panel.status@),
        exists|digits: Seq<char>| #[trigger]
            is_numeral_of(digits, panel.threads as int) && says(
                game_screen@,
                game_screen@.len() - 5,
                "    threads: "@ + digits,
            ),
{
    let before = editor_header(editor, cache_len) + board_frame(
        editor_look(editor.maze@, editor.target, (editor.row as int, editor.col as int)),
        editor.maze@.rows() as int,
        editor.maze@.cols() as int,
    ) + seq![crate::text::plain("\r\n"@)] + nimber_frame(editor, elapsed_text(computing));
    let pieces = progress_frame(progress);
    let none = Seq::<Piece>::empty();
    assert(shown(frame@) =~= before + pieces + none);
    assert(shown(frame@).len() == frame@.len());
    lemma_middle(frame@, before, pieces, none, 0);
    lemma_middle(frame@, before, pieces, none, 1);
    lemma_middle(frame@, before, pieces, none, 2);
    lemma_progress_lines(frame@, frame@.len() - 3, progress);
    let above = game_header(game, selection.axis) + board_frame(
        game_look(game.maze@, selection.axis, selection.cursor, selection.cells@),
        game.maze@.rows() as int,
        game.maze@.cols() as int,
    ) + last_move_frame(game);
    let below = panel_frame(panel);
    assert(shown(game_screen@) =~= above + below + none);
    assert(shown(game_screen@).len() == game_screen@.len());
    lemma_middle(game_screen@, above, below, none, 1);
    lemma_middle(game_screen@, above, below, none, 2);
    lemma_middle(game_screen@, above, below, none, 4);
    lemma_middle(game_screen@, above, below, none, 5);
    lemma_middle(game_screen@, above, below, none, 6);
    lemma_progress_lines(game_screen@, game_screen@.len() - 3, *panel.progress);
    lemma_decimal_is_read(panel.threads as nat);
    assert(is_numeral_of(decimal(panel.threads as nat), panel.threads as int));
}

/// What the menu calls a choice.
pub open spec fn choice_label(choice: MenuChoice) -> Seq<char> {
    match choice {
        MenuChoice::HumanVsHuman => "Human vs human\r\n"@,
        MenuChoice::HumanVsCpu => "Human vs solver CPU\r\n"@,
        MenuChoice::Editor => "Level editor / solver\r\n\r\n"@,
        MenuChoice::Quit => "Quit\r\n"@,
    }
}

/// The menu shows every character that chooses something, in front of what it chooses.
pub proof fn lemma_menu_shows_its_keys(frame: Vec<Span>, c: char, choice: MenuChoice)
    requires
        call_ensures(render_menu, (), frame),
        call_ensures(menu_choice, (Key::Char(c),), Some(choice)),
    ensures
        exists|i: int| #[trigger]
            says(frame@, i, "  "@ + seq![c] + "  "@ + choice_label(choice)),
{
    reveal_strlit("  ");
    reveal_strlit("  1  Human vs human\r\n");
    reveal_strlit("  2  Human vs solver CPU\r\n");
    reveal_strlit("  3  Level editor / solver\r\n\r\n");
    reveal_strlit("  q  Quit\r\n");
    reveal_strlit("Human vs human\r\n");
    reveal_strlit("Human vs solver CPU\r\n");
    reveal_strlit("Level editor / solver\r\n\r\n");
    reveal_strlit("Quit\r\n");
    let pieces = crate::screen::menu_frame();
    let text = "  "@ + seq![c] + "  "@ + choice_label(choice);
    assert(shown(frame@) =~= Seq::<Piece>::empty() + pieces + Seq::<Piece>::empty());
    let k = match choice {
        MenuChoice::HumanVsHuman => 2int,
        MenuChoice::HumanVsCpu => 3int,
        MenuChoice::Editor => 4int,
        MenuChoice::Quit => 5int,
    };
    lemma_middle(frame@, Seq::empty(), pieces, Seq::empty(), k);
    assert(pieces[k].text =~= text);
    assert(says(frame@, k, text));
}

/// The menu has a title, says what the game is about, and shows four choices; there is nothing else.
pub proof fn lemma_menu_says_what_the_game_is(frame: Vec<Span>)
    requires
        call_ensures(render_menu, (), frame),
    ensures
        frame@.len() == 6,
        says(frame@, 0, "NIM LIGHT\r\n\r\n"@) && frame@[0].ink == Ink::Cyan,
        says(frame@, 1, "Take one or more nodes from one corridor. Last move wins.\r\n\r\n"@),
{
    let pieces = crate::screen::menu_frame();
    assert(shown(frame@) =~= Seq::<Piece>::empty() + pieces + Seq::<Piece>::empty());
    assert(shown(frame@).len() == frame@.len());
    lemma_middle(frame@, Seq::empty(), pieces, Seq::empty(), 0);
    lemma_middle(frame@, Seq::empty(), pieces, Seq::empty(), 1);
}

} // verus!
