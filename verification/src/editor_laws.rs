//! What the keys of the editor keep, what they change, and what one of them undoes of another.
use crate::board::{Board, Maze};
use crate::board_laws::{agrees_where_shared, node_at, same_size, wall_below, wall_right_of};
use crate::editor::{cancels_evaluation, EditTarget, Editor, EditorAction};
use crate::grid::countable;
use crate::matrix::BitMatrix;
use crate::play::{cpu_key, CpuKey, Key};
use vstd::prelude::*;

verus! {

/// Whether the target at a place is there: a node or a wall.
pub open spec fn target_is_there(board: Board, target: EditTarget, p: (int, int)) -> bool {
    match target {
        EditTarget::Node => node_at(board, p),
        EditTarget::VerticalWall => wall_right_of(board, p),
        EditTarget::HorizontalWall => wall_below(board, p),
    }
}

/// Whether the board has a target at a place: walls stand between two places of the board.
pub open spec fn has_target(board: Board, target: EditTarget, p: (int, int)) -> bool {
    match target {
        EditTarget::Node => board.contains(p),
        EditTarget::VerticalWall => board.contains(p) && board.contains((p.0, p.1 + 1)),
        EditTarget::HorizontalWall => board.contains(p) && board.contains((p.0 + 1, p.1)),
    }
}

/// The place of the cursor.
pub open spec fn cursor_of(editor: Editor) -> (int, int) {
    (editor.row as int, editor.col as int)
}

/// The space bar exchanges the target under the cursor: after it the node or the wall is there if and
/// only if it was not before. No other node and no other wall changes, and the cursor stays.
pub proof fn lemma_space_exchanges_the_target(editor: &mut Editor, action: EditorAction)
    requires
        old(editor).wf(),
        call_ensures(Editor::press, (editor, Key::Char(' ')), action),
    ensures
        target_is_there(final(editor).maze@, old(editor).target, cursor_of(*old(editor)))
            == !target_is_there(old(editor).maze@, old(editor).target, cursor_of(*old(editor))),
        forall|target: EditTarget, p: (int, int)|
            (target != old(editor).target || p != cursor_of(*old(editor))) ==> (
            #[trigger] target_is_there(final(editor).maze@, target, p) <==> target_is_there(
                old(editor).maze@,
                target,
                p,
            )),
        same_size(final(editor).maze@, old(editor).maze@),
        cursor_of(*final(editor)) == cursor_of(*old(editor)),
        final(editor).target == old(editor).target,
        action is Continue,
{
}

/// The space bar, pressed twice, gives back the board, whatever the target is.
pub proof fn lemma_space_twice_gives_back(
    first: &mut Editor,
    second: &mut Editor,
    action: EditorAction,
    second_action: EditorAction,
)
    requires
        old(first).wf(),
        call_ensures(Editor::press, (first, Key::Char(' ')), action),
        *old(second) == *final(first),
        call_ensures(Editor::press, (second, Key::Char(' ')), second_action),
    ensures
        final(second).maze@ == old(first).maze@,
        cursor_of(*final(second)) == cursor_of(*old(first)),
        final(second).target == old(first).target,
{
    let before = old(first).maze@;
    let after = final(second).maze@;
    assert(after.nodes.cells =~= before.nodes.cells);
    assert(after.vertical.cells =~= before.vertical.cells);
    assert(after.horizontal.cells =~= before.horizontal.cells);
}

/// Where a key takes the cursor: one place on, unless the board has no such target there.
pub open spec fn goes_towards(
    board: Board,
    target: EditTarget,
    from: (int, int),
    rows: int,
    cols: int,
    to: (int, int),
) -> bool {
    if has_target(board, target, (from.0 + rows, from.1 + cols)) {
        to == (from.0 + rows, from.1 + cols)
    } else {
        to == from
    }
}

/// The arrows take the cursor one place up, down, left or right, and no further than the targets go.
/// They change nothing else.
pub proof fn lemma_arrows_move_the_cursor(editor: &mut Editor, key: Key, action: EditorAction)
    requires
        old(editor).wf(),
        key == Key::Up || key == Key::Down || key == Key::Left || key == Key::Right,
        call_ensures(Editor::press, (editor, key), action),
    ensures
        ({
            let board = old(editor).maze@;
            let target = old(editor).target;
            let from = cursor_of(*old(editor));
            let to = cursor_of(*final(editor));
            &&& key == Key::Up ==> goes_towards(board, target, from, -1, 0, to)
            &&& key == Key::Down ==> goes_towards(board, target, from, 1, 0, to)
            &&& key == Key::Left ==> goes_towards(board, target, from, 0, -1, to)
            &&& key == Key::Right ==> goes_towards(board, target, from, 0, 1, to)
        }),
        final(editor).maze == old(editor).maze,
        final(editor).target == old(editor).target,
        final(editor).last_evaluation == old(editor).last_evaluation,
        final(editor).nimber_is_current == old(editor).nimber_is_current,
        final(editor).solver_threads == old(editor).solver_threads,
        final(editor).symmetry == old(editor).symmetry,
        action is Continue,
{
}

/// Whether a letter stands for an arrow.
pub open spec fn stands_for(letter: Key, arrow: Key) -> bool {
    ||| letter == Key::Char('k') && arrow == Key::Up
    ||| letter == Key::Char('j') && arrow == Key::Down
    ||| letter == Key::Char('h') && arrow == Key::Left
    ||| letter == Key::Char('l') && arrow == Key::Right
}

/// Whether one key takes the cursor back where the other came from.
pub open spec fn are_opposite(key: Key, back: Key) -> bool {
    ||| key == Key::Up && back == Key::Down
    ||| key == Key::Down && back == Key::Up
    ||| key == Key::Left && back == Key::Right
    ||| key == Key::Right && back == Key::Left
}

/// The letters do what the arrows do.
pub proof fn lemma_letters_are_arrows(
    editor: &mut Editor,
    other: &mut Editor,
    letter: Key,
    arrow: Key,
    action: EditorAction,
    other_action: EditorAction,
)
    requires
        old(editor).wf(),
        *old(other) == *old(editor),
        stands_for(letter, arrow),
        call_ensures(Editor::press, (editor, letter), action),
        call_ensures(Editor::press, (other, arrow), other_action),
    ensures
        cursor_of(*final(editor)) == cursor_of(*final(other)),
        final(editor).maze == final(other).maze,
        final(editor).target == final(other).target,
        action == other_action,
{
}

/// An arrow that moved the cursor is undone by the opposite arrow.
pub proof fn lemma_opposite_arrow_goes_back(
    editor: &mut Editor,
    again: &mut Editor,
    key: Key,
    back: Key,
    action: EditorAction,
    back_action: EditorAction,
)
    requires
        old(editor).wf(),
        are_opposite(key, back),
        call_ensures(Editor::press, (editor, key), action),
        cursor_of(*final(editor)) != cursor_of(*old(editor)),
        *old(again) == *final(editor),
        call_ensures(Editor::press, (again, back), back_action),
    ensures
        cursor_of(*final(again)) == cursor_of(*old(editor)),
        final(again).maze == old(editor).maze,
        final(again).target == old(editor).target,
{
}

/// Whether the board has a target of the kind anywhere.
pub open spec fn offers(board: Board, target: EditTarget) -> bool {
    has_target(board, target, (0, 0))
}

/// The tabulator goes on to another target that the board has, if there is one, and keeps the cursor
/// where it is, if the board has such a target there; where it has none, the cursor goes back by one.
/// It changes nothing else.
pub proof fn lemma_tab_goes_on(editor: &mut Editor, action: EditorAction)
    requires
        old(editor).wf(),
        call_ensures(Editor::press, (editor, Key::Tab), action),
    ensures
        has_target(final(editor).maze@, final(editor).target, cursor_of(*final(editor))),
        final(editor).target == old(editor).target ==> forall|other: EditTarget| #[trigger]
            offers(old(editor).maze@, other) ==> other == old(editor).target,
        has_target(old(editor).maze@, final(editor).target, cursor_of(*old(editor)))
            ==> cursor_of(*final(editor)) == cursor_of(*old(editor)),
        cursor_of(*final(editor)).0 == cursor_of(*old(editor)).0 || cursor_of(*final(editor)).0
            == cursor_of(*old(editor)).0 - 1 && old(editor).row + 1 == old(editor).maze@.rows(),
        cursor_of(*final(editor)).1 == cursor_of(*old(editor)).1 || cursor_of(*final(editor)).1
            == cursor_of(*old(editor)).1 - 1 && old(editor).col + 1 == old(editor).maze@.cols(),
        final(editor).maze == old(editor).maze,
        final(editor).last_evaluation == old(editor).last_evaluation,
        final(editor).nimber_is_current == old(editor).nimber_is_current,
        action is Continue,
{
    let board = old(editor).maze@;
    if final(editor).target == old(editor).target {
        assert forall|other: EditTarget| #[trigger] offers(board, other) implies other == old(editor).target by {
            match other {
                EditTarget::Node => {},
                EditTarget::VerticalWall => {},
                EditTarget::HorizontalWall => {},
            }
        }
    }
}

/// Three tabulators go through all targets: the board's targets all come up, and on a board with walls
/// of both kinds the third one comes back to the first target.
pub proof fn lemma_tab_goes_round(
    first: &mut Editor,
    second: &mut Editor,
    third: &mut Editor,
    actions: (EditorAction, EditorAction, EditorAction),
)
    requires
        old(first).wf(),
        call_ensures(Editor::press, (first, Key::Tab), actions.0),
        *old(second) == *final(first),
        call_ensures(Editor::press, (second, Key::Tab), actions.1),
        *old(third) == *final(second),
        call_ensures(Editor::press, (third, Key::Tab), actions.2),
    ensures
        forall|target: EditTarget| #[trigger]
            offers(old(first).maze@, target) ==> target == final(first).target || target == final(second).target || target == final(third).target,
        old(first).maze@.rows() > 1 && old(first).maze@.cols() > 1 ==> final(third).target == old(first).target,
{
    assert forall|target: EditTarget| #[trigger] offers(old(first).maze@, target) implies target
        == final(first).target || target == final(second).target || target == final(third).target by {
        match target {
            EditTarget::Node => {},
            EditTarget::VerticalWall => {},
            EditTarget::HorizontalWall => {},
        }
    }
}

/// Whether a key makes the board larger or smaller.
pub open spec fn is_resizing(key: Key) -> bool {
    ||| key == Key::Char('+')
    ||| key == Key::Char('-')
    ||| key == Key::Char('>')
    ||| key == Key::Char('<')
}

/// The keys for the size add or drop one row or one column, but not the last, and keep everything that
/// there is still room for; what is new is open. The cursor stays where it is, or on the last row or
/// column. Only a board too large to be counted is not made.
pub proof fn lemma_size_keys_keep_the_rest(editor: &mut Editor, key: Key, action: EditorAction)
    requires
        old(editor).wf(),
        is_resizing(key),
        countable(old(editor).maze@.rows() + 1, old(editor).maze@.cols() + 1),
        call_ensures(Editor::press, (editor, key), action),
    ensures
        ({
            let before = old(editor).maze@;
            let after = final(editor).maze@;
            &&& agrees_where_shared(before, after)
            &&& key == Key::Char('+') ==> after.rows() == before.rows() + 1
            &&& key == Key::Char('-') ==> after.rows() == if before.rows() > 1 {
                before.rows() - 1
            } else {
                1
            }
            &&& key == Key::Char('>') ==> after.cols() == before.cols() + 1
            &&& key == Key::Char('<') ==> after.cols() == if before.cols() > 1 {
                before.cols() - 1
            } else {
                1
            }
            &&& key == Key::Char('+') || key == Key::Char('-') ==> after.cols() == before.cols()
            &&& key == Key::Char('>') || key == Key::Char('<') ==> after.rows() == before.rows()
            &&& after.contains(cursor_of(*final(editor)))
            &&& after.contains(cursor_of(*old(editor))) ==> cursor_of(*final(editor)) == cursor_of(
                *old(editor),
            )
            &&& old(editor).row >= after.rows() ==> final(editor).row + 1 == after.rows() && final(editor).col == old(editor).col
            &&& old(editor).col >= after.cols() ==> final(editor).col + 1 == after.cols() && final(editor).row == old(editor).row
        }),
        final(editor).target is Node,
        action is Continue,
{
    let board = old(editor).maze@;
    lemma_countable_below(board.rows() + 1, board.cols() + 1);
}

proof fn lemma_countable_below(rows: nat, cols: nat)
    requires
        countable(rows, cols),
    ensures
        forall|r: nat, c: nat| r <= rows && c <= cols ==> #[trigger] countable(r, c),
{
    assert forall|r: nat, c: nat| r <= rows && c <= cols implies #[trigger] countable(r, c) by {
        assert(r * c <= rows * cols) by (nonlinear_arith)
            requires
                0 <= r <= rows,
                0 <= c <= cols,
        ;
    }
}

/// Whether `less` takes back the row or column that `more` adds.
pub open spec fn takes_back(more: Key, less: Key) -> bool {
    ||| more == Key::Char('+') && less == Key::Char('-')
    ||| more == Key::Char('>') && less == Key::Char('<')
}

/// A row or column that was added and dropped again leaves the board as it was.
pub proof fn lemma_size_key_taken_back(
    first: &mut Editor,
    second: &mut Editor,
    more: Key,
    less: Key,
    action: EditorAction,
    second_action: EditorAction,
)
    requires
        old(first).wf(),
        takes_back(more, less),
        countable(old(first).maze@.rows() + 1, old(first).maze@.cols() + 1),
        call_ensures(Editor::press, (first, more), action),
        *old(second) == *final(first),
        call_ensures(Editor::press, (second, less), second_action),
    ensures
        final(second).maze@ == old(first).maze@,
        cursor_of(*final(second)) == cursor_of(*old(first)),
{
    let before = old(first).maze@;
    lemma_countable_below(before.rows() + 1, before.cols() + 1);
    let after = final(second).maze@;
    assert(after.nodes.cells =~= before.nodes.cells);
    assert(after.vertical.cells =~= before.vertical.cells);
    assert(after.horizontal.cells =~= before.horizontal.cells);
}

/// The keys that need no shift do what those do that need it.
pub proof fn lemma_size_keys_without_shift(
    editor: &mut Editor,
    other: &mut Editor,
    key: Key,
    shifted: Key,
    action: EditorAction,
    other_action: EditorAction,
)
    requires
        old(editor).wf(),
        *old(other) == *old(editor),
        key == Key::Char('=') && shifted == Key::Char('+') || key == Key::Char('.') && shifted
            == Key::Char('>') || key == Key::Char(',') && shifted == Key::Char('<'),
        call_ensures(Editor::press, (editor, key), action),
        call_ensures(Editor::press, (other, shifted), other_action),
    ensures
        final(editor).maze@ == final(other).maze@,
        cursor_of(*final(editor)) == cursor_of(*final(other)),
        final(editor).target == final(other).target,
        action == other_action,
{
}

/// The brackets change the number of threads by one, between one and 64; the solver is told the new
/// number, unless it stays.
pub proof fn lemma_brackets_count_threads(editor: &mut Editor, key: Key, action: EditorAction)
    requires
        old(editor).wf(),
        key == Key::Char('[') || key == Key::Char(']'),
        call_ensures(Editor::press, (editor, key), action),
    ensures
        key == Key::Char(']') && old(editor).solver_threads < 64 ==> final(editor).solver_threads == old(editor).solver_threads + 1,
        key == Key::Char('[') && old(editor).solver_threads > 1 ==> final(editor).solver_threads
            == old(editor).solver_threads - 1,
        1 <= final(editor).solver_threads <= 64,
        final(editor).solver_threads == old(editor).solver_threads <==> action is Continue,
        action is Continue || action == EditorAction::SetThreads(final(editor).solver_threads),
        final(editor).maze == old(editor).maze,
        final(editor).nimber_is_current == old(editor).nimber_is_current,
        final(editor).last_evaluation == old(editor).last_evaluation,
        final(editor).symmetry == old(editor).symmetry,
{
}

/// One bracket undoes the other, but at the highest and the lowest number.
pub proof fn lemma_brackets_undo(
    first: &mut Editor,
    second: &mut Editor,
    key: Key,
    back: Key,
    action: EditorAction,
    second_action: EditorAction,
)
    requires
        old(first).wf(),
        key == Key::Char('[') && back == Key::Char(']') || key == Key::Char(']') && back
            == Key::Char('['),
        call_ensures(Editor::press, (first, key), action),
        action !is Continue,
        *old(second) == *final(first),
        call_ensures(Editor::press, (second, back), second_action),
    ensures
        final(second).solver_threads == old(first).solver_threads,
        second_action == EditorAction::SetThreads(old(first).solver_threads),
{
}

/// The key for symmetries turns the look-out for them on or off, tells the solver, and pressed twice
/// leaves it as it was.
pub proof fn lemma_symmetry_key_twice(
    first: &mut Editor,
    second: &mut Editor,
    action: EditorAction,
    second_action: EditorAction,
)
    requires
        old(first).wf(),
        call_ensures(Editor::press, (first, Key::Char('y')), action),
        *old(second) == *final(first),
        call_ensures(Editor::press, (second, Key::Char('y')), second_action),
    ensures
        final(first).symmetry != old(first).symmetry,
        action == EditorAction::SetSymmetry(final(first).symmetry),
        final(second).symmetry == old(first).symmetry,
        second_action == EditorAction::SetSymmetry(old(first).symmetry),
        final(second).maze == old(first).maze,
        final(second).nimber_is_current == old(first).nimber_is_current,
{
}

/// Whatever key is pressed, a nimber that is shown as that of the board is that of the board as it is
/// now: it was so before, and the board has not changed. An old nimber is forgotten only with the cache.
pub proof fn lemma_no_key_makes_a_nimber(editor: &mut Editor, key: Key, action: EditorAction)
    requires
        old(editor).wf(),
        call_ensures(Editor::press, (editor, key), action),
    ensures
        final(editor).nimber_is_current ==> old(editor).nimber_is_current && final(editor).maze@
            == old(editor).maze@,
        key != Key::Char('c') ==> final(editor).last_evaluation == old(editor).last_evaluation,
        key == Key::Char('c') ==> final(editor).last_evaluation is None,
        final(editor).last_cancelled ==> old(editor).last_cancelled,
        has_target(final(editor).maze@, final(editor).target, cursor_of(*final(editor))),
{
}

/// The key for an open board gives every place a node and takes all walls away; the size stays.
pub proof fn lemma_open_key_opens(editor: &mut Editor, action: EditorAction)
    requires
        old(editor).wf(),
        call_ensures(Editor::press, (editor, Key::Char('o')), action),
    ensures
        same_size(final(editor).maze@, old(editor).maze@),
        forall|p: (int, int)|
            old(editor).maze@.contains(p) ==> #[trigger] node_at(final(editor).maze@, p),
        forall|p: (int, int)| !#[trigger] wall_right_of(final(editor).maze@, p),
        forall|p: (int, int)| !#[trigger] wall_below(final(editor).maze@, p),
        cursor_of(*final(editor)) == (0int, 0int),
        final(editor).target is Node,
{
}

/// The key for the built-in board gives the board that an editor begins with, whatever has been edited.
pub proof fn lemma_demo_key_starts_over(
    fresh: Editor,
    demo: Maze,
    editor: &mut Editor,
    action: EditorAction,
)
    requires
        call_ensures(Editor::new, (), fresh),
        call_ensures(Maze::demo, (), demo),
        old(editor).wf(),
        call_ensures(Editor::press, (editor, Key::Char('r')), action),
    ensures
        final(editor).maze@ == fresh.maze@,
        final(editor).maze@ == demo@,
        cursor_of(*final(editor)) == cursor_of(fresh),
        final(editor).target == fresh.target,
        fresh.last_evaluation is None,
        !fresh.nimber_is_current,
{
}

/// Each request has its keys and no others, and makes no change by itself, but that a cleared cache
/// forgets the nimber.
pub proof fn lemma_requests_have_their_keys(editor: &mut Editor, key: Key, action: EditorAction)
    requires
        old(editor).wf(),
        call_ensures(Editor::press, (editor, key), action),
    ensures
        action is Evaluate <==> key == Key::Char('n'),
        action is ClearCache <==> key == Key::Char('c'),
        action is Save <==> key == Key::Char('S'),
        action is Load <==> key == Key::Char('L'),
        action is Menu <==> key == Key::Char('m') || key == Key::Esc,
        action is Quit <==> key == Key::Char('q'),
        action is SetSymmetry <==> key == Key::Char('y'),
        action is SetThreads ==> key == Key::Char('[') || key == Key::Char(']'),
        action is Evaluate || action is Save || action is Load || action is Menu || action is Quit
            ==> *final(editor) == *old(editor),
        action !is Continue ==> final(editor).maze == old(editor).maze,
{
}

/// A result that is taken down is the board's nimber until the board is edited, and a cancelled
/// evaluation leaves the result before it to be seen again.
pub proof fn lemma_results_are_taken_down(
    editor: &mut Editor,
    after: &mut Editor,
    matrix: &BitMatrix,
    nimber: Option<usize>,
    elapsed: String,
    key: Key,
    action: EditorAction,
)
    requires
        old(editor).wf(),
        matrix.wf(),
        call_ensures(Editor::finish_evaluation, (editor, matrix, nimber, elapsed), ()),
        *old(after) == *final(editor),
        call_ensures(Editor::press, (after, key), action),
    ensures
        final(editor).maze == old(editor).maze,
        nimber is Some ==> final(editor).nimber_is_current && !final(editor).last_cancelled
            && final(editor).last_evaluation is Some && final(editor).last_evaluation->0.nimber
            == nimber->0 && final(editor).last_evaluation->0.elapsed@ == elapsed@,
        nimber is Some ==> final(editor).last_evaluation->0.matrix_rows == matrix@.rows && final(editor).last_evaluation->0.matrix_cols == matrix@.cols,
        nimber is None ==> !final(editor).nimber_is_current && final(editor).last_cancelled
            && final(editor).last_evaluation == old(editor).last_evaluation,
        key == Key::Char(' ') ==> !final(after).nimber_is_current && final(after).last_evaluation
            == final(editor).last_evaluation,
{
}

/// The keys that cancel an evaluation in the editor are those that cancel it in a game.
pub proof fn lemma_one_way_to_cancel(key: Key, cancels: bool, meaning: CpuKey)
    requires
        call_ensures(cancels_evaluation, (key,), cancels),
        call_ensures(cpu_key, (key,), meaning),
    ensures
        cancels <==> meaning is Cancel,
        key == Key::Esc ==> cancels,
        meaning is Quit <==> key == Key::Char('q'),
{
}

/// The number of threads is changed by the brackets alone, and the look-out for symmetries by its key
/// alone. That an evaluation was cancelled is shown until the board is edited or something else is asked
/// of the solver; moving about does not hide it.
pub proof fn lemma_settings_have_their_keys(editor: &mut Editor, key: Key, action: EditorAction)
    requires
        old(editor).wf(),
        call_ensures(Editor::press, (editor, key), action),
    ensures
        final(editor).solver_threads != old(editor).solver_threads ==> action
            == EditorAction::SetThreads(final(editor).solver_threads),
        action is SetThreads ==> final(editor).solver_threads != old(editor).solver_threads,
        final(editor).symmetry != old(editor).symmetry <==> key == Key::Char('y'),
        final(editor).maze@ != old(editor).maze@ ==> !final(editor).last_cancelled,
        action is SetThreads || action is SetSymmetry || action is ClearCache ==> !final(editor).last_cancelled,
        final(editor).maze == old(editor).maze && action is Continue && (key == Key::Tab || key
            == Key::Up || key == Key::Down || key == Key::Left || key == Key::Right)
            ==> final(editor).last_cancelled == old(editor).last_cancelled,
        key == Key::Char(' ') ==> !final(editor).last_cancelled && !final(editor).nimber_is_current,
{
}

/// Whether a key has a meaning in the editor.
pub open spec fn is_editor_key(key: Key) -> bool {
    match key {
        Key::Up => true,
        Key::Down => true,
        Key::Left => true,
        Key::Right => true,
        Key::Tab => true,
        Key::Esc => true,
        Key::Enter => false,
        Key::Other => false,
        Key::Char(c) => seq![
            'h',
            'j',
            'k',
            'l',
            ' ',
            'n',
            'c',
            '+',
            '=',
            '-',
            '<',
            ',',
            '>',
            '.',
            '[',
            ']',
            'y',
            'r',
            'o',
            'S',
            'L',
            'm',
            'q',
        ].contains(c),
    }
}

/// A key without a meaning does nothing.
pub proof fn lemma_other_keys_do_nothing(editor: &mut Editor, key: Key, action: EditorAction)
    requires
        old(editor).wf(),
        !is_editor_key(key),
        call_ensures(Editor::press, (editor, key), action),
    ensures
        *final(editor) == *old(editor),
        action is Continue,
{
    if let Key::Char(c) = key {
        let keys = seq![
            'h',
            'j',
            'k',
            'l',
            ' ',
            'n',
            'c',
            '+',
            '=',
            '-',
            '<',
            ',',
            '>',
            '.',
            '[',
            ']',
            'y',
            'r',
            'o',
            'S',
            'L',
            'm',
            'q',
        ];
        assert forall|i: int| 0 <= i < 23 implies c != #[trigger] keys[i] by {}
        assert(c != keys[0] && c != keys[1] && c != keys[2] && c != keys[3] && c != keys[4]);
        assert(c != keys[5] && c != keys[6] && c != keys[7] && c != keys[8] && c != keys[9]);
        assert(c != keys[10] && c != keys[11] && c != keys[12] && c != keys[13]);
        assert(c != keys[14] && c != keys[15] && c != keys[16] && c != keys[17]);
        assert(c != keys[18] && c != keys[19] && c != keys[20] && c != keys[21] && c != keys[22]);
    }
}

} // verus!
