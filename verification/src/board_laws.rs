//! What the operations on a maze keep, what they change, and what one of them undoes of another.
use crate::board::{Axis, Board, Cell, Maze, MoveError};
use crate::board::{lemma_listed_corridor, places};
use crate::compile::{lemma_all_fine, lemma_no_fault};
use crate::grid::countable;
use crate::matrix::BitMatrix;
use vstd::prelude::*;

verus! {

/// Whether there is a node at a place.
pub open spec fn node_at(board: Board, p: (int, int)) -> bool {
    board.nodes.cells.contains(p)
}

/// Whether there is a wall between a place and the place to its right.
pub open spec fn wall_right_of(board: Board, p: (int, int)) -> bool {
    board.vertical.cells.contains(p)
}

/// Whether there is a wall between a place and the place below it.
pub open spec fn wall_below(board: Board, p: (int, int)) -> bool {
    board.horizontal.cells.contains(p)
}

/// Whether two boards have the same size.
pub open spec fn same_size(a: Board, b: Board) -> bool {
    a.rows() == b.rows() && a.cols() == b.cols()
}

/// Whether two boards have the same nodes, but perhaps at `p`.
pub open spec fn same_nodes_but(a: Board, b: Board, p: (int, int)) -> bool {
    forall|q: (int, int)| q != p ==> (#[trigger] node_at(a, q) <==> node_at(b, q))
}

/// Whether two boards have the same walls between columns, but perhaps at `p`.
pub open spec fn same_right_walls_but(a: Board, b: Board, p: (int, int)) -> bool {
    forall|q: (int, int)| q != p ==> (#[trigger] wall_right_of(a, q) <==> wall_right_of(b, q))
}

/// Whether two boards have the same walls between rows, but perhaps at `p`.
pub open spec fn same_walls_below_but(a: Board, b: Board, p: (int, int)) -> bool {
    forall|q: (int, int)| q != p ==> (#[trigger] wall_below(a, q) <==> wall_below(b, q))
}

/// Whether two boards have the same nodes.
pub open spec fn same_nodes(a: Board, b: Board) -> bool {
    forall|q: (int, int)| #[trigger] node_at(a, q) <==> node_at(b, q)
}

/// Whether two boards have the same walls.
pub open spec fn same_walls(a: Board, b: Board) -> bool {
    &&& forall|q: (int, int)| #[trigger] wall_right_of(a, q) <==> wall_right_of(b, q)
    &&& forall|q: (int, int)| #[trigger] wall_below(a, q) <==> wall_below(b, q)
}

/// Whether the board `after`, which may have more or fewer rows and columns, has what `before` has
/// wherever both have a place, and is open at its other places.
pub open spec fn agrees_where_shared(before: Board, after: Board) -> bool {
    &&& forall|p: (int, int)|
        before.contains(p) && after.contains(p) ==> (#[trigger] node_at(after, p) <==> node_at(
            before,
            p,
        ))
    &&& forall|p: (int, int)|
        !before.contains(p) && after.contains(p) ==> #[trigger] node_at(after, p)
    &&& forall|p: (int, int)|
        before.contains(p) && before.contains((p.0, p.1 + 1)) && after.contains(p)
            && after.contains((p.0, p.1 + 1)) ==> (#[trigger] wall_right_of(after, p)
            <==> wall_right_of(before, p))
    &&& forall|p: (int, int)|
        before.contains(p) && before.contains((p.0 + 1, p.1)) && after.contains(p)
            && after.contains((p.0 + 1, p.1)) ==> (#[trigger] wall_below(after, p) <==> wall_below(
            before,
            p,
        ))
    &&& forall|p: (int, int)| #[trigger]
        wall_right_of(after, p) ==> before.contains((p.0, p.1 + 1)) && after.contains(
            (p.0, p.1 + 1),
        )
    &&& forall|p: (int, int)| #[trigger]
        wall_below(after, p) ==> before.contains((p.0 + 1, p.1)) && after.contains(
            (p.0 + 1, p.1),
        )
}

/// Whether some wall stands across a row.
pub open spec fn row_is_cut(board: Board, r: int) -> bool {
    exists|c: int| #[trigger] wall_right_of(board, (r, c))
}

/// Whether some wall stands across a column.
pub open spec fn col_is_cut(board: Board, c: int) -> bool {
    exists|r: int| #[trigger] wall_below(board, (r, c))
}

/// Boards of one size with the same nodes and walls are the same.
pub proof fn lemma_same_board(a: Board, b: Board)
    requires
        a.wf(),
        b.wf(),
        same_size(a, b),
        same_nodes(a, b),
        same_walls(a, b),
    ensures
        a == b,
{
    assert forall|p: (int, int)| a.nodes.cells.contains(p) <==> b.nodes.cells.contains(p) by {
        assert(node_at(a, p) <==> node_at(b, p));
    }
    assert forall|p: (int, int)| a.vertical.cells.contains(p) <==> b.vertical.cells.contains(p) by {
        assert(wall_right_of(a, p) <==> wall_right_of(b, p));
    }
    assert forall|p: (int, int)| a.horizontal.cells.contains(p) <==> b.horizontal.cells.contains(
        p,
    ) by {
        assert(wall_below(a, p) <==> wall_below(b, p));
    }
    assert(a.nodes =~= b.nodes);
    assert(a.vertical =~= b.vertical);
    assert(a.horizontal =~= b.horizontal);
}

/// Resizing, to more or fewer rows and to more or fewer columns, keeps every node, every taken node
/// and every wall that the new size has room for. What is new is open.
pub proof fn lemma_resizing_keeps(maze: Maze, rows: usize, cols: usize, resized: Maze)
    requires
        maze.wf(),
        0 < rows,
        0 < cols,
        countable(rows as nat, cols as nat),
        call_ensures(Maze::resized, (&maze, rows, cols), resized),
    ensures
        resized.wf(),
        resized@.rows() == rows,
        resized@.cols() == cols,
        agrees_where_shared(maze@, resized@),
{
}

/// Resizing by way of a size that has room for the maze is resizing at once: what was kept on the way
/// comes out as it was.
pub proof fn lemma_resizing_by_a_larger_size(
    maze: Maze,
    large_rows: usize,
    large_cols: usize,
    large: Maze,
    rows: usize,
    cols: usize,
    by_way: Maze,
    at_once: Maze,
)
    requires
        maze.wf(),
        maze@.rows() <= large_rows,
        maze@.cols() <= large_cols,
        countable(large_rows as nat, large_cols as nat),
        0 < rows,
        0 < cols,
        countable(rows as nat, cols as nat),
        call_ensures(Maze::resized, (&maze, large_rows, large_cols), large),
        call_ensures(Maze::resized, (&large, rows, cols), by_way),
        call_ensures(Maze::resized, (&maze, rows, cols), at_once),
    ensures
        by_way@ == at_once@,
        rows == maze@.rows() && cols == maze@.cols() ==> by_way@ == maze@,
{
    lemma_resizing_keeps(maze, large_rows, large_cols, large);
    lemma_resizing_keeps(large, rows, cols, by_way);
    lemma_resizing_keeps(maze, rows, cols, at_once);
    assert(by_way@.nodes.cells =~= at_once@.nodes.cells);
    assert(by_way@.vertical.cells =~= at_once@.vertical.cells);
    assert(by_way@.horizontal.cells =~= at_once@.horizontal.cells);
    if rows == maze@.rows() && cols == maze@.cols() {
        crate::board::lemma_resized_to_itself(maze@);
    }
}

/// An open maze has a node at every place, and no wall.
pub proof fn lemma_open_is_open(rows: usize, cols: usize, maze: Maze)
    requires
        0 < rows,
        0 < cols,
        countable(rows as nat, cols as nat),
        call_ensures(Maze::open, (rows, cols), maze),
    ensures
        maze@.rows() == rows,
        maze@.cols() == cols,
        forall|p: (int, int)| maze@.contains(p) ==> #[trigger] node_at(maze@, p),
        forall|p: (int, int)| !#[trigger] wall_right_of(maze@, p),
        forall|p: (int, int)| !#[trigger] wall_below(maze@, p),
{
}

/// The built-in maze has a node at every place; each of its rows and columns is cut by some wall, so
/// no corridor goes all the way. Along its rows the corridors are two, four and two places long, or four
/// and four, or one, four and three, or three, four and one; along its columns each wall is as listed.
pub proof fn lemma_demo_is_cut(maze: Maze)
    requires
        call_ensures(Maze::demo, (), maze),
    ensures
        maze@.rows() == 6,
        maze@.cols() == 8,
        forall|p: (int, int)| maze@.contains(p) ==> #[trigger] node_at(maze@, p),
        forall|r: int| 0 <= r < 6 ==> #[trigger] row_is_cut(maze@, r),
        forall|c: int| 0 <= c < 8 ==> #[trigger] col_is_cut(maze@, c),
        forall|r: int, c: int| #[trigger]
            wall_right_of(maze@, (r, c)) <==> (r == 0 || r == 4) && (c == 1 || c == 5) || (r == 1
                || r == 5) && c == 3 || r == 2 && (c == 0 || c == 4) || r == 3 && (c == 2 || c
                == 6),
        forall|r: int, c: int| #[trigger]
            wall_below(maze@, (r, c)) <==> c == 0 && r == 1 || c == 1 && r == 3 || c == 2 && (r == 0
                || r == 2) || c == 3 && (r == 2 || r == 4) || c == 4 && r == 1 || c == 5 && r == 3
                || c == 6 && (r == 0 || r == 4) || c == 7 && r == 2,
{
    let board = maze@;
    assert(wall_right_of(board, (0, 1)));
    assert(wall_right_of(board, (1, 3)));
    assert(wall_right_of(board, (2, 0)));
    assert(wall_right_of(board, (3, 2)));
    assert(wall_right_of(board, (4, 1)));
    assert(wall_right_of(board, (5, 3)));
    assert(wall_below(board, (1, 0)));
    assert(wall_below(board, (3, 1)));
    assert(wall_below(board, (0, 2)));
    assert(wall_below(board, (2, 3)));
    assert(wall_below(board, (1, 4)));
    assert(wall_below(board, (3, 5)));
    assert(wall_below(board, (0, 6)));
    assert(wall_below(board, (2, 7)));
}

/// A place that is set alive, or taken, reads back so. Nothing else changes.
pub proof fn lemma_set_alive_reads_back(maze: &mut Maze, cell: Cell, alive: bool, read: bool)
    requires
        old(maze).wf(),
        old(maze)@.contains(cell.at()),
        call_ensures(Maze::set_alive, (maze, cell, alive), ()),
        call_ensures(Maze::is_alive, (final(maze), cell), read),
    ensures
        read == alive,
        node_at(final(maze)@, cell.at()) == alive,
        same_size(final(maze)@, old(maze)@),
        same_nodes_but(final(maze)@, old(maze)@, cell.at()),
        same_walls(final(maze)@, old(maze)@),
{
}

/// A node that is exchanged for none, or none for a node, is there if and only if it was not before.
/// Nothing else changes. Doing it twice gives back the maze.
pub proof fn lemma_toggle_alive_twice(maze: &mut Maze, again: &mut Maze, cell: Cell)
    requires
        old(maze).wf(),
        old(maze)@.contains(cell.at()),
        call_ensures(Maze::toggle_alive, (maze, cell), ()),
        *old(again) == *final(maze),
        call_ensures(Maze::toggle_alive, (again, cell), ()),
    ensures
        node_at(final(maze)@, cell.at()) == !node_at(old(maze)@, cell.at()),
        same_size(final(maze)@, old(maze)@),
        same_nodes_but(final(maze)@, old(maze)@, cell.at()),
        same_walls(final(maze)@, old(maze)@),
        final(again)@ == old(maze)@,
{
    assert(final(again)@.nodes.cells =~= old(maze)@.nodes.cells);
}

/// A wall between two columns that is set or removed is there or not, as asked, and joins the two places
/// if and only if it is not there. Nothing else changes.
pub proof fn lemma_set_vertical_wall_cuts(
    maze: &mut Maze,
    row: usize,
    col: usize,
    wall: bool,
    connected: bool,
)
    requires
        old(maze).wf(),
        row < old(maze)@.rows(),
        col + 1 < old(maze)@.cols(),
        call_ensures(Maze::set_vertical_wall, (maze, row, col, wall), ()),
        call_ensures(Maze::connected_right, (final(maze), row, col), connected),
    ensures
        connected == !wall,
        wall_right_of(final(maze)@, (row as int, col as int)) == wall,
        same_size(final(maze)@, old(maze)@),
        same_nodes(final(maze)@, old(maze)@),
        same_right_walls_but(final(maze)@, old(maze)@, (row as int, col as int)),
        forall|q: (int, int)| #[trigger] wall_below(final(maze)@, q) <==> wall_below(old(maze)@, q),
{
}

/// Placing a wall between two columns is setting it.
pub proof fn lemma_add_vertical_wall_sets(maze: &mut Maze, other: &mut Maze, row: usize, col: usize)
    requires
        old(maze).wf(),
        row < old(maze)@.rows(),
        col + 1 < old(maze)@.cols(),
        *old(other) == *old(maze),
        call_ensures(Maze::add_vertical_wall, (maze, row, col), ()),
        call_ensures(Maze::set_vertical_wall, (other, row, col, true), ()),
    ensures
        final(maze)@ == final(other)@,
        wall_right_of(final(maze)@, (row as int, col as int)),
        same_size(final(maze)@, old(maze)@),
        same_nodes(final(maze)@, old(maze)@),
        same_right_walls_but(final(maze)@, old(maze)@, (row as int, col as int)),
        forall|q: (int, int)| #[trigger] wall_below(final(maze)@, q) <==> wall_below(old(maze)@, q),
{
}

/// A wall between two columns that is exchanged for none, or none for a wall, is there if and only if it
/// was not before. Nothing else changes. Doing it twice gives back the maze.
pub proof fn lemma_toggle_vertical_wall_twice(
    maze: &mut Maze,
    again: &mut Maze,
    row: usize,
    col: usize,
)
    requires
        old(maze).wf(),
        row < old(maze)@.rows(),
        col + 1 < old(maze)@.cols(),
        call_ensures(Maze::toggle_vertical_wall, (maze, row, col), ()),
        *old(again) == *final(maze),
        call_ensures(Maze::toggle_vertical_wall, (again, row, col), ()),
    ensures
        wall_right_of(final(maze)@, (row as int, col as int)) == !wall_right_of(old(maze)@, (row as int, col as int)),
        same_size(final(maze)@, old(maze)@),
        same_nodes(final(maze)@, old(maze)@),
        same_right_walls_but(final(maze)@, old(maze)@, (row as int, col as int)),
        forall|q: (int, int)| #[trigger] wall_below(final(maze)@, q) <==> wall_below(old(maze)@, q),
        final(again)@ == old(maze)@,
{
    assert(final(again)@.vertical.cells =~= old(maze)@.vertical.cells);
}

/// A wall between two rows that is set or removed is there or not, as asked, and joins the two places
/// if and only if it is not there. Nothing else changes.
pub proof fn lemma_set_horizontal_wall_cuts(
    maze: &mut Maze,
    row: usize,
    col: usize,
    wall: bool,
    connected: bool,
)
    requires
        old(maze).wf(),
        row + 1 < old(maze)@.rows(),
        col < old(maze)@.cols(),
        call_ensures(Maze::set_horizontal_wall, (maze, row, col, wall), ()),
        call_ensures(Maze::connected_down, (final(maze), row, col), connected),
    ensures
        connected == !wall,
        wall_below(final(maze)@, (row as int, col as int)) == wall,
        same_size(final(maze)@, old(maze)@),
        same_nodes(final(maze)@, old(maze)@),
        same_walls_below_but(final(maze)@, old(maze)@, (row as int, col as int)),
        forall|q: (int, int)| #[trigger] wall_right_of(final(maze)@, q) <==> wall_right_of(old(maze)@, q),
{
}

/// Placing a wall between two rows is setting it.
pub proof fn lemma_add_horizontal_wall_sets(maze: &mut Maze, other: &mut Maze, row: usize, col: usize)
    requires
        old(maze).wf(),
        row + 1 < old(maze)@.rows(),
        col < old(maze)@.cols(),
        *old(other) == *old(maze),
        call_ensures(Maze::add_horizontal_wall, (maze, row, col), ()),
        call_ensures(Maze::set_horizontal_wall, (other, row, col, true), ()),
    ensures
        final(maze)@ == final(other)@,
        wall_below(final(maze)@, (row as int, col as int)),
        same_size(final(maze)@, old(maze)@),
        same_nodes(final(maze)@, old(maze)@),
        same_walls_below_but(final(maze)@, old(maze)@, (row as int, col as int)),
        forall|q: (int, int)| #[trigger] wall_right_of(final(maze)@, q) <==> wall_right_of(old(maze)@, q),
{
}

/// A wall between two rows that is exchanged for none, or none for a wall, is there if and only if it
/// was not before. Nothing else changes. Doing it twice gives back the maze.
pub proof fn lemma_toggle_horizontal_wall_twice(
    maze: &mut Maze,
    again: &mut Maze,
    row: usize,
    col: usize,
)
    requires
        old(maze).wf(),
        row + 1 < old(maze)@.rows(),
        col < old(maze)@.cols(),
        call_ensures(Maze::toggle_horizontal_wall, (maze, row, col), ()),
        *old(again) == *final(maze),
        call_ensures(Maze::toggle_horizontal_wall, (again, row, col), ()),
    ensures
        wall_below(final(maze)@, (row as int, col as int)) == !wall_below(old(maze)@, (row as int, col as int)),
        same_size(final(maze)@, old(maze)@),
        same_nodes(final(maze)@, old(maze)@),
        same_walls_below_but(final(maze)@, old(maze)@, (row as int, col as int)),
        forall|q: (int, int)| #[trigger] wall_right_of(final(maze)@, q) <==> wall_right_of(old(maze)@, q),
        final(again)@ == old(maze)@,
{
    assert(final(again)@.horizontal.cells =~= old(maze)@.horizontal.cells);
}

/// Whether two neighbours on one line of direction `axis` have a wall between them: the one after `p`.
pub open spec fn wall_after(board: Board, axis: Axis, p: (int, int)) -> bool {
    match axis {
        Axis::Horizontal => wall_right_of(board, p),
        Axis::Vertical => wall_below(board, p),
    }
}

/// The next place on a line of direction `axis`.
pub open spec fn place_after(axis: Axis, p: (int, int)) -> (int, int) {
    match axis {
        Axis::Horizontal => (p.0, p.1 + 1),
        Axis::Vertical => (p.0 + 1, p.1),
    }
}

/// A corridor goes through the cell that it was asked for. Its cells follow each other on one line of
/// the board without a wall in between, and it ends where there is a wall or the border.
pub proof fn lemma_corridor_is_maximal(maze: Maze, cell: Cell, axis: Axis, cells: Vec<Cell>)
    requires
        maze.wf(),
        maze@.contains(cell.at()),
        call_ensures(Maze::corridor, (&maze, cell, axis), cells),
    ensures
        cells@.contains(cell),
        forall|i: int| 0 <= i < cells@.len() ==> maze@.contains((#[trigger] cells@[i]).at()),
        forall|i: int|
            0 < i < cells@.len() ==> (#[trigger] cells@[i]).at() == place_after(
                axis,
                cells@[i - 1].at(),
            ) && !wall_after(maze@, axis, cells@[i - 1].at()),
        maze@.contains(place_after(axis, cells@.last().at())) ==> wall_after(
            maze@,
            axis,
            cells@.last().at(),
        ),
        forall|p: (int, int)|
            maze@.contains(p) && #[trigger] place_after(axis, p) == cells@[0].at() ==> wall_after(
                maze@,
                axis,
                p,
            ),
{
    let board = maze@;
    lemma_listed_corridor(board, axis, cell.at(), cells@, cell);
    match axis {
        Axis::Horizontal => {
            let first = cells@[0].col as int;
            assert forall|i: int| 0 < i < cells@.len() implies (#[trigger] cells@[i]).at()
                == place_after(axis, cells@[i - 1].at()) && !wall_after(
                board,
                axis,
                cells@[i - 1].at(),
            ) by {
                assert(cells@[i - 1].at() == (cell.row as int, first + i - 1));
                assert(board.joined_right(cell.row as int, first + i - 1));
            }
        },
        Axis::Vertical => {
            let first = cells@[0].row as int;
            assert forall|i: int| 0 < i < cells@.len() implies (#[trigger] cells@[i]).at()
                == place_after(axis, cells@[i - 1].at()) && !wall_after(
                board,
                axis,
                cells@[i - 1].at(),
            ) by {
                assert(cells@[i - 1].at() == (first + i - 1, cell.col as int));
                assert(board.joined_down(first + i - 1, cell.col as int));
            }
        },
    }
}

/// Every cell of a corridor has the same corridor.
pub proof fn lemma_corridor_shared(
    maze: Maze,
    cell: Cell,
    axis: Axis,
    cells: Vec<Cell>,
    other: Cell,
    other_cells: Vec<Cell>,
)
    requires
        maze.wf(),
        maze@.contains(cell.at()),
        call_ensures(Maze::corridor, (&maze, cell, axis), cells),
        cells@.contains(other),
        call_ensures(Maze::corridor, (&maze, other, axis), other_cells),
    ensures
        other_cells@ == cells@,
{
    let i = choose|i: int| 0 <= i < cells@.len() && cells@[i] == other;
    assert(cells@[i].at() == other.at());
    crate::play::lemma_corridor_unique(maze@, axis, other.at(), cells@, other_cells@);
}

/// Whether the cells can be taken from the corridor: there are some, they are different, and each is a
/// node of the corridor.
pub open spec fn can_be_taken(board: Board, corridor: Seq<Cell>, cells: Seq<Cell>) -> bool {
    &&& cells.len() > 0
    &&& cells.no_duplicates()
    &&& forall|i: int|
        0 <= i < cells.len() ==> corridor.contains(#[trigger] cells[i]) && node_at(
            board,
            cells[i].at(),
        )
}

/// Whether `after` is `before` without the nodes at the cells.
pub open spec fn are_taken(before: Board, cells: Seq<Cell>, after: Board) -> bool {
    &&& same_size(before, after)
    &&& same_walls(before, after)
    &&& forall|i: int| 0 <= i < cells.len() ==> !node_at(after, (#[trigger] cells[i]).at())
    &&& forall|cell: Cell|
        !cells.contains(cell) ==> (#[trigger] node_at(after, cell.at()) <==> node_at(
            before,
            cell.at(),
        ))
    &&& forall|p: (int, int)| #[trigger] node_at(after, p) ==> node_at(before, p)
}

/// The places that are taken are those of the cells.
pub proof fn lemma_without_takes(board: Board, cells: Seq<Cell>)
    ensures
        are_taken(board, cells, board.without(places(cells))),
{
    let after = board.without(places(cells));
    assert forall|i: int| 0 <= i < cells.len() implies !node_at(after, (#[trigger] cells[i]).at()) by {
        assert(places(cells).contains(cells[i].at()));
    }
    assert forall|cell: Cell| !cells.contains(cell) implies (#[trigger] node_at(after, cell.at())
        <==> node_at(board, cell.at())) by {
        if places(cells).contains(cell.at()) {
            let i = choose|i: int| 0 <= i < cells.len() && (#[trigger] cells[i]).at() == cell.at();
            assert(cells[i] == cell);
        }
    }
}

/// A move is made if and only if its cells are different nodes of the corridor through the anchor, as
/// the maze itself lists it. They are gone after that, and nothing else is. A move that is not made
/// changes nothing.
pub proof fn lemma_move_takes_nodes(
    maze: &mut Maze,
    axis: Axis,
    anchor: Cell,
    selected: &[Cell],
    corridor: Vec<Cell>,
    outcome: Result<(), MoveError>,
)
    requires
        old(maze).wf(),
        old(maze)@.contains(anchor.at()),
        call_ensures(Maze::corridor, (old(maze), anchor, axis), corridor),
        call_ensures(Maze::apply_move, (maze, axis, anchor, selected), outcome),
    ensures
        outcome is Ok <==> can_be_taken(old(maze)@, corridor@, selected@),
        outcome is Ok ==> are_taken(old(maze)@, selected@, final(maze)@),
        outcome is Err ==> final(maze)@ == old(maze)@,
{
    let board = old(maze)@;
    let cells = selected@;
    lemma_without_takes(board, cells);
    if outcome is Ok {
        assert forall|i: int| 0 <= i < cells.len() implies corridor@.contains(#[trigger] cells[i])
            && node_at(board, cells[i].at()) by {
            lemma_no_fault(board, axis, anchor, cells, 0, i);
            lemma_listed_corridor(board, axis, anchor.at(), corridor@, cells[i]);
        }
        assert forall|i: int, j: int| 0 <= i < j < cells.len() implies cells[i] != cells[j] by {
            lemma_no_fault(board, axis, anchor, cells, 0, j);
            assert(cells.take(j)[i] == cells[i]);
        }
    }
    if can_be_taken(board, corridor@, cells) {
        assert forall|i: int| 0 <= i < cells.len() implies #[trigger] board.cell_fault(
            axis,
            anchor,
            cells,
            i,
        ) is None by {
            assert(corridor@.contains(cells[i]));
            lemma_listed_corridor(board, axis, anchor.at(), corridor@, cells[i]);
            if cells.take(i).contains(cells[i]) {
                let j = choose|j: int| 0 <= j < i && cells.take(i)[j] == cells[i];
                assert(cells[j] == cells[i]);
            }
        }
        lemma_all_fine(board, axis, anchor, cells, 0);
    }
}

/// Where a cell is at fault, some cell is the first: those before it could be taken without it.
proof fn lemma_fault_place(
    board: Board,
    axis: Axis,
    anchor: Cell,
    cells: Seq<Cell>,
    from: int,
) -> (at: int)
    requires
        0 <= from,
        board.first_fault(axis, anchor, cells, from) is Some,
    ensures
        from <= at < cells.len(),
        board.cell_fault(axis, anchor, cells, at) == board.first_fault(axis, anchor, cells, from),
        forall|i: int|
            from <= i < at ==> #[trigger] board.cell_fault(axis, anchor, cells, i) is None,
    decreases cells.len() - from,
{
    if board.cell_fault(axis, anchor, cells, from) is Some {
        from
    } else {
        lemma_fault_place(board, axis, anchor, cells, from + 1)
    }
}

/// Why a move is not made: it has no cells, or its anchor or one of its cells has the fault that is
/// named. Of a cell that is on the board, on the corridor and a node, the only fault is that it
/// occurs before.
pub proof fn lemma_move_refused_for_a_reason(
    maze: &mut Maze,
    axis: Axis,
    anchor: Cell,
    selected: &[Cell],
    fault: MoveError,
)
    requires
        old(maze).wf(),
        call_ensures(
            Maze::apply_move,
            (maze, axis, anchor, selected),
            Err::<(), MoveError>(fault),
        ),
    ensures
        fault == MoveError::Empty <==> selected@.len() == 0,
        selected@.len() > 0 && !old(maze)@.contains(anchor.at()) ==> fault
            == MoveError::OutsideBoard,
        fault == MoveError::OutsideBoard ==> !old(maze)@.contains(anchor.at()) || exists|i: int|
            0 <= i < selected@.len() && !old(maze)@.contains((#[trigger] selected@[i]).at()),
        forall|corridor: Vec<Cell>|
            old(maze)@.contains(anchor.at()) && #[trigger] call_ensures(
                Maze::corridor,
                (old(maze), anchor, axis),
                corridor,
            ) ==> {
                &&& fault == MoveError::DifferentCorridors ==> exists|i: int|
                    0 <= i < selected@.len() && old(maze)@.contains(
                        (#[trigger] selected@[i]).at(),
                    ) && !corridor@.contains(selected@[i])
                &&& fault == MoveError::AlreadyTaken ==> exists|i: int|
                    0 <= i < selected@.len() && corridor@.contains(#[trigger] selected@[i])
                        && !node_at(old(maze)@, selected@[i].at())
                &&& fault == MoveError::DuplicateNode ==> exists|i: int, j: int|
                    0 <= i < j < selected@.len() && #[trigger] selected@[i]
                        == #[trigger] selected@[j] && corridor@.contains(selected@[j]) && node_at(
                        old(maze)@,
                        selected@[j].at(),
                    )
            },
{
    let board = old(maze)@;
    let cells = selected@;
    if cells.len() > 0 && board.contains(anchor.at()) {
        let at = lemma_fault_place(board, axis, anchor, cells, 0);
        let cell = cells[at];
        assert(fault == MoveError::OutsideBoard ==> !board.contains(cells[at].at()));
        assert forall|corridor: Vec<Cell>| #[trigger]
            call_ensures(Maze::corridor, (old(maze), anchor, axis), corridor) implies {
            &&& fault == MoveError::DifferentCorridors ==> exists|i: int|
                0 <= i < cells.len() && board.contains((#[trigger] cells[i]).at())
                    && !corridor@.contains(cells[i])
            &&& fault == MoveError::AlreadyTaken ==> exists|i: int|
                0 <= i < cells.len() && corridor@.contains(#[trigger] cells[i]) && !node_at(
                    board,
                    cells[i].at(),
                )
            &&& fault == MoveError::DuplicateNode ==> exists|i: int, j: int|
                0 <= i < j < cells.len() && #[trigger] cells[i] == #[trigger] cells[j]
                    && corridor@.contains(cells[j]) && node_at(board, cells[j].at())
        } by {
            if board.contains(cell.at()) {
                lemma_listed_corridor(board, axis, anchor.at(), corridor@, cell);
            }
            if fault == MoveError::DuplicateNode {
                let i = choose|i: int| 0 <= i < at && cells.take(at)[i] == cell;
                assert(cells[i] == cells[at]);
            }
        }
    }
}

/// The fault of the first faulty cell is named: what is not made for the cells at the beginning is not
/// made for more of them, and for the same reason.
pub proof fn lemma_first_fault_named(
    maze: &mut Maze,
    other: &mut Maze,
    axis: Axis,
    anchor: Cell,
    some: &[Cell],
    more: &[Cell],
    fault: MoveError,
    outcome: Result<(), MoveError>,
)
    requires
        old(maze).wf(),
        *old(other) == *old(maze),
        0 < some@.len() <= more@.len(),
        some@ == more@.take(some@.len() as int),
        call_ensures(Maze::apply_move, (maze, axis, anchor, some), Err::<(), MoveError>(fault)),
        call_ensures(Maze::apply_move, (other, axis, anchor, more), outcome),
    ensures
        outcome == Err::<(), MoveError>(fault),
{
    let board = old(maze)@;
    if board.contains(anchor.at()) {
        lemma_fault_of_more(board, axis, anchor, some@, more@, 0);
    }
}

proof fn lemma_fault_of_more(
    board: Board,
    axis: Axis,
    anchor: Cell,
    some: Seq<Cell>,
    more: Seq<Cell>,
    from: int,
)
    requires
        0 <= from,
        some.len() <= more.len(),
        some == more.take(some.len() as int),
        board.first_fault(axis, anchor, some, from) is Some,
    ensures
        board.first_fault(axis, anchor, more, from) == board.first_fault(axis, anchor, some, from),
    decreases some.len() - from,
{
    assert(more[from] == some[from]);
    assert(more.take(from) =~= some.take(from));
    if board.cell_fault(axis, anchor, some, from) is None {
        lemma_fault_of_more(board, axis, anchor, some, more, from + 1);
    }
}

/// What has been taken cannot be taken again, and nor can a node that another move took.
pub proof fn lemma_nodes_are_taken_once(
    maze: &mut Maze,
    again: &mut Maze,
    axis: Axis,
    anchor: Cell,
    selected: &[Cell],
    other_axis: Axis,
    other_anchor: Cell,
    other: &[Cell],
    outcome: Result<(), MoveError>,
    shared: Cell,
)
    requires
        old(maze).wf(),
        call_ensures(Maze::apply_move, (maze, axis, anchor, selected), Ok::<(), MoveError>(())),
        *old(again) == *final(maze),
        call_ensures(Maze::apply_move, (again, other_axis, other_anchor, other), outcome),
        selected@.contains(shared),
        other@.contains(shared),
    ensures
        outcome is Err,
{
    let board = old(maze)@;
    let after = final(maze)@;
    lemma_without_takes(board, selected@);
    let i = choose|i: int| 0 <= i < selected@.len() && selected@[i] == shared;
    assert(!node_at(after, selected@[i].at()));
    if outcome is Ok {
        let j = choose|j: int| 0 <= j < other@.len() && other@[j] == shared;
        lemma_no_fault(after, other_axis, other_anchor, other@, 0, j);
    }
}

/// The count of nodes is zero if and only if there are none, and a move lowers it by as many as it
/// takes.
pub proof fn lemma_count_follows_moves(
    maze: &mut Maze,
    before: usize,
    axis: Axis,
    anchor: Cell,
    selected: &[Cell],
    after: usize,
)
    requires
        old(maze).wf(),
        call_ensures(Maze::alive_count, (old(maze),), before),
        call_ensures(Maze::apply_move, (maze, axis, anchor, selected), Ok::<(), MoveError>(())),
        final(maze).wf(),
        call_ensures(Maze::alive_count, (final(maze),), after),
    ensures
        after + selected@.len() == before,
        before == 0 <==> forall|p: (int, int)| !#[trigger] node_at(old(maze)@, p),
        after == 0 <==> forall|p: (int, int)| !#[trigger] node_at(final(maze)@, p),
{
    lemma_count_zero(old(maze)@);
    lemma_count_zero(final(maze)@);
    let cells = selected@;
    let board = old(maze)@;
    assert forall|i: int| 0 <= i < cells.len() implies #[trigger] board.cell_fault(
        axis,
        anchor,
        cells,
        i,
    ) is None by {
        lemma_no_fault(board, axis, anchor, cells, 0, i);
    }
    crate::game::lemma_places(cells, cells.len() as int, board, axis, anchor);
    let taken = places(cells);
    assert(cells.take(cells.len() as int) =~= cells);
    assert forall|p: (int, int)| taken.contains(p) implies board.nodes.cells.contains(p) by {
        let i = choose|i: int| 0 <= i < cells.len() && (#[trigger] cells[i]).at() == p;
        assert(board.cell_fault(axis, anchor, cells, i) is None);
    }
    let rest = board.nodes.cells.difference(taken);
    vstd::set_lib::lemma_set_disjoint_lens(rest, taken);
    assert(rest + taken =~= board.nodes.cells);
}

proof fn lemma_count_zero(board: Board)
    requires
        board.wf(),
    ensures
        board.nodes.cells.len() == 0 <==> forall|p: (int, int)| !#[trigger] node_at(board, p),
{
    if forall|p: (int, int)| !#[trigger] node_at(board, p) {
        assert forall|p: (int, int)| !board.nodes.cells.contains(p) by {
            assert(!node_at(board, p));
        }
        assert(board.nodes.cells =~= Set::empty());
    }
    if board.nodes.cells.len() == 0 {
        assert(board.nodes.cells =~= Set::empty());
    }
}

/// The walls and nodes that a maze hands out are its own: two places are joined if and only if both are
/// on the board and the matrix of walls has none between them.
pub proof fn lemma_walls_can_be_read(
    maze: Maze,
    row: usize,
    col: usize,
    vertical: &BitMatrix,
    horizontal: &BitMatrix,
    nodes: &BitMatrix,
    wall_right: bool,
    wall_under: bool,
    node: bool,
    alive: bool,
    right: bool,
    down: bool,
)
    requires
        maze.wf(),
        row + 1 < maze@.rows(),
        col + 1 < maze@.cols(),
        call_ensures(Maze::vertical_walls, (&maze,), vertical),
        call_ensures(Maze::horizontal_walls, (&maze,), horizontal),
        call_ensures(Maze::nodes, (&maze,), nodes),
        call_ensures(BitMatrix::get, (vertical, row, col), wall_right),
        call_ensures(BitMatrix::get, (horizontal, row, col), wall_under),
        call_ensures(BitMatrix::get, (nodes, row, col), node),
        call_ensures(Maze::is_alive, (&maze, Cell { row, col }), alive),
        call_ensures(Maze::connected_right, (&maze, row, col), right),
        call_ensures(Maze::connected_down, (&maze, row, col), down),
    ensures
        right == !wall_right,
        down == !wall_under,
        alive == node,
{
}

/// On the border nothing is joined, and off the board there is no node.
pub proof fn lemma_border_is_closed(
    maze: Maze,
    row: usize,
    col: usize,
    right: bool,
    down: bool,
    cell: Cell,
    contained: bool,
    alive: bool,
)
    requires
        maze.wf(),
        row < maze@.rows(),
        col < maze@.cols(),
        call_ensures(Maze::connected_right, (&maze, row, (maze@.cols() - 1) as usize), right),
        call_ensures(Maze::connected_down, (&maze, (maze@.rows() - 1) as usize, col), down),
        call_ensures(Maze::contains, (&maze, cell), contained),
        call_ensures(Maze::is_alive, (&maze, cell), alive),
    ensures
        !right,
        !down,
        contained <==> cell.row < maze@.rows() && cell.col < maze@.cols(),
        alive ==> contained,
{
    assert(maze@.rows() <= usize::MAX);
    assert(maze@.cols() <= usize::MAX);
}

} // verus!
