//! The nodes that a player has selected on the board.
use crate::board::{lemma_listed_corridor, lists_cell, Axis, Board, Cell, Maze};
use crate::corridors::{alive_along, alive_on, lemma_alive_on, lemma_same_corridor};
use crate::game::{lemma_corridor_move, Move};
use vstd::prelude::*;

verus! {

/// `value` moved by `delta`, but not below zero and not to `limit` or beyond.
pub open spec fn shifted(value: int, delta: int, limit: int) -> int {
    if value + delta < 0 {
        0
    } else if value + delta >= limit {
        limit - 1
    } else {
        value + delta
    }
}

/// Moves `value` by `delta` within the limit.
pub fn shift(value: usize, delta: isize, limit: usize) -> (moved: usize)
    requires
        0 < limit,
    ensures
        moved == shifted(value as int, delta as int, limit as int),
        moved < limit,
{
    let sum: i128 = value as i128 + delta as i128;
    if sum < 0 {
        0
    } else if sum >= limit as i128 {
        limit - 1
    } else {
        sum as usize
    }
}

/// A cursor on the board, the direction of the corridor through it, and nodes of that corridor.
#[derive(Debug)]
pub struct Selection {
    pub cursor: Cell,
    pub axis: Axis,
    pub cells: Vec<Cell>,
}

/// The first place of `cell` among `cells`.
pub open spec fn place_of(cells: Seq<Cell>, cell: Cell) -> int {
    cells.index_of_first(cell)->0
}

/// Without `cell`, in whose place the last cell goes.
pub open spec fn without_cell(cells: Seq<Cell>, cell: Cell) -> Seq<Cell> {
    if cells.contains(cell) {
        cells.update(place_of(cells, cell), cells.last()).drop_last()
    } else {
        cells
    }
}

/// With `cell` at the end, unless it is there.
pub open spec fn with_selected(cells: Seq<Cell>, cell: Cell) -> Seq<Cell> {
    if cells.contains(cell) {
        cells
    } else {
        cells.push(cell)
    }
}

/// Whether the cells are different nodes of the corridor.
pub open spec fn are_corridor_nodes(
    board: Board,
    axis: Axis,
    cursor: (int, int),
    cells: Seq<Cell>,
) -> bool {
    &&& cells.no_duplicates()
    &&& forall|cell: Cell| #[trigger]
        cells.contains(cell) ==> board.nodes.cells.contains(cell.at()) && board.same_corridor(
            axis,
            cursor,
            cell.at(),
        )
}

/// The place of `cell` among `cells`.
fn find_cell(cells: &Vec<Cell>, cell: Cell) -> (place: Option<usize>)
    ensures
        place is Some <==> cells@.contains(cell),
        place is Some ==> place->0 < cells@.len() && place->0 == place_of(cells@, cell)
            && cells@[place->0 as int] == cell,
{
    let mut k: usize = 0;
    while k < cells.len()
        invariant
            k <= cells@.len(),
            forall|i: int| 0 <= i < k ==> cells@[i] != cell,
        decreases cells@.len() - k,
    {
        if cells[k] == cell {
            proof {
                cells@.index_of_first_ensures(cell);
                let first = place_of(cells@, cell);
                assert(cells@.contains(cell));
            }
            return Some(k);
        }
        k = k + 1;
    }
    None
}

/// Taking a cell out leaves the other cells.
pub proof fn lemma_without_cell(cells: Seq<Cell>, cell: Cell)
    requires
        cells.no_duplicates(),
    ensures
        without_cell(cells, cell).no_duplicates(),
        forall|other: Cell| #[trigger]
            without_cell(cells, cell).contains(other) <==> cells.contains(other) && other != cell,
{
    if cells.contains(cell) {
        cells.index_of_first_ensures(cell);
        let i = place_of(cells, cell);
        let rest = without_cell(cells, cell);
        let n = cells.len() as int;
        assert(forall|k: int|
            0 <= k < n - 1 ==> #[trigger] rest[k] == if k == i {
                cells[n - 1]
            } else {
                cells[k]
            });
        assert forall|other: Cell| #[trigger] rest.contains(other) <==> cells.contains(other)
            && other != cell by {
            if rest.contains(other) {
                let k = choose|k: int| 0 <= k < rest.len() && rest[k] == other;
                assert(cells.contains(cells[if k == i {
                    n - 1
                } else {
                    k
                }]));
            }
            if cells.contains(other) && other != cell {
                let k = choose|k: int| 0 <= k < cells.len() && cells[k] == other;
                if k == n - 1 {
                    assert(rest[i] == other);
                } else {
                    assert(rest[k] == other);
                }
            }
        }
    }
}

impl Selection {
    /// Whether different nodes of the corridor through the cursor are selected.
    pub open spec fn wf(&self, board: Board) -> bool {
        &&& board.contains(self.cursor.at())
        &&& are_corridor_nodes(board, self.axis, self.cursor.at(), self.cells@)
    }

    pub fn new() -> (selection: Self)
        ensures
            selection.cursor == (Cell { row: 0, col: 0 }),
            selection.axis == Axis::Horizontal,
            selection.cells@.len() == 0,
            forall|board: Board| board.wf() ==> #[trigger] selection.wf(board),
    {
        Selection { cursor: Cell::new(0, 0), axis: Axis::Horizontal, cells: Vec::new() }
    }

    pub fn corridor(&self, maze: &Maze) -> (cells: Vec<Cell>)
        requires
            maze.wf(),
            self.wf(maze@),
        ensures
            maze@.lists_corridor(self.axis, self.cursor.at(), cells@),
    {
        maze.corridor(self.cursor, self.axis)
    }

    /// Moves the cursor within the board. The selection is dropped if the cursor leaves the corridor.
    pub fn move_cursor(&mut self, maze: &Maze, row_delta: isize, col_delta: isize)
        requires
            maze.wf(),
            old(self).wf(maze@),
        ensures
            final(self).wf(maze@),
            final(self).axis == old(self).axis,
            final(self).cursor.row == shifted(
                old(self).cursor.row as int,
                row_delta as int,
                maze@.rows() as int,
            ),
            final(self).cursor.col == shifted(
                old(self).cursor.col as int,
                col_delta as int,
                maze@.cols() as int,
            ),
            final(self).cells@ == if maze@.same_corridor(
                old(self).axis,
                old(self).cursor.at(),
                final(self).cursor.at(),
            ) {
                old(self).cells@
            } else {
                Seq::<Cell>::empty()
            },
    {
        let ghost board = maze@;
        let ghost before = self.cursor.at();
        let corridor: Vec<Cell> = self.corridor(maze);
        let row: usize = shift(self.cursor.row, row_delta, maze.rows());
        let col: usize = shift(self.cursor.col, col_delta, maze.cols());
        self.cursor = Cell::new(row, col);
        proof {
            lemma_listed_corridor(board, self.axis, before, corridor@, self.cursor);
        }
        if lists_cell(corridor.as_slice(), corridor.len(), self.cursor) {
            proof {
                assert forall|cell: Cell| #[trigger]
                    self.cells@.contains(cell) implies board.nodes.cells.contains(cell.at())
                    && board.same_corridor(self.axis, self.cursor.at(), cell.at()) by {
                    lemma_same_corridor(board, self.axis, before, self.cursor.at(), cell.at());
                }
            }
        } else {
            self.cells.clear();
        }
    }

    /// Turns to the other corridor through the cursor.
    pub fn toggle_axis(&mut self)
        ensures
            forall|board: Board| old(self).wf(board) ==> #[trigger] final(self).wf(board),
            final(self).cursor == old(self).cursor,
            final(self).axis != old(self).axis,
            final(self).cells@.len() == 0,
    {
        self.axis = self.axis.toggled();
        self.cells.clear();
    }

    /// Selects the node under the cursor, or no longer.
    pub fn toggle_current(&mut self, maze: &Maze)
        requires
            maze.wf(),
            old(self).wf(maze@),
        ensures
            final(self).wf(maze@),
            final(self).cursor == old(self).cursor,
            final(self).axis == old(self).axis,
            final(self).cells@ == if !maze@.nodes.cells.contains(old(self).cursor.at()) {
                old(self).cells@
            } else if old(self).cells@.contains(old(self).cursor) {
                without_cell(old(self).cells@, old(self).cursor)
            } else {
                old(self).cells@.push(old(self).cursor)
            },
    {
        if !maze.is_alive(self.cursor) {
            return;
        }
        let cursor: Cell = self.cursor;
        if lists_cell(self.cells.as_slice(), self.cells.len(), cursor) {
            self.deselect_cell(cursor);
        } else {
            self.select_cell(cursor);
        }
    }

    /// The nodes that are left on the corridor.
    pub fn alive_corridor(&self, maze: &Maze) -> (alive: Vec<Cell>)
        requires
            maze.wf(),
            self.wf(maze@),
        ensures
            alive@ == alive_on(maze@, self.axis, self.cursor.at()),
    {
        alive_along(maze, self.cursor, self.axis)
    }

    /// Whether there are nodes left on the corridor, and all are selected.
    pub fn corridor_is_fully_selected(&self, maze: &Maze) -> (full: bool)
        requires
            maze.wf(),
            self.wf(maze@),
        ensures
            full == fully_selected(maze@, *self),
    {
        let alive: Vec<Cell> = self.alive_corridor(maze);
        if alive.len() == 0 {
            return false;
        }
        let mut k: usize = 0;
        while k < alive.len()
            invariant
                k <= alive@.len(),
                alive@.len() > 0,
                alive@ == alive_on(maze@, self.axis, self.cursor.at()),
                forall|i: int| 0 <= i < k ==> self.cells@.contains(#[trigger] alive@[i]),
            decreases alive@.len() - k,
        {
            if !lists_cell(self.cells.as_slice(), self.cells.len(), alive[k]) {
                return false;
            }
            k = k + 1;
        }
        true
    }

    /// Selects a node of the corridor.
    pub fn select_cell(&mut self, cell: Cell)
        ensures
            forall|board: Board|
                old(self).wf(board) && board.nodes.cells.contains(cell.at())
                    && board.same_corridor(old(self).axis, old(self).cursor.at(), cell.at())
                    ==> #[trigger] final(self).wf(board),
            final(self).cursor == old(self).cursor,
            final(self).axis == old(self).axis,
            final(self).cells@ == with_selected(old(self).cells@, cell),
    {
        if !lists_cell(self.cells.as_slice(), self.cells.len(), cell) {
            let ghost before = self.cells@;
            self.cells.push(cell);
            proof {
                assert forall|other: Cell| #[trigger] self.cells@.contains(other) implies other
                    == cell || before.contains(other) by {
                    let i = choose|i: int| 0 <= i < self.cells@.len() && self.cells@[i] == other;
                    if i < before.len() {
                        assert(before[i] == other);
                    }
                }
            }
        }
    }

    /// Drops a node from the selection.
    pub fn deselect_cell(&mut self, cell: Cell)
        ensures
            forall|board: Board| old(self).wf(board) ==> #[trigger] final(self).wf(board),
            final(self).cursor == old(self).cursor,
            final(self).axis == old(self).axis,
            final(self).cells@ == without_cell(old(self).cells@, cell),
    {
        if let Some(place) = find_cell(&self.cells, cell) {
            let _dropped = self.cells.swap_remove(place);
            proof {
                assert(self.cells@ =~= without_cell(old(self).cells@, cell));
                assert forall|board: Board| old(self).wf(board) implies #[trigger] self.wf(board) by {
                    lemma_without_cell(old(self).cells@, cell);
                }
            }
        }
    }

    /// Drops the selection.
    pub fn clear(&mut self)
        ensures
            forall|board: Board| old(self).wf(board) ==> #[trigger] final(self).wf(board),
            final(self).cursor == old(self).cursor,
            final(self).axis == old(self).axis,
            final(self).cells@.len() == 0,
    {
        self.cells.clear();
    }

    /// The move that takes the selected nodes, which is legal; nothing is selected after that.
    pub fn take_move(&mut self) -> (movement: Option<Move>)
        ensures
            movement is Some <==> old(self).cells@.len() > 0,
            movement matches Some(movement) ==> {
                &&& movement.axis == old(self).axis
                &&& movement.anchor == old(self).cursor
                &&& movement.cells@ == old(self).cells@
                &&& forall|board: Board|
                    board.wf() && old(self).wf(board) ==> #[trigger] movement.is_legal(board)
            },
            final(self).cursor == old(self).cursor,
            final(self).axis == old(self).axis,
            final(self).cells@.len() == 0,
    {
        if self.cells.len() == 0 {
            return None;
        }
        let mut cells: Vec<Cell> = Vec::new();
        core::mem::swap(&mut cells, &mut self.cells);
        let movement = Move { axis: self.axis, anchor: self.cursor, cells };
        proof {
            assert forall|board: Board| board.wf() && old(self).wf(board) implies #[trigger] movement.is_legal(
                board,
            ) by {
                lemma_alive_on(board, self.axis, self.cursor.at());
                lemma_corridor_move(board, self.axis, self.cursor, cells@);
            }
        }
        Some(movement)
    }
}

/// Whether there are nodes left on the corridor through the cursor, and all are selected.
pub open spec fn fully_selected(board: Board, selection: Selection) -> bool {
    let alive = alive_on(board, selection.axis, selection.cursor.at());
    alive.len() > 0 && forall|i: int|
        0 <= i < alive.len() ==> selection.cells@.contains(#[trigger] alive[i])
}

} // verus!
