//! The user-facing maze: nodes, walls, corridors and moves.
use crate::grid::{countable, lemma_from_fn_wf, Grid};
use vstd::prelude::*;

pub use crate::matrix::BitMatrix;

verus! {

broadcast use lemma_from_fn_wf;

/// A place on the board.
#[derive(Clone, Copy, Debug, PartialEq, Eq, Hash, Structural)]
pub struct Cell {
    pub row: usize,
    pub col: usize,
}

impl Cell {
    pub fn new(row: usize, col: usize) -> (cell: Self)
        ensures
            cell == (Cell { row, col }),
    {
        Cell { row, col }
    }

    /// The cell as a pair of indices.
    pub open spec fn at(self) -> (int, int) {
        (self.row as int, self.col as int)
    }
}

/// The direction of a corridor.
#[derive(Clone, Copy, Debug, PartialEq, Eq, Structural)]
pub enum Axis {
    Horizontal,
    Vertical,
}

impl Axis {
    pub fn toggled(self) -> (axis: Self)
        ensures
            axis == (match self {
                Axis::Horizontal => Axis::Vertical,
                Axis::Vertical => Axis::Horizontal,
            }),
    {
        match self {
            Self::Horizontal => Self::Vertical,
            Self::Vertical => Self::Horizontal,
        }
    }

    pub fn name(self) -> (name: &'static str)
        ensures
            name@ == (match self {
                Axis::Horizontal => "horizontal"@,
                Axis::Vertical => "vertical"@,
            }),
    {
        match self {
            Self::Horizontal => "horizontal",
            Self::Vertical => "vertical",
        }
    }
}

/// The mathematical model of a maze.
///
/// Cell `(r, c)` of `vertical` is the wall between node `(r, c)` and the node to its right; cell
/// `(r, c)` of `horizontal` is the wall between node `(r, c)` and the node below it.
#[verifier::ext_equal]
pub struct Board {
    pub nodes: Grid,
    pub vertical: Grid,
    pub horizontal: Grid,
}

impl Board {
    pub open spec fn rows(self) -> nat {
        self.nodes.rows
    }

    pub open spec fn cols(self) -> nat {
        self.nodes.cols
    }

    /// Whether the walls fit the nodes, and the nodes can be counted by a machine word.
    pub open spec fn wf(self) -> bool {
        &&& self.nodes.wf()
        &&& self.vertical.wf()
        &&& self.horizontal.wf()
        &&& 0 < self.rows()
        &&& 0 < self.cols()
        &&& countable(self.rows(), self.cols())
        &&& self.vertical.rows == self.rows()
        &&& self.vertical.cols == self.cols() - 1
        &&& self.horizontal.rows == self.rows() - 1
        &&& self.horizontal.cols == self.cols()
    }

    /// Whether `at` is a place on the board.
    pub open spec fn contains(self, at: (int, int)) -> bool {
        0 <= at.0 < self.rows() && 0 <= at.1 < self.cols()
    }

    /// Whether there is a node to the right of `(r, c)`, with no wall in between.
    pub open spec fn joined_right(self, r: int, c: int) -> bool {
        c + 1 < self.cols() && !self.vertical.has(r, c)
    }

    /// Whether there is a node below `(r, c)`, with no wall in between.
    pub open spec fn joined_down(self, r: int, c: int) -> bool {
        r + 1 < self.rows() && !self.horizontal.has(r, c)
    }

    /// Whether columns `from` to `to` of row `r` are joined.
    pub open spec fn joined_cols(self, r: int, from: int, to: int) -> bool {
        forall|c: int| from <= c < to ==> #[trigger] self.joined_right(r, c)
    }

    /// Whether rows `from` to `to` of column `c` are joined.
    pub open spec fn joined_rows(self, c: int, from: int, to: int) -> bool {
        forall|r: int| from <= r < to ==> #[trigger] self.joined_down(r, c)
    }

    /// Whether `a` and `b` lie on one corridor of direction `axis`.
    pub open spec fn same_corridor(self, axis: Axis, a: (int, int), b: (int, int)) -> bool {
        match axis {
            Axis::Horizontal => a.0 == b.0 && self.joined_cols(a.0, a.1, b.1) && self.joined_cols(
                a.0,
                b.1,
                a.1,
            ),
            Axis::Vertical => a.1 == b.1 && self.joined_rows(a.1, a.0, b.0) && self.joined_rows(
                a.1,
                b.0,
                a.0,
            ),
        }
    }

    /// Whether `cells` is the corridor of direction `axis` through `at`, from its first cell to its
    /// last: neighbours in one line without a wall between them, ended by walls or the border.
    pub open spec fn lists_corridor(self, axis: Axis, at: (int, int), cells: Seq<Cell>) -> bool {
        &&& cells.len() > 0
        &&& match axis {
            Axis::Horizontal => {
                let first = cells[0].col as int;
                let last = first + cells.len() - 1;
                &&& forall|i: int|
                    0 <= i < cells.len() ==> (#[trigger] cells[i]).at() == (at.0, first + i)
                &&& first <= at.1 <= last < self.cols()
                &&& self.joined_cols(at.0, first, last)
                &&& first > 0 ==> !self.joined_right(at.0, first - 1)
                &&& !self.joined_right(at.0, last)
            },
            Axis::Vertical => {
                let first = cells[0].row as int;
                let last = first + cells.len() - 1;
                &&& forall|i: int|
                    0 <= i < cells.len() ==> (#[trigger] cells[i]).at() == (first + i, at.1)
                &&& first <= at.0 <= last < self.rows()
                &&& self.joined_rows(at.1, first, last)
                &&& first > 0 ==> !self.joined_down(first - 1, at.1)
                &&& !self.joined_down(last, at.1)
            },
        }
    }

    /// Why the cell at place `i` of `selected` cannot be taken along the corridor through
    /// `anchor`, if it cannot.
    pub open spec fn cell_fault(self, axis: Axis, anchor: Cell, selected: Seq<Cell>, i: int) -> Option<
        MoveError,
    > {
        let cell = selected[i];
        if !self.contains(cell.at()) {
            Some(MoveError::OutsideBoard)
        } else if !self.same_corridor(axis, anchor.at(), cell.at()) {
            Some(MoveError::DifferentCorridors)
        } else if !self.nodes.cells.contains(cell.at()) {
            Some(MoveError::AlreadyTaken)
        } else if selected.take(i).contains(cell) {
            Some(MoveError::DuplicateNode)
        } else {
            None
        }
    }

    /// The fault of the first faulty cell of `selected` at place `i` or later.
    pub open spec fn first_fault(self, axis: Axis, anchor: Cell, selected: Seq<Cell>, i: int) -> Option<
        MoveError,
    >
        decreases selected.len() - i,
    {
        if i < 0 || i >= selected.len() {
            None
        } else {
            match self.cell_fault(axis, anchor, selected, i) {
                Some(fault) => Some(fault),
                None => self.first_fault(axis, anchor, selected, i + 1),
            }
        }
    }

    /// Why `selected` is no move along the corridor through `anchor`, if it is none.
    pub open spec fn move_fault(self, axis: Axis, anchor: Cell, selected: Seq<Cell>) -> Option<
        MoveError,
    > {
        if selected.len() == 0 {
            Some(MoveError::Empty)
        } else if !self.contains(anchor.at()) {
            Some(MoveError::OutsideBoard)
        } else {
            self.first_fault(axis, anchor, selected, 0)
        }
    }

    /// Without the nodes at `taken`.
    pub open spec fn without(self, taken: Set<(int, int)>) -> Board {
        Board {
            nodes: Grid { cells: self.nodes.cells.difference(taken), ..self.nodes },
            ..self
        }
    }
}

/// The places of `cells`.
pub open spec fn places(cells: Seq<Cell>) -> Set<(int, int)> {
    Set::new(|p: (int, int)| exists|i: int| 0 <= i < cells.len() && (#[trigger] cells[i]).at() == p)
}

/// Why a selection is no move.
#[derive(Clone, Copy, Debug, PartialEq, Eq, Structural)]
pub enum MoveError {
    Empty,
    OutsideBoard,
    DifferentCorridors,
    AlreadyTaken,
    DuplicateNode,
}

/// The user-facing maze representation.
///
/// Nodes and the two wall orientations use their natural logical dimensions:
/// `rows x cols`, `rows x (cols - 1)`, and `(rows - 1) x cols`.
#[derive(Debug)]
pub struct Maze {
    rows: usize,
    cols: usize,
    nodes: BitMatrix,
    vertical_walls: BitMatrix,
    horizontal_walls: BitMatrix,
}

impl View for Maze {
    type V = Board;

    closed spec fn view(&self) -> Board {
        Board {
            nodes: self.nodes@,
            vertical: self.vertical_walls@,
            horizontal: self.horizontal_walls@,
        }
    }
}

impl Clone for Maze {
    fn clone(&self) -> (copy: Self)
        ensures
            copy@ == self@,
            self.wf() ==> copy.wf(),
    {
        Maze {
            rows: self.rows,
            cols: self.cols,
            nodes: self.nodes.clone(),
            vertical_walls: self.vertical_walls.clone(),
            horizontal_walls: self.horizontal_walls.clone(),
        }
    }
}

/// The board of the given size with every node alive and no wall.
pub open spec fn open_board(rows: nat, cols: nat) -> Board {
    Board {
        nodes: Grid::from_fn(rows, cols, |r: int, c: int| true),
        vertical: Grid::blank(rows, (cols - 1) as nat),
        horizontal: Grid::blank((rows - 1) as nat, cols),
    }
}

/// The vertical walls of the built-in board.
pub open spec fn demo_vertical() -> Set<(int, int)> {
    set![
        (0int, 1int), (0int, 5int), (1int, 3int), (2int, 0int), (2int, 4int),
        (3int, 2int), (3int, 6int), (4int, 1int), (4int, 5int), (5int, 3int),
    ]
}

/// The horizontal walls of the built-in board.
pub open spec fn demo_horizontal() -> Set<(int, int)> {
    set![
        (0int, 2int), (0int, 6int), (1int, 0int), (1int, 4int), (2int, 2int), (2int, 3int),
        (2int, 7int), (3int, 1int), (3int, 5int), (4int, 3int), (4int, 6int),
    ]
}

/// The built-in board.
pub open spec fn demo_board() -> Board {
    Board {
        vertical: Grid { rows: 6, cols: 7, cells: demo_vertical() },
        horizontal: Grid { rows: 5, cols: 8, cells: demo_horizontal() },
        ..open_board(6, 8)
    }
}

impl Maze {
    /// What holds of every maze.
    pub closed spec fn stored(&self) -> bool {
        &&& self.nodes.wf()
        &&& self.vertical_walls.wf()
        &&& self.horizontal_walls.wf()
        &&& self.rows == self.nodes@.rows
        &&& self.cols == self.nodes@.cols
    }

    /// What holds of every maze.
    pub open spec fn wf(&self) -> bool {
        self@.wf() && self.stored()
    }

    /// Creates a fully open maze.
    pub fn open(rows: usize, cols: usize) -> (maze: Self)
        requires
            0 < rows,
            0 < cols,
            countable(rows as nat, cols as nat),
        ensures
            maze.wf(),
            maze@ == open_board(rows as nat, cols as nat),
    {
        proof {
            assert(rows * (cols - 1) <= rows * cols) by (nonlinear_arith);
            assert((rows - 1) * cols <= rows * cols) by (nonlinear_arith);
        }
        let mut nodes = BitMatrix::new(rows, cols);
        let mut row: usize = 0;
        while row < rows
            invariant
                nodes.wf(),
                nodes@.rows == rows,
                nodes@.cols == cols,
                row <= rows,
                forall|p: (int, int)| #[trigger]
                    nodes@.cells.contains(p) <==> 0 <= p.0 < row && 0 <= p.1 < cols,
            decreases rows - row,
        {
            let mut col: usize = 0;
            while col < cols
                invariant
                    nodes.wf(),
                    nodes@.rows == rows,
                    nodes@.cols == cols,
                    row < rows,
                    col <= cols,
                    forall|p: (int, int)| #[trigger]
                        nodes@.cells.contains(p) <==> 0 <= p.0 <= row && 0 <= p.1 < cols && (p.0
                            < row || p.1 < col),
                decreases cols - col,
            {
                nodes.set(row, col, true);
                col = col + 1;
            }
            row = row + 1;
        }
        let maze = Maze {
            rows,
            cols,
            nodes,
            vertical_walls: BitMatrix::new(rows, cols - 1),
            horizontal_walls: BitMatrix::new(rows - 1, cols),
        };
        proof {
            assert(maze@ =~= open_board(rows as nat, cols as nat));
        }
        maze
    }

    /// A small built-in board with corridors of varied lengths.
    pub fn demo() -> (maze: Self)
        ensures
            maze.wf(),
            maze@ == demo_board(),
    {
        let mut maze = Self::open(6, 8);
        maze.add_vertical_wall(0, 1);
        maze.add_vertical_wall(0, 5);
        maze.add_vertical_wall(1, 3);
        maze.add_vertical_wall(2, 0);
        maze.add_vertical_wall(2, 4);
        maze.add_vertical_wall(3, 2);
        maze.add_vertical_wall(3, 6);
        maze.add_vertical_wall(4, 1);
        maze.add_vertical_wall(4, 5);
        maze.add_vertical_wall(5, 3);
        maze.add_horizontal_wall(0, 2);
        maze.add_horizontal_wall(0, 6);
        maze.add_horizontal_wall(1, 0);
        maze.add_horizontal_wall(1, 4);
        maze.add_horizontal_wall(2, 2);
        maze.add_horizontal_wall(2, 3);
        maze.add_horizontal_wall(2, 7);
        maze.add_horizontal_wall(3, 1);
        maze.add_horizontal_wall(3, 5);
        maze.add_horizontal_wall(4, 3);
        maze.add_horizontal_wall(4, 6);
        maze
    }

    /// Returns a resized maze, preserving overlapping nodes and walls.
    ///
    /// Newly introduced nodes are alive and newly introduced wall positions are
    /// open, matching `Maze::open`.
    pub fn resized(&self, rows: usize, cols: usize) -> (maze: Self)
        requires
            self.wf(),
            0 < rows,
            0 < cols,
            countable(rows as nat, cols as nat),
        ensures
            maze.wf(),
            maze@ == resized_board(self@, rows as nat, cols as nat),
    {
        let mut resized = Self::open(rows, cols);
        let kept_rows: usize = if self.rows < rows {
            self.rows
        } else {
            rows
        };
        let kept_cols: usize = if self.cols < cols {
            self.cols
        } else {
            cols
        };
        let ghost target = resized_board(self@, rows as nat, cols as nat);
        let mut row: usize = 0;
        while row < kept_rows
            invariant
                self.wf(),
                resized.wf(),
                target == resized_board(self@, rows as nat, cols as nat),
                kept_rows <= self@.rows(),
                kept_cols <= self@.cols(),
                kept_rows <= rows,
                kept_cols <= cols,
                kept_rows == rows || kept_rows == self@.rows(),
                kept_cols == cols || kept_cols == self@.cols(),
                resized@.rows() == rows,
                resized@.cols() == cols,
                resized@.vertical == open_board(rows as nat, cols as nat).vertical,
                resized@.horizontal == open_board(rows as nat, cols as nat).horizontal,
                row <= kept_rows,
                forall|p: (int, int)| #[trigger]
                    resized@.nodes.cells.contains(p) <==> resized@.contains(p) && (p.0 >= row
                        || p.1 >= kept_cols || self@.nodes.cells.contains(p)),
            decreases kept_rows - row,
        {
            let mut col: usize = 0;
            while col < kept_cols
                invariant
                    self.wf(),
                    resized.wf(),
                    kept_rows <= self@.rows(),
                    kept_cols <= self@.cols(),
                    kept_rows <= rows,
                    kept_cols <= cols,
                    resized@.rows() == rows,
                    resized@.cols() == cols,
                    resized@.vertical == open_board(rows as nat, cols as nat).vertical,
                    resized@.horizontal == open_board(rows as nat, cols as nat).horizontal,
                    row < kept_rows,
                    col <= kept_cols,
                    forall|p: (int, int)| #[trigger]
                        resized@.nodes.cells.contains(p) <==> resized@.contains(p) && (p.0 > row
                            || (p.0 == row && p.1 >= col) || p.1 >= kept_cols
                            || self@.nodes.cells.contains(p)),
                decreases kept_cols - col,
            {
                resized.set_alive(Cell::new(row, col), self.is_alive(Cell::new(row, col)));
                col = col + 1;
            }
            row = row + 1;
        }
        proof {
            assert(resized@.nodes =~= target.nodes);
        }
        row = 0;
        while row < kept_rows
            invariant
                self.wf(),
                resized.wf(),
                target == resized_board(self@, rows as nat, cols as nat),
                0 < kept_rows <= self@.rows(),
                0 < kept_cols <= self@.cols(),
                kept_rows <= rows,
                kept_cols <= cols,
                kept_rows == rows || kept_rows == self@.rows(),
                kept_cols == cols || kept_cols == self@.cols(),
                resized@.nodes == target.nodes,
                resized@.horizontal == open_board(rows as nat, cols as nat).horizontal,
                row <= kept_rows,
                forall|p: (int, int)| #[trigger]
                    resized@.vertical.cells.contains(p) <==> p.0 < row && p.1 < kept_cols - 1
                        && self@.vertical.cells.contains(p),
            decreases kept_rows - row,
        {
            let mut col: usize = 0;
            while col < kept_cols - 1
                invariant
                    self.wf(),
                    resized.wf(),
                    target == resized_board(self@, rows as nat, cols as nat),
                    0 < kept_rows <= self@.rows(),
                    0 < kept_cols <= self@.cols(),
                    kept_rows <= rows,
                    kept_cols <= cols,
                    resized@.nodes == target.nodes,
                    resized@.horizontal == open_board(rows as nat, cols as nat).horizontal,
                    row < kept_rows,
                    col <= kept_cols - 1,
                    forall|p: (int, int)| #[trigger]
                        resized@.vertical.cells.contains(p) <==> (p.0 < row || (p.0 == row && p.1
                            < col)) && p.1 < kept_cols - 1 && self@.vertical.cells.contains(p),
                decreases kept_cols - col,
            {
                resized.set_vertical_wall(row, col, self.vertical_walls.get(row, col));
                col = col + 1;
            }
            row = row + 1;
        }
        proof {
            assert(resized@.vertical =~= target.vertical);
        }
        row = 0;
        while row < kept_rows - 1
            invariant
                self.wf(),
                resized.wf(),
                target == resized_board(self@, rows as nat, cols as nat),
                0 < kept_rows <= self@.rows(),
                0 < kept_cols <= self@.cols(),
                kept_rows <= rows,
                kept_cols <= cols,
                kept_rows == rows || kept_rows == self@.rows(),
                kept_cols == cols || kept_cols == self@.cols(),
                resized@.nodes == target.nodes,
                resized@.vertical == target.vertical,
                row <= kept_rows - 1,
                forall|p: (int, int)| #[trigger]
                    resized@.horizontal.cells.contains(p) <==> p.0 < row && p.1 < kept_cols
                        && self@.horizontal.cells.contains(p),
            decreases kept_rows - row,
        {
            let mut col: usize = 0;
            while col < kept_cols
                invariant
                    self.wf(),
                    resized.wf(),
                    target == resized_board(self@, rows as nat, cols as nat),
                    0 < kept_rows <= self@.rows(),
                    0 < kept_cols <= self@.cols(),
                    kept_rows <= rows,
                    kept_cols <= cols,
                    resized@.nodes == target.nodes,
                    resized@.vertical == target.vertical,
                    row < kept_rows - 1,
                    col <= kept_cols,
                    forall|p: (int, int)| #[trigger]
                        resized@.horizontal.cells.contains(p) <==> (p.0 < row || (p.0 == row && p.1
                            < col)) && p.1 < kept_cols && self@.horizontal.cells.contains(p),
                decreases kept_cols - col,
            {
                resized.set_horizontal_wall(row, col, self.horizontal_walls.get(row, col));
                col = col + 1;
            }
            row = row + 1;
        }
        proof {
            assert(resized@.horizontal =~= target.horizontal);
            assert(resized@ =~= target);
        }
        resized
    }

    pub fn rows(&self) -> (rows: usize)
        requires
            self.wf(),
        ensures
            rows == self@.rows(),
    {
        self.rows
    }

    pub fn cols(&self) -> (cols: usize)
        requires
            self.wf(),
        ensures
            cols == self@.cols(),
    {
        self.cols
    }

    pub fn nodes(&self) -> (nodes: &BitMatrix)
        requires
            self.wf(),
        ensures
            nodes.wf(),
            nodes@ == self@.nodes,
    {
        &self.nodes
    }

    pub fn vertical_walls(&self) -> (walls: &BitMatrix)
        requires
            self.wf(),
        ensures
            walls.wf(),
            walls@ == self@.vertical,
    {
        &self.vertical_walls
    }

    pub fn horizontal_walls(&self) -> (walls: &BitMatrix)
        requires
            self.wf(),
        ensures
            walls.wf(),
            walls@ == self@.horizontal,
    {
        &self.horizontal_walls
    }

    pub fn alive_count(&self) -> (count: usize)
        requires
            self.wf(),
        ensures
            count == self@.nodes.cells.len(),
    {
        self.nodes.count_ones()
    }

    pub fn is_alive(&self, cell: Cell) -> (alive: bool)
        requires
            self.wf(),
        ensures
            alive == self@.nodes.cells.contains(cell.at()),
    {
        self.contains(cell) && self.nodes.get(cell.row, cell.col)
    }

    pub fn set_alive(&mut self, cell: Cell, alive: bool)
        requires
            old(self).wf(),
            old(self)@.contains(cell.at()),
        ensures
            final(self).wf(),
            final(self)@ == (Board {
                nodes: with_cell(old(self)@.nodes, cell.at(), alive),
                ..old(self)@
            }),
    {
        self.nodes.set(cell.row, cell.col, alive);
    }

    pub fn toggle_alive(&mut self, cell: Cell)
        requires
            old(self).wf(),
            old(self)@.contains(cell.at()),
        ensures
            final(self).wf(),
            final(self)@ == (Board {
                nodes: with_cell(
                    old(self)@.nodes,
                    cell.at(),
                    !old(self)@.nodes.cells.contains(cell.at()),
                ),
                ..old(self)@
            }),
    {
        let alive: bool = self.is_alive(cell);
        self.set_alive(cell, !alive);
    }

    pub fn contains(&self, cell: Cell) -> (contained: bool)
        requires
            self.wf(),
        ensures
            contained == self@.contains(cell.at()),
    {
        cell.row < self.rows && cell.col < self.cols
    }

    /// Places a wall between `(row, left_col)` and the cell to its right.
    pub fn add_vertical_wall(&mut self, row: usize, left_col: usize)
        requires
            old(self).wf(),
            row < old(self)@.rows(),
            left_col + 1 < old(self)@.cols(),
        ensures
            final(self).wf(),
            final(self)@ == (Board {
                vertical: with_cell(old(self)@.vertical, (row as int, left_col as int), true),
                ..old(self)@
            }),
    {
        self.vertical_walls.set(row, left_col, true);
    }

    pub fn set_vertical_wall(&mut self, row: usize, left_col: usize, wall: bool)
        requires
            old(self).wf(),
            row < old(self)@.rows(),
            left_col + 1 < old(self)@.cols(),
        ensures
            final(self).wf(),
            final(self)@ == (Board {
                vertical: with_cell(old(self)@.vertical, (row as int, left_col as int), wall),
                ..old(self)@
            }),
    {
        self.vertical_walls.set(row, left_col, wall);
    }

    pub fn toggle_vertical_wall(&mut self, row: usize, left_col: usize)
        requires
            old(self).wf(),
            row < old(self)@.rows(),
            left_col + 1 < old(self)@.cols(),
        ensures
            final(self).wf(),
            final(self)@ == (Board {
                vertical: with_cell(
                    old(self)@.vertical,
                    (row as int, left_col as int),
                    !old(self)@.vertical.has(row as int, left_col as int),
                ),
                ..old(self)@
            }),
    {
        let wall: bool = self.vertical_walls.get(row, left_col);
        self.set_vertical_wall(row, left_col, !wall);
    }

    /// Places a wall between `(top_row, col)` and the cell below it.
    pub fn add_horizontal_wall(&mut self, top_row: usize, col: usize)
        requires
            old(self).wf(),
            top_row + 1 < old(self)@.rows(),
            col < old(self)@.cols(),
        ensures
            final(self).wf(),
            final(self)@ == (Board {
                horizontal: with_cell(old(self)@.horizontal, (top_row as int, col as int), true),
                ..old(self)@
            }),
    {
        self.horizontal_walls.set(top_row, col, true);
    }

    pub fn set_horizontal_wall(&mut self, top_row: usize, col: usize, wall: bool)
        requires
            old(self).wf(),
            top_row + 1 < old(self)@.rows(),
            col < old(self)@.cols(),
        ensures
            final(self).wf(),
            final(self)@ == (Board {
                horizontal: with_cell(old(self)@.horizontal, (top_row as int, col as int), wall),
                ..old(self)@
            }),
    {
        self.horizontal_walls.set(top_row, col, wall);
    }

    pub fn toggle_horizontal_wall(&mut self, top_row: usize, col: usize)
        requires
            old(self).wf(),
            top_row + 1 < old(self)@.rows(),
            col < old(self)@.cols(),
        ensures
            final(self).wf(),
            final(self)@ == (Board {
                horizontal: with_cell(
                    old(self)@.horizontal,
                    (top_row as int, col as int),
                    !old(self)@.horizontal.has(top_row as int, col as int),
                ),
                ..old(self)@
            }),
    {
        let wall: bool = self.horizontal_walls.get(top_row, col);
        self.set_horizontal_wall(top_row, col, !wall);
    }

    pub fn connected_right(&self, row: usize, left_col: usize) -> (connected: bool)
        requires
            self.wf(),
            left_col < usize::MAX,
            left_col + 1 < self@.cols() ==> row < self@.rows(),
        ensures
            connected == self@.joined_right(row as int, left_col as int),
    {
        left_col + 1 < self.cols && !self.vertical_walls.get(row, left_col)
    }

    pub fn connected_down(&self, top_row: usize, col: usize) -> (connected: bool)
        requires
            self.wf(),
            top_row < usize::MAX,
            top_row + 1 < self@.rows() ==> col < self@.cols(),
        ensures
            connected == self@.joined_down(top_row as int, col as int),
    {
        top_row + 1 < self.rows && !self.horizontal_walls.get(top_row, col)
    }

    /// Returns the maximal horizontal or vertical hyperedge through `cell`.
    pub fn corridor(&self, cell: Cell, axis: Axis) -> (cells: Vec<Cell>)
        requires
            self.wf(),
            self@.contains(cell.at()),
        ensures
            self@.lists_corridor(axis, cell.at(), cells@),
    {
        match axis {
            Axis::Horizontal => {
                let mut first: usize = cell.col;
                while first > 0 && self.connected_right(cell.row, first - 1)
                    invariant
                        self.wf(),
                        self@.contains(cell.at()),
                        first <= cell.col,
                        self@.joined_cols(cell.row as int, first as int, cell.col as int),
                    ensures
                        first <= cell.col,
                        self@.joined_cols(cell.row as int, first as int, cell.col as int),
                        first > 0 ==> !self@.joined_right(cell.row as int, first - 1),
                    decreases first,
                {
                    first = first - 1;
                }
                let mut last: usize = cell.col;
                while self.connected_right(cell.row, last)
                    invariant
                        self.wf(),
                        self@.contains(cell.at()),
                        cell.col <= last < self@.cols(),
                        self@.joined_cols(cell.row as int, cell.col as int, last as int),
                    decreases self@.cols() - last,
                {
                    last = last + 1;
                }
                let mut cells: Vec<Cell> = Vec::new();
                let mut col: usize = first;
                while col <= last
                    invariant
                        first <= col <= last + 1,
                        last < usize::MAX,
                        cells@.len() == col - first,
                        forall|i: int|
                            0 <= i < cells@.len() ==> (#[trigger] cells@[i]).at() == (
                                cell.row as int,
                                first + i,
                            ),
                    decreases last + 1 - col,
                {
                    cells.push(Cell::new(cell.row, col));
                    col = col + 1;
                }
                proof {
                    assert(cells@[0].at() == (cell.row as int, first as int));
                }
                cells
            },
            Axis::Vertical => {
                let mut first: usize = cell.row;
                while first > 0 && self.connected_down(first - 1, cell.col)
                    invariant
                        self.wf(),
                        self@.contains(cell.at()),
                        first <= cell.row,
                        self@.joined_rows(cell.col as int, first as int, cell.row as int),
                    ensures
                        first <= cell.row,
                        self@.joined_rows(cell.col as int, first as int, cell.row as int),
                        first > 0 ==> !self@.joined_down(first - 1, cell.col as int),
                    decreases first,
                {
                    first = first - 1;
                }
                let mut last: usize = cell.row;
                while self.connected_down(last, cell.col)
                    invariant
                        self.wf(),
                        self@.contains(cell.at()),
                        cell.row <= last < self@.rows(),
                        self@.joined_rows(cell.col as int, cell.row as int, last as int),
                    decreases self@.rows() - last,
                {
                    last = last + 1;
                }
                let mut cells: Vec<Cell> = Vec::new();
                let mut row: usize = first;
                while row <= last
                    invariant
                        first <= row <= last + 1,
                        last < usize::MAX,
                        cells@.len() == row - first,
                        forall|i: int|
                            0 <= i < cells@.len() ==> (#[trigger] cells@[i]).at() == (
                                first + i,
                                cell.col as int,
                            ),
                    decreases last + 1 - row,
                {
                    cells.push(Cell::new(row, cell.col));
                    row = row + 1;
                }
                proof {
                    assert(cells@[0].at() == (first as int, cell.col as int));
                }
                cells
            },
        }
    }

    /// Takes the nodes at `selected`, which must lie on the corridor through `anchor`.
    pub fn apply_move(&mut self, axis: Axis, anchor: Cell, selected: &[Cell]) -> (outcome: Result<
        (),
        MoveError,
    >)
        requires
            old(self).wf(),
        ensures
            final(self).wf(),
            match old(self)@.move_fault(axis, anchor, selected@) {
                Some(fault) => outcome == Err::<(), MoveError>(fault) && final(self)@ == old(
                    self,
                )@,
                None => outcome == Ok::<(), MoveError>(()) && final(self)@ == old(self)@.without(
                    places(selected@),
                ),
            },
    {
        if selected.len() == 0 {
            return Err(MoveError::Empty);
        }
        if !self.contains(anchor) {
            return Err(MoveError::OutsideBoard);
        }
        let corridor: Vec<Cell> = self.corridor(anchor, axis);
        let mut index: usize = 0;
        while index < selected.len()
            invariant
                self.wf(),
                self@ == old(self)@,
                self@.contains(anchor.at()),
                selected@.len() > 0,
                self@.lists_corridor(axis, anchor.at(), corridor@),
                index <= selected@.len(),
                self@.first_fault(axis, anchor, selected@, 0) == self@.first_fault(
                    axis,
                    anchor,
                    selected@,
                    index as int,
                ),
                forall|i: int|
                    0 <= i < index ==> self@.contains((#[trigger] selected@[i]).at()),
            decreases selected@.len() - index,
        {
            let cell: Cell = selected[index];
            if !self.contains(cell) {
                return Err(MoveError::OutsideBoard);
            }
            proof {
                lemma_listed_corridor(self@, axis, anchor.at(), corridor@, cell);
            }
            if !lists_cell(corridor.as_slice(), corridor.len(), cell) {
                return Err(MoveError::DifferentCorridors);
            }
            if !self.is_alive(cell) {
                return Err(MoveError::AlreadyTaken);
            }
            if lists_cell(selected, index, cell) {
                return Err(MoveError::DuplicateNode);
            }
            index = index + 1;
        }
        let ghost before = self@;
        let mut k: usize = 0;
        while k < selected.len()
            invariant
                self.wf(),
                before == old(self)@,
                self@ == (Board { nodes: self@.nodes, ..before }),
                self@.nodes.rows == before.nodes.rows,
                self@.nodes.cols == before.nodes.cols,
                forall|i: int|
                    0 <= i < selected@.len() ==> before.contains((#[trigger] selected@[i]).at()),
                k <= selected@.len(),
                forall|p: (int, int)| #[trigger]
                    self@.nodes.cells.contains(p) <==> before.nodes.cells.contains(p) && !places(
                        selected@.take(k as int),
                    ).contains(p),
            decreases selected@.len() - k,
        {
            let cell: Cell = selected[k];
            let ghost cells = self@.nodes.cells;
            self.nodes.set(cell.row, cell.col, false);
            proof {
                let done = selected@.take(k as int);
                let more = selected@.take(k + 1);
                assert(more =~= done.push(cell));
                assert forall|p: (int, int)| #[trigger]
                    self@.nodes.cells.contains(p) <==> before.nodes.cells.contains(p) && !places(
                        more,
                    ).contains(p) by {
                    assert(cells.contains(p) <==> before.nodes.cells.contains(p) && !places(
                        done,
                    ).contains(p));
                    if places(done).contains(p) {
                        let i = choose|i: int| 0 <= i < done.len() && (#[trigger] done[i]).at() == p;
                        assert(more[i].at() == p);
                    }
                    if p == cell.at() {
                        assert(more[k as int].at() == p);
                    }
                    if places(more).contains(p) && p != cell.at() {
                        let i = choose|i: int| 0 <= i < more.len() && (#[trigger] more[i]).at() == p;
                        assert(done[i].at() == p);
                    }
                }
            }
            k = k + 1;
        }
        proof {
            assert(selected@.take(k as int) =~= selected@);
            assert(self@ =~= before.without(places(selected@)));
        }
        Ok(())
    }
}

/// The grid with the cell at `at` set or cleared.
pub open spec fn with_cell(grid: Grid, at: (int, int), value: bool) -> Grid {
    Grid {
        cells: if value {
            grid.cells.insert(at)
        } else {
            grid.cells.remove(at)
        },
        ..grid
    }
}

/// The board of the given size that agrees with `board` where they overlap, and is open elsewhere.
pub open spec fn resized_board(board: Board, rows: nat, cols: nat) -> Board {
    Board {
        nodes: Grid::from_fn(
            rows,
            cols,
            |r: int, c: int| board.contains((r, c)) ==> board.nodes.has(r, c),
        ),
        vertical: Grid::from_fn(rows, (cols - 1) as nat, |r: int, c: int| board.vertical.has(r, c)),
        horizontal: Grid::from_fn(
            (rows - 1) as nat,
            cols,
            |r: int, c: int| board.horizontal.has(r, c),
        ),
    }
}

/// A listed corridor holds exactly the cells that are on the corridor.
pub proof fn lemma_listed_corridor(
    board: Board,
    axis: Axis,
    at: (int, int),
    cells: Seq<Cell>,
    cell: Cell,
)
    requires
        board.lists_corridor(axis, at, cells),
        board.contains(at),
        board.contains(cell.at()),
    ensures
        cells.contains(cell) <==> board.same_corridor(axis, at, cell.at()),
{
    match axis {
        Axis::Horizontal => {
            let first = cells[0].col as int;
            let last = first + cells.len() - 1;
            if cells.contains(cell) {
                let i = choose|i: int| 0 <= i < cells.len() && cells[i] == cell;
                assert(cells[i].at() == (at.0, first + i));
            }
            if board.same_corridor(axis, at, cell.at()) {
                if cell.col < first {
                    assert(board.joined_right(at.0, first - 1));
                }
                if cell.col > last {
                    assert(board.joined_right(at.0, last));
                }
                let i = cell.col - first;
                assert(cells[i].at() == (at.0, first + i));
                assert(cells[i] == cell);
            }
        },
        Axis::Vertical => {
            let first = cells[0].row as int;
            let last = first + cells.len() - 1;
            if cells.contains(cell) {
                let i = choose|i: int| 0 <= i < cells.len() && cells[i] == cell;
                assert(cells[i].at() == (first + i, at.1));
            }
            if board.same_corridor(axis, at, cell.at()) {
                if cell.row < first {
                    assert(board.joined_down(first - 1, at.1));
                }
                if cell.row > last {
                    assert(board.joined_down(last, at.1));
                }
                let i = cell.row - first;
                assert(cells[i].at() == (first + i, at.1));
                assert(cells[i] == cell);
            }
        },
    }
}

/// Whether `cell` is among the first `end` cells of `cells`.
pub fn lists_cell(cells: &[Cell], end: usize, cell: Cell) -> (found: bool)
    requires
        end <= cells@.len(),
    ensures
        found == cells@.take(end as int).contains(cell),
        end == cells@.len() ==> found == cells@.contains(cell),
{
    proof {
        if end == cells@.len() {
            assert(cells@.take(end as int) =~= cells@);
        }
    }
    let mut k: usize = 0;
    while k < end
        invariant
            k <= end <= cells@.len(),
            forall|i: int| 0 <= i < k ==> cells@[i] != cell,
        decreases end - k,
    {
        if cells[k] == cell {
            proof {
                assert(cells@.take(end as int)[k as int] == cell);
            }
            return true;
        }
        k = k + 1;
    }
    false
}

/// Taking nodes cuts no corridor.
pub proof fn lemma_taking_keeps_corridors(board: Board, taken: Set<(int, int)>, axis: Axis)
    ensures
        forall|a: (int, int), b: (int, int)| #[trigger]
            board.without(taken).same_corridor(axis, a, b) <==> board.same_corridor(axis, a, b),
        forall|at: (int, int), cells: Seq<Cell>| #[trigger]
            board.without(taken).lists_corridor(axis, at, cells) <==> board.lists_corridor(
                axis,
                at,
                cells,
            ),
{
    let after = board.without(taken);
    assert forall|r: int, c: int| #[trigger]
        after.joined_right(r, c) == board.joined_right(r, c) by {}
    assert forall|r: int, c: int| #[trigger]
        after.joined_down(r, c) == board.joined_down(r, c) by {}
    assert forall|r: int, from: int, to: int| #[trigger]
        after.joined_cols(r, from, to) == board.joined_cols(r, from, to) by {
        assert(forall|c: int| after.joined_right(r, c) == #[trigger] board.joined_right(r, c));
    }
    assert forall|c: int, from: int, to: int| #[trigger]
        after.joined_rows(c, from, to) == board.joined_rows(c, from, to) by {
        assert(forall|r: int| after.joined_down(r, c) == #[trigger] board.joined_down(r, c));
    }
}

/// A board that is resized to the size it has stays as it is.
pub proof fn lemma_resized_to_itself(board: Board)
    requires
        board.wf(),
    ensures
        resized_board(board, board.rows(), board.cols()) == board,
{
    let same = resized_board(board, board.rows(), board.cols());
    assert(same.nodes.cells =~= board.nodes.cells);
    assert(same.vertical.cells =~= board.vertical.cells);
    assert(same.horizontal.cells =~= board.horizontal.cells);
}

} // verus!
