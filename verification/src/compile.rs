//! From the maze to the matrix of its corridors.
use crate::board::{places, Axis, Board, Cell, Maze};
use crate::grid::{countable, lemma_from_fn_wf, Grid};
use crate::matrix::BitMatrix;
use crate::nim::{aligned, in_one_col, in_one_row, is_option, Position};
use vstd::prelude::*;

verus! {

broadcast use lemma_from_fn_wf;

impl Board {
    /// The board with rows and columns exchanged.
    pub open spec fn turned(self) -> Board {
        Board {
            nodes: self.nodes.transposed(),
            vertical: self.horizontal.transposed(),
            horizontal: self.vertical.transposed(),
        }
    }

    /// The number of horizontal corridors that end before place `k`, counting the places row by
    /// row.
    pub open spec fn ended_before(self, k: nat) -> nat
        decreases k,
    {
        if k == 0 {
            0
        } else {
            let last = k - 1;
            self.ended_before((k - 1) as nat) + if self.joined_right(
                last / (self.cols() as int),
                last % (self.cols() as int),
            ) {
                0nat
            } else {
                1nat
            }
        }
    }

    /// The number of the horizontal corridor through `(r, c)`, in reading order.
    pub open spec fn row_label(self, r: int, c: int) -> int {
        self.ended_before((r * self.cols() + c) as nat) as int
    }

    /// The number of horizontal corridors.
    pub open spec fn row_labels(self) -> nat {
        self.ended_before(self.rows() * self.cols())
    }

    /// The numbers of the two corridors through `p`.
    pub open spec fn labels(self, p: (int, int)) -> (int, int) {
        (self.row_label(p.0, p.1), self.turned().row_label(p.1, p.0))
    }

    /// The matrix whose rows are the horizontal corridors, whose columns are the vertical ones, and
    /// whose set cells are the nodes.
    pub open spec fn compiled(self) -> Grid {
        Grid {
            rows: self.row_labels(),
            cols: self.turned().row_labels(),
            cells: self.nodes.cells.map(|p: (int, int)| self.labels(p)),
        }
    }
}

proof fn lemma_turned(board: Board)
    requires
        board.wf(),
    ensures
        board.turned().wf(),
        board.turned().rows() == board.cols(),
        board.turned().cols() == board.rows(),
        forall|r: int, c: int|
            board.contains((r, c)) ==> #[trigger] board.turned().joined_right(c, r)
                == board.joined_down(r, c),
{
    assert(board.cols() * board.rows() == board.rows() * board.cols()) by (nonlinear_arith);
    assert forall|r: int, c: int|
        board.contains((r, c)) implies #[trigger] board.turned().joined_right(c, r)
        == board.joined_down(r, c) by {
        if r + 1 < board.rows() {
            assert(board.turned().vertical.has(c, r) == board.horizontal.has(r, c));
        }
    }
}

/// Place `k` of a board, as row and column.
proof fn lemma_place(board: Board, r: int, c: int)
    requires
        board.contains((r, c)),
    ensures
        0 <= r * board.cols() + c < board.rows() * board.cols(),
        (r * board.cols() + c) / (board.cols() as int) == r,
        (r * board.cols() + c) % (board.cols() as int) == c,
        0 <= r * board.cols(),
        (r + 1) * board.cols() == r * board.cols() + board.cols(),
{
    let n = board.cols() as int;
    vstd::arithmetic::div_mod::lemma_fundamental_div_mod_converse(r * n + c, n, r, c);
    assert((r + 1) * n == r * n + n) by (nonlinear_arith);
    assert(0 <= r * n) by (nonlinear_arith)
        requires
            0 <= r,
            0 <= n,
    ;
    assert((r + 1) * n <= board.rows() * n) by (nonlinear_arith)
        requires
            r + 1 <= board.rows(),
            0 <= n,
    ;
}

proof fn lemma_ended_grows(board: Board, i: nat, j: nat)
    requires
        i <= j,
    ensures
        board.ended_before(i) <= board.ended_before(j) <= board.ended_before(i) + (j - i),
        board.ended_before(i) == board.ended_before(j) <==> forall|k: int|
            i <= k < j ==> #[trigger] board.joined_right(
                k / (board.cols() as int),
                k % (board.cols() as int),
            ),
    decreases j - i,
{
    if i < j {
        let last = j - 1;
        lemma_ended_grows(board, i, (j - 1) as nat);
        let joined = board.joined_right(last / (board.cols() as int), last % (board.cols() as int));
        if board.ended_before(i) == board.ended_before(j) {
            assert forall|k: int| i <= k < j implies #[trigger] board.joined_right(
                k / (board.cols() as int),
                k % (board.cols() as int),
            ) by {
                if k == last {
                    assert(joined);
                }
            }
        }
        if forall|k: int|
            i <= k < j ==> #[trigger] board.joined_right(
                k / (board.cols() as int),
                k % (board.cols() as int),
            ) {
            assert(joined);
        }
    }
}

proof fn lemma_labels_ordered(board: Board, a: (int, int), b: (int, int))
    requires
        board.wf(),
        board.contains(a),
        board.contains(b),
        a.0 < b.0 || (a.0 == b.0 && a.1 <= b.1),
    ensures
        board.row_label(a.0, a.1) == board.row_label(b.0, b.1) <==> a.0 == b.0 && board.joined_cols(
            a.0,
            a.1,
            b.1,
        ),
        0 <= board.row_label(a.0, a.1) < board.row_labels(),
{
    let n = board.cols() as int;
    let i = a.0 * n + a.1;
    let j = b.0 * n + b.1;
    lemma_place(board, a.0, a.1);
    lemma_place(board, b.0, b.1);
    assert(i <= j) by {
        if a.0 < b.0 {
            assert((a.0 + 1) * n <= b.0 * n) by (nonlinear_arith)
                requires
                    a.0 + 1 <= b.0,
                    0 <= n,
            ;
        }
    }
    lemma_ended_grows(board, i as nat, j as nat);
    if board.row_label(a.0, a.1) == board.row_label(b.0, b.1) {
        if a.0 < b.0 {
            // The last place of row `a.0` is joined to nothing.
            let k = a.0 * n + (n - 1);
            lemma_place(board, a.0, n - 1);
            assert((a.0 + 1) * n <= b.0 * n) by (nonlinear_arith)
                requires
                    a.0 + 1 <= b.0,
                    0 <= n,
            ;
            assert(i <= k < j);
            assert(board.joined_right(k / n, k % n));
        }
        assert forall|c: int| a.1 <= c < b.1 implies #[trigger] board.joined_right(a.0, c) by {
            lemma_place(board, a.0, c);
            let k = a.0 * n + c;
            assert(board.joined_right(k / n, k % n));
        }
    }
    if a.0 == b.0 && board.joined_cols(a.0, a.1, b.1) {
        assert forall|k: int| i <= k < j implies #[trigger] board.joined_right(k / n, k % n) by {
            let c = k - a.0 * n;
            lemma_place(board, a.0, c);
        }
    }
    let last = board.rows() * board.cols();
    lemma_ended_grows(board, i as nat, last);
    let k = (board.rows() - 1) * n + (n - 1);
    lemma_place(board, board.rows() - 1, n - 1);
    if board.row_label(a.0, a.1) == board.row_labels() {
        assert(i <= k < last) by {
            if a.0 < board.rows() - 1 {
                assert((a.0 + 1) * n <= (board.rows() - 1) * n) by (nonlinear_arith)
                    requires
                        a.0 + 1 <= board.rows() - 1,
                        0 <= n,
                ;
            }
        }
        assert(board.joined_right(k / n, k % n));
    }
}

/// Two places have the same row label exactly when they are on one horizontal corridor.
proof fn lemma_row_labels(board: Board, a: (int, int), b: (int, int))
    requires
        board.wf(),
        board.contains(a),
        board.contains(b),
    ensures
        board.row_label(a.0, a.1) == board.row_label(b.0, b.1) <==> board.same_corridor(
            Axis::Horizontal,
            a,
            b,
        ),
        0 <= board.row_label(a.0, a.1) < board.row_labels(),
{
    if a.0 < b.0 || (a.0 == b.0 && a.1 <= b.1) {
        lemma_labels_ordered(board, a, b);
    } else {
        lemma_labels_ordered(board, b, a);
        lemma_labels_ordered(board, a, a);
    }
}

/// Two places share a label exactly when they are on one corridor.
pub proof fn lemma_labels(board: Board, a: (int, int), b: (int, int))
    requires
        board.wf(),
        board.contains(a),
        board.contains(b),
    ensures
        board.labels(a).0 == board.labels(b).0 <==> board.same_corridor(Axis::Horizontal, a, b),
        board.labels(a).1 == board.labels(b).1 <==> board.same_corridor(Axis::Vertical, a, b),
        0 <= board.labels(a).0 < board.compiled().rows,
        0 <= board.labels(a).1 < board.compiled().cols,
        board.labels(a) == board.labels(b) ==> a == b,
{
    let turned = board.turned();
    lemma_turned(board);
    lemma_row_labels(board, a, b);
    lemma_row_labels(turned, (a.1, a.0), (b.1, b.0));
    assert(turned.same_corridor(Axis::Horizontal, (a.1, a.0), (b.1, b.0)) <==> board.same_corridor(
        Axis::Vertical,
        a,
        b,
    )) by {
        if turned.same_corridor(Axis::Horizontal, (a.1, a.0), (b.1, b.0)) {
            assert forall|r: int| a.0 <= r < b.0 implies #[trigger] board.joined_down(r, a.1) by {
                assert(turned.joined_right(a.1, r));
            }
            assert forall|r: int| b.0 <= r < a.0 implies #[trigger] board.joined_down(r, a.1) by {
                assert(turned.joined_right(a.1, r));
            }
        }
        if board.same_corridor(Axis::Vertical, a, b) {
            assert forall|r: int| a.0 <= r < b.0 implies #[trigger] turned.joined_right(a.1, r) by {
                assert(board.joined_down(r, a.1));
            }
            assert forall|r: int| b.0 <= r < a.0 implies #[trigger] turned.joined_right(a.1, r) by {
                assert(board.joined_down(r, a.1));
            }
        }
    }
}

/// The compiled matrix is well formed.
pub proof fn lemma_compiled(board: Board)
    requires
        board.wf(),
    ensures
        board.compiled().wf(),
        board.compiled().rows <= board.rows() * board.cols(),
        board.compiled().cols <= board.rows() * board.cols(),
{
    let grid = board.compiled();
    assert forall|x: (int, int)| #[trigger] grid.cells.contains(x) implies 0 <= x.0 < grid.rows
        && 0 <= x.1 < grid.cols by {
        let p = choose|p: (int, int)| board.nodes.cells.contains(p) && board.labels(p) == x;
        lemma_labels(board, p, p);
    }
    crate::grid::lemma_cells_finite(grid.cells, grid.rows, grid.cols);
    lemma_turned(board);
    lemma_ended_grows(board, 0, board.rows() * board.cols());
    lemma_ended_grows(board.turned(), 0, board.turned().rows() * board.turned().cols());
    assert(board.cols() * board.rows() == board.rows() * board.cols()) by (nonlinear_arith);
}

/// Numbers the horizontal corridors of a board of which `joined` decides the connections to the
/// right: the number of the corridor through each place, row by row, and how many there are.
fn number_corridors<F: Fn(usize, usize) -> bool>(
    rows: usize,
    cols: usize,
    joined: F,
    Ghost(board): Ghost<Board>,
) -> (numbered: (Vec<usize>, usize))
    requires
        board.wf(),
        rows == board.rows(),
        cols == board.cols(),
        forall|r: usize, c: usize| r < rows && c < cols ==> #[trigger] joined.requires((r, c)),
        forall|r: usize, c: usize, b: bool|
            r < rows && c < cols && #[trigger] joined.ensures((r, c), b) ==> b == board.joined_right(
                r as int,
                c as int,
            ),
    ensures
        numbered.1 == board.row_labels(),
        numbered.0@.len() == rows * cols,
        forall|r: int, c: int|
            board.contains((r, c)) ==> numbered.0@[r * cols + c] == #[trigger] board.row_label(r, c),
{
    let mut labels: Vec<usize> = Vec::new();
    let mut count: usize = 0;
    let mut row: usize = 0;
    proof {
        assert(0 * cols == 0) by (nonlinear_arith);
    }
    while row < rows
        invariant
            board.wf(),
            rows == board.rows(),
            cols == board.cols(),
            forall|r: usize, c: usize| r < rows && c < cols ==> #[trigger] joined.requires((r, c)),
            forall|r: usize, c: usize, b: bool|
                r < rows && c < cols && #[trigger] joined.ensures((r, c), b) ==> b
                    == board.joined_right(r as int, c as int),
            row <= rows,
            0 <= row * cols <= rows * cols <= usize::MAX,
            labels@.len() == row * cols,
            count == board.ended_before((row * cols) as nat),
            forall|k: int|
                0 <= k < labels@.len() ==> #[trigger] labels@[k] == board.ended_before(k as nat),
        decreases rows - row,
    {
        let mut corridor: usize = count;
        proof {
            lemma_place(board, row as int, 0);
            lemma_ended_grows(board, 0, (row * cols) as nat);
            lemma_place(board, row as int, cols - 1);
        }
        count = count + 1;
        let mut col: usize = 0;
        while col < cols
            invariant
                board.wf(),
                rows == board.rows(),
                cols == board.cols(),
                forall|r: usize, c: usize|
                    r < rows && c < cols ==> #[trigger] joined.requires((r, c)),
                forall|r: usize, c: usize, b: bool|
                    r < rows && c < cols && #[trigger] joined.ensures((r, c), b) ==> b
                        == board.joined_right(r as int, c as int),
                row < rows,
                0 < cols,
                col <= cols,
                0 <= row * cols,
                row * cols + cols <= rows * cols <= usize::MAX,
                labels@.len() == row * cols + col,
                count == corridor + 1,
                col < cols ==> corridor == board.ended_before((row * cols + col) as nat),
                col == cols ==> count == board.ended_before((row * cols + cols) as nat),
                forall|k: int|
                    0 <= k < labels@.len() ==> #[trigger] labels@[k] == board.ended_before(k as nat),
            decreases cols - col,
        {
            proof {
                lemma_place(board, row as int, col as int);
                lemma_ended_grows(board, 0, (row * cols + col) as nat);
            }
            labels.push(corridor);
            if col + 1 < cols && !joined(row, col) {
                corridor = count;
                count = count + 1;
            }
            col = col + 1;
        }
        row = row + 1;
    }
    proof {
        assert forall|r: int, c: int| board.contains((r, c)) implies labels@[r * cols + c]
            == #[trigger] board.row_label(r, c) by {
            lemma_place(board, r, c);
        }
    }
    (labels, count)
}

/// Compiles the current maze position into its wall-free incidence matrix.
///
/// A vertical wall starts a new matrix row; a horizontal wall starts a new
/// matrix column. Removed maze nodes are represented by zero bits.
pub fn compile_maze(maze: &Maze) -> (matrix: BitMatrix)
    requires
        maze.wf(),
        countable(maze@.compiled().rows, maze@.compiled().cols),
    ensures
        matrix.wf(),
        matrix@ == maze@.compiled(),
{
    let ghost board = maze@;
    let rows: usize = maze.rows();
    let cols: usize = maze.cols();
    proof {
        lemma_turned(board);
        lemma_compiled(board);
    }
    let right = |r: usize, c: usize| -> (b: bool)
        requires
            maze.wf(),
            r < rows,
            c < cols,
            rows == maze@.rows(),
            cols == maze@.cols(),
        ensures
            b == maze@.joined_right(r as int, c as int),
        { maze.connected_right(r, c) };
    let (horizontal, row_count) = number_corridors(rows, cols, right, Ghost(board));
    let down = |c: usize, r: usize| -> (b: bool)
        requires
            maze.wf(),
            r < rows,
            c < cols,
            rows == maze@.rows(),
            cols == maze@.cols(),
        ensures
            b == maze@.joined_down(r as int, c as int),
        { maze.connected_down(r, c) };
    let (vertical, col_count) = number_corridors(cols, rows, down, Ghost(board.turned()));
    let mut matrix = BitMatrix::new(row_count, col_count);
    let ghost label = |p: (int, int)| board.labels(p);
    let mut row: usize = 0;
    while row < rows
        invariant
            maze.wf(),
            board == maze@,
            rows == board.rows(),
            cols == board.cols(),
            board.turned().rows() == cols,
            board.turned().cols() == rows,
            label == (|p: (int, int)| board.labels(p)),
            horizontal@.len() == rows * cols,
            vertical@.len() == cols * rows,
            rows * cols <= usize::MAX,
            cols * rows <= usize::MAX,
            forall|r: int, c: int|
                board.contains((r, c)) ==> horizontal@[r * cols + c] == #[trigger] board.row_label(
                    r,
                    c,
                ),
            forall|c: int, r: int|
                board.turned().contains((c, r)) ==> vertical@[c * rows + r]
                    == #[trigger] board.turned().row_label(c, r),
            matrix.wf(),
            matrix@.rows == board.compiled().rows,
            matrix@.cols == board.compiled().cols,
            row <= rows,
            forall|x: (int, int)| #[trigger]
                matrix@.cells.contains(x) <==> exists|p: (int, int)|
                    p.0 < row && board.nodes.cells.contains(p) && #[trigger] label(p) == x,
        decreases rows - row,
    {
        let mut col: usize = 0;
        while col < cols
            invariant
                maze.wf(),
                board == maze@,
                rows == board.rows(),
                cols == board.cols(),
                board.turned().rows() == cols,
                board.turned().cols() == rows,
                label == (|p: (int, int)| board.labels(p)),
                horizontal@.len() == rows * cols,
                vertical@.len() == cols * rows,
                rows * cols <= usize::MAX,
                cols * rows <= usize::MAX,
                forall|r: int, c: int|
                    board.contains((r, c)) ==> horizontal@[r * cols + c]
                        == #[trigger] board.row_label(r, c),
                forall|c: int, r: int|
                    board.turned().contains((c, r)) ==> vertical@[c * rows + r]
                        == #[trigger] board.turned().row_label(c, r),
                matrix.wf(),
                matrix@.rows == board.compiled().rows,
                matrix@.cols == board.compiled().cols,
                row < rows,
                col <= cols,
                forall|x: (int, int)| #[trigger]
                    matrix@.cells.contains(x) <==> exists|p: (int, int)|
                        (p.0 < row || (p.0 == row && p.1 < col)) && board.nodes.cells.contains(p)
                            && #[trigger] label(p) == x,
            decreases cols - col,
        {
            let ghost before = matrix@.cells;
            let ghost here = (row as int, col as int);
            proof {
                lemma_place(board, row as int, col as int);
                lemma_turned(board);
                lemma_place(board.turned(), col as int, row as int);
                lemma_labels(board, here, here);
                assert(horizontal@[row * cols + col] == board.row_label(row as int, col as int));
                assert(vertical@[col * rows + row] == board.turned().row_label(
                    col as int,
                    row as int,
                ));
                assert(label(here) == board.labels(here));
            }
            if maze.is_alive(Cell::new(row, col)) {
                matrix.set(horizontal[row * cols + col], vertical[col * rows + row], true);
            }
            proof {
                assert forall|x: (int, int)| #[trigger] matrix@.cells.contains(x) <==> exists|
                    p: (int, int),
                |
                    (p.0 < row || (p.0 == row && p.1 < col + 1)) && board.nodes.cells.contains(p)
                        && #[trigger] label(p) == x by {
                    assert(before.contains(x) <==> exists|p: (int, int)|
                        (p.0 < row || (p.0 == row && p.1 < col)) && board.nodes.cells.contains(p)
                            && #[trigger] label(p) == x);
                    if before.contains(x) {
                        let p = choose|p: (int, int)|
                            (p.0 < row || (p.0 == row && p.1 < col)) && board.nodes.cells.contains(
                                p,
                            ) && #[trigger] label(p) == x;
                        assert((p.0 < row || (p.0 == row && p.1 < col + 1)) && label(p) == x);
                    }
                    if exists|p: (int, int)|
                        (p.0 < row || (p.0 == row && p.1 < col + 1)) && board.nodes.cells.contains(p)
                            && #[trigger] label(p) == x {
                        let p = choose|p: (int, int)|
                            (p.0 < row || (p.0 == row && p.1 < col + 1))
                                && board.nodes.cells.contains(p) && #[trigger] label(p) == x;
                        if p != here {
                            assert((p.0 < row || (p.0 == row && p.1 < col)) && label(p) == x);
                        }
                    }
                }
            }
            col = col + 1;
        }
        proof {
            assert forall|x: (int, int)| #[trigger] matrix@.cells.contains(x) <==> exists|
                p: (int, int),
            | p.0 < row + 1 && board.nodes.cells.contains(p) && #[trigger] label(p) == x by {
                if exists|p: (int, int)|
                    p.0 < row + 1 && board.nodes.cells.contains(p) && #[trigger] label(p) == x {
                    let p = choose|p: (int, int)|
                        p.0 < row + 1 && board.nodes.cells.contains(p) && #[trigger] label(p) == x;
                    assert((p.0 < row || (p.0 == row && p.1 < col)) && label(p) == x);
                }
            }
        }
        row = row + 1;
    }
    proof {
        assert(matrix@.cells =~= board.nodes.cells.map(label)) by {
            assert forall|x: (int, int)| board.nodes.cells.map(label).contains(x) implies matrix@.cells.contains(
                x,
            ) by {
                let p = choose|p: (int, int)| board.nodes.cells.contains(p) && label(p) == x;
                assert(p.0 < row && label(p) == x);
            }
        }
        assert(matrix@ =~= board.compiled());
    }
    matrix
}

/// Taking nodes of the maze takes the corresponding nodes of the matrix.
proof fn lemma_compiled_without(board: Board, taken: Set<(int, int)>)
    requires
        board.wf(),
    ensures
        board.without(taken).compiled().cells == board.compiled().cells.difference(
            taken.intersect(board.nodes.cells).map(|p: (int, int)| board.labels(p)),
        ),
{
    let after = board.without(taken);
    let label = |p: (int, int)| board.labels(p);
    let gone = taken.intersect(board.nodes.cells).map(label);
    assert forall|p: (int, int)| board.contains(p) implies after.labels(p) == #[trigger] board.labels(
        p,
    ) by {
        lemma_same_walls(board, after, (p.0 * board.cols() + p.1) as nat);
        lemma_turned_same_walls(board, after, (p.1 * board.rows() + p.0) as nat);
    }
    assert(after.compiled().cells =~= board.compiled().cells.difference(gone)) by {
        assert forall|x: (int, int)| after.compiled().cells.contains(x) implies board.compiled().cells.difference(gone).contains(
            x,
        ) by {
            let p = choose|p: (int, int)| after.nodes.cells.contains(p) && after.labels(p) == x;
            assert(board.nodes.cells.contains(p) && label(p) == x);
            if gone.contains(x) {
                let q = choose|q: (int, int)|
                    taken.intersect(board.nodes.cells).contains(q) && label(q) == x;
                lemma_labels(board, p, q);
            }
        }
        assert forall|x: (int, int)| board.compiled().cells.difference(gone).contains(x) implies after.compiled().cells.contains(
            x,
        ) by {
            let p = choose|p: (int, int)| board.nodes.cells.contains(p) && label(p) == x;
            if taken.contains(p) {
                assert(taken.intersect(board.nodes.cells).contains(p));
                assert(gone.contains(label(p)));
            }
            assert(after.nodes.cells.contains(p));
            assert(after.labels(p) == x);
        }
    }
}

proof fn lemma_same_walls(a: Board, b: Board, k: nat)
    requires
        a.cols() == b.cols(),
        a.vertical == b.vertical,
    ensures
        a.ended_before(k) == b.ended_before(k),
    decreases k,
{
    if k > 0 {
        lemma_same_walls(a, b, (k - 1) as nat);
    }
}

proof fn lemma_turned_same_walls(a: Board, b: Board, k: nat)
    requires
        a.rows() == b.rows(),
        a.horizontal == b.horizontal,
    ensures
        a.turned().ended_before(k) == b.turned().ended_before(k),
{
    lemma_same_walls(a.turned(), b.turned(), k);
}

/// Taking nodes leaves the size of the compiled matrix.
pub proof fn lemma_compiled_size(board: Board, taken: Set<(int, int)>)
    requires
        board.wf(),
    ensures
        board.without(taken).compiled().rows == board.compiled().rows,
        board.without(taken).compiled().cols == board.compiled().cols,
{
    let after = board.without(taken);
    lemma_same_walls(board, after, board.rows() * board.cols());
    lemma_turned_same_walls(board, after, board.turned().rows() * board.turned().cols());
}

/// Every move of the maze is a move of the compiled matrix.
pub proof fn lemma_move_is_option(board: Board, axis: Axis, anchor: Cell, selected: Seq<Cell>)
    requires
        board.wf(),
        board.move_fault(axis, anchor, selected) is None,
    ensures
        is_option(
            board.compiled().cells,
            board.without(places(selected)).compiled().cells,
        ),
{
    let label = |p: (int, int)| board.labels(p);
    let taken = places(selected);
    let from = board.compiled().cells;
    let to = board.without(taken).compiled().cells;
    let gone = taken.intersect(board.nodes.cells).map(label);
    lemma_compiled(board);
    lemma_compiled_without(board, taken);
    assert forall|i: int| 0 <= i < selected.len() implies board.cell_fault(
        axis,
        anchor,
        selected,
        i,
    ) is None by {
        lemma_no_fault(board, axis, anchor, selected, 0, i);
    }
    assert(board.cell_fault(axis, anchor, selected, 0) is None);
    let first = label(selected[0].at());
    assert(taken.contains(selected[0].at()));
    assert(taken.intersect(board.nodes.cells).contains(selected[0].at()));
    assert(gone.contains(first));
    assert(from.contains(first)) by {
        assert(board.nodes.cells.contains(selected[0].at()));
    }
    assert(to.subset_of(from.remove(first)));
    vstd::set_lib::lemma_len_subset(to, from.remove(first));
    let d = from.difference(to);
    assert forall|x: (int, int), y: (int, int)|
        d.contains(x) && d.contains(y) implies match axis {
        Axis::Horizontal => x.0 == y.0,
        Axis::Vertical => x.1 == y.1,
    } by {
        let p = choose|p: (int, int)|
            taken.intersect(board.nodes.cells).contains(p) && label(p) == x;
        let q = choose|q: (int, int)|
            taken.intersect(board.nodes.cells).contains(q) && label(q) == y;
        let i = choose|i: int| 0 <= i < selected.len() && (#[trigger] selected[i]).at() == p;
        let j = choose|j: int| 0 <= j < selected.len() && (#[trigger] selected[j]).at() == q;
        assert(board.cell_fault(axis, anchor, selected, i) is None);
        assert(board.cell_fault(axis, anchor, selected, j) is None);
        lemma_labels(board, anchor.at(), p);
        lemma_labels(board, anchor.at(), q);
    }
    assert(aligned(d)) by {
        match axis {
            Axis::Horizontal => {
                assert(in_one_row(d));
            },
            Axis::Vertical => {
                assert(in_one_col(d));
            },
        }
    }
}

/// Where the first fault from a place on is none, no later cell is at fault.
pub proof fn lemma_no_fault(
    board: Board,
    axis: Axis,
    anchor: Cell,
    selected: Seq<Cell>,
    from: int,
    i: int,
)
    requires
        board.first_fault(axis, anchor, selected, from) is None,
        0 <= from <= i < selected.len(),
    ensures
        board.cell_fault(axis, anchor, selected, i) is None,
    decreases i - from,
{
    if from < i {
        lemma_no_fault(board, axis, anchor, selected, from + 1, i);
    }
}

/// Where no cell is at fault, there is no first fault.
pub proof fn lemma_all_fine(board: Board, axis: Axis, anchor: Cell, selected: Seq<Cell>, from: int)
    requires
        0 <= from <= selected.len(),
        forall|i: int|
            0 <= i < selected.len() ==> #[trigger] board.cell_fault(axis, anchor, selected, i)
                is None,
    ensures
        board.first_fault(axis, anchor, selected, from) is None,
    decreases selected.len() - from,
{
    if from < selected.len() {
        assert(board.cell_fault(axis, anchor, selected, from) is None);
        lemma_all_fine(board, axis, anchor, selected, from + 1);
    }
}

/// Whether `selected` is a move along `axis` from `anchor` that leads to the matrix position `t`.
pub open spec fn move_reaches(
    board: Board,
    axis: Axis,
    anchor: Cell,
    selected: Seq<Cell>,
    t: Position,
) -> bool {
    &&& board.move_fault(axis, anchor, selected) is None
    &&& board.without(places(selected)).compiled().cells == t
}

/// The cells of the finite set `s`, in some order.
proof fn lemma_cells_of(s: Set<(int, int)>) -> (cells: Seq<Cell>)
    requires
        s.finite(),
        forall|p: (int, int)| #[trigger]
            s.contains(p) ==> 0 <= p.0 <= usize::MAX && 0 <= p.1 <= usize::MAX,
    ensures
        cells.len() == s.len(),
        cells.no_duplicates(),
        forall|i: int| 0 <= i < cells.len() ==> s.contains((#[trigger] cells[i]).at()),
        places(cells) == s,
    decreases s.len(),
{
    if s.len() == 0 {
        let cells = Seq::<Cell>::empty();
        assert(places(cells) =~= s);
        cells
    } else {
        let p = s.choose();
        let less = lemma_cells_of(s.remove(p));
        let cell = Cell { row: p.0 as usize, col: p.1 as usize };
        let cells = less.push(cell);
        assert(cell.at() == p);
        assert forall|i: int| 0 <= i < less.len() implies less[i] != cell by {
            assert(s.remove(p).contains(less[i].at()));
        }
        assert(places(cells) =~= s) by {
            assert forall|q: (int, int)| s.contains(q) implies places(cells).contains(q) by {
                if q != p {
                    assert(places(less).contains(q));
                    let i = choose|i: int| 0 <= i < less.len() && (#[trigger] less[i]).at() == q;
                    assert(cells[i].at() == q);
                } else {
                    assert(cells[less.len() as int].at() == q);
                }
            }
        }
        cells
    }
}

/// Every move of the compiled matrix is a move of the maze.
pub proof fn lemma_option_is_move(board: Board, t: Position)
    requires
        board.wf(),
        is_option(board.compiled().cells, t),
    ensures
        exists|axis: Axis, anchor: Cell, selected: Seq<Cell>|
            move_reaches(board, axis, anchor, selected, t),
{
    let label = |p: (int, int)| board.labels(p);
    let from = board.compiled().cells;
    let d = from.difference(t);
    lemma_compiled(board);
    let taken = board.nodes.cells.filter(|p: (int, int)| d.contains(label(p)));
    vstd::set_lib::lemma_len_subset(taken, board.nodes.cells);
    assert(taken.map(label) =~= d) by {
        assert forall|x: (int, int)| d.contains(x) implies taken.map(label).contains(x) by {
            let p = choose|p: (int, int)| board.nodes.cells.contains(p) && label(p) == x;
            assert(taken.contains(p));
        }
    }
    assert(taken.len() > 0) by {
        if taken.len() == 0 {
            assert forall|x: (int, int)| from.contains(x) implies t.contains(x) by {
                if d.contains(x) {
                    let p = choose|p: (int, int)| taken.contains(p) && label(p) == x;
                }
            }
            assert(t =~= from);
        }
    }
    let cells = lemma_cells_of(taken);
    let anchor = cells[0];
    let axis = if in_one_row(d) {
        Axis::Horizontal
    } else {
        Axis::Vertical
    };
    assert(taken.contains(anchor.at()));
    assert(board.nodes.cells.contains(anchor.at()));
    assert forall|i: int| 0 <= i < cells.len() implies #[trigger] board.cell_fault(
        axis,
        anchor,
        cells,
        i,
    ) is None by {
        let p = cells[i].at();
        assert(taken.contains(p));
        assert(board.nodes.cells.contains(p));
        lemma_labels(board, anchor.at(), p);
        assert(d.contains(label(p)) && d.contains(label(anchor.at())));
        assert(!cells.take(i).contains(cells[i])) by {
            if cells.take(i).contains(cells[i]) {
                let j = choose|j: int| 0 <= j < i && cells.take(i)[j] == cells[i];
                assert(cells[j] == cells[i]);
            }
        }
    }
    lemma_all_fine(board, axis, anchor, cells, 0);
    lemma_compiled_without(board, taken);
    assert(taken.intersect(board.nodes.cells) =~= taken);
    assert(from.difference(d) =~= t);
    assert(move_reaches(board, axis, anchor, cells, t));
}

/// Whether the board is small enough that a machine word can count the cells of its matrix, however
/// the walls run.
pub fn compiled_fits(maze: &Maze) -> (fits: bool)
    requires
        maze.wf(),
    ensures
        fits == countable(maze@.rows() * maze@.cols(), maze@.rows() * maze@.cols()),
        fits ==> countable(maze@.compiled().rows, maze@.compiled().cols),
{
    let count: usize = maze.rows() * maze.cols();
    proof {
        let n = maze@.rows() * maze@.cols();
        lemma_compiled(maze@);
        let rows = maze@.compiled().rows;
        let cols = maze@.compiled().cols;
        assert(rows * cols <= n * n) by (nonlinear_arith)
            requires
                rows <= n,
                cols <= n,
        ;
    }
    count.checked_mul(count).is_some() && count.checked_add(count).is_some()
}

} // verus!
