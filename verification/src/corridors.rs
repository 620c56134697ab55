//! The corridors of a maze and the nodes that are left on them.
use crate::board::{lemma_listed_corridor, Axis, Board, Cell, Maze};
use crate::sorting::{lemma_listed, lemma_lists_is_listed, listed, lists};
use vstd::prelude::*;

verus! {

/// The number of places on a line of direction `axis`.
pub open spec fn line_length(board: Board, axis: Axis) -> nat {
    match axis {
        Axis::Horizontal => board.cols(),
        Axis::Vertical => board.rows(),
    }
}

/// Place `k` on the line of direction `axis` through `at`.
pub open spec fn place_on(axis: Axis, at: (int, int), k: int) -> (int, int) {
    match axis {
        Axis::Horizontal => (at.0, k),
        Axis::Vertical => (k, at.1),
    }
}

/// The cell at a place.
pub open spec fn cell_at(p: (int, int)) -> Cell {
    Cell { row: p.0 as usize, col: p.1 as usize }
}

/// Which places on the line through `at` hold nodes of the corridor through `at`.
pub open spec fn node_on(board: Board, axis: Axis, at: (int, int)) -> spec_fn(int) -> bool {
    |k: int|
        {
            &&& board.same_corridor(axis, at, place_on(axis, at, k))
            &&& board.nodes.cells.contains(place_on(axis, at, k))
        }
}

/// The nodes that are left on the corridor of direction `axis` through `at`, first to last.
pub open spec fn alive_on(board: Board, axis: Axis, at: (int, int)) -> Seq<Cell> {
    listed(line_length(board, axis), node_on(board, axis, at)).map_values(
        |k: usize| cell_at(place_on(axis, at, k as int)),
    )
}

/// The nodes on a corridor are listed once each.
pub proof fn lemma_alive_on(board: Board, axis: Axis, at: (int, int))
    requires
        board.wf(),
        board.contains(at),
    ensures
        alive_on(board, axis, at).no_duplicates(),
        forall|cell: Cell| #[trigger]
            alive_on(board, axis, at).contains(cell) <==> board.nodes.cells.contains(cell.at())
                && board.same_corridor(axis, at, cell.at()),
{
    let n = line_length(board, axis);
    let keep = node_on(board, axis, at);
    let list = listed(n, keep);
    let cells = alive_on(board, axis, at);
    lemma_listed(n, keep);
    assert forall|i: int| 0 <= i < list.len() implies (#[trigger] cells[i]).at() == place_on(
        axis,
        at,
        list[i] as int,
    ) by {
        assert(list[i] < n);
    }
    assert forall|i: int, j: int| 0 <= i < cells.len() && 0 <= j < cells.len() && i != j implies cells[i]
        != cells[j] by {
        assert(cells[i].at() == place_on(axis, at, list[i] as int));
        assert(cells[j].at() == place_on(axis, at, list[j] as int));
        if i < j {
            assert(list[i] < list[j]);
        } else {
            assert(list[j] < list[i]);
        }
    }
    assert forall|cell: Cell| #[trigger] cells.contains(cell) <==> board.nodes.cells.contains(
        cell.at(),
    ) && board.same_corridor(axis, at, cell.at()) by {
        if cells.contains(cell) {
            let i = choose|i: int| 0 <= i < cells.len() && cells[i] == cell;
            assert(cells[i].at() == place_on(axis, at, list[i] as int));
            assert(keep(list[i] as int));
        }
        if board.nodes.cells.contains(cell.at()) && board.same_corridor(axis, at, cell.at()) {
            let k = match axis {
                Axis::Horizontal => cell.col as int,
                Axis::Vertical => cell.row as int,
            };
            assert(place_on(axis, at, k) == cell.at());
            assert(0 <= k < n && keep(k));
            assert(list.contains(k as usize));
            let i = choose|i: int| 0 <= i < list.len() && list[i] == k as usize;
            assert(cells[i].at() == cell.at());
            assert(cells[i] == cell);
        }
    }
}

/// The nodes that are left on the corridor of direction `axis` through `cell`.
pub fn alive_along(maze: &Maze, cell: Cell, axis: Axis) -> (alive: Vec<Cell>)
    requires
        maze.wf(),
        maze@.contains(cell.at()),
    ensures
        alive@ == alive_on(maze@, axis, cell.at()),
{
    let ghost board = maze@;
    let ghost at = cell.at();
    let ghost n = line_length(board, axis);
    let ghost keep = node_on(board, axis, at);
    let corridor: Vec<Cell> = maze.corridor(cell, axis);
    let ghost first = match axis {
        Axis::Horizontal => corridor@[0].col as int,
        Axis::Vertical => corridor@[0].row as int,
    };
    let mut alive: Vec<Cell> = Vec::new();
    let ghost mut list: Seq<usize> = Seq::empty();
    let mut k: usize = 0;
    while k < corridor.len()
        invariant
            maze.wf(),
            board == maze@,
            board.contains(at),
            n == line_length(board, axis),
            keep == node_on(board, axis, at),
            board.lists_corridor(axis, at, corridor@),
            first == match axis {
                Axis::Horizontal => corridor@[0].col as int,
                Axis::Vertical => corridor@[0].row as int,
            },
            k <= corridor@.len(),
            first + corridor@.len() <= n,
            alive@.len() == list.len(),
            forall|i: int|
                0 <= i < list.len() ==> (#[trigger] list[i]) < first + k && keep(list[i] as int)
                    && alive@[i] == cell_at(place_on(axis, at, list[i] as int)),
            forall|i: int, j: int|
                0 <= i < j < list.len() ==> #[trigger] list[i] < #[trigger] list[j],
            forall|x: int|
                first <= x < first + k && keep(x) ==> #[trigger] list.contains(x as usize),
        decreases corridor@.len() - k,
    {
        let place: Cell = corridor[k];
        let ghost x = first + k;
        proof {
            assert(corridor@[k as int].at() == place_on(axis, at, x));
            assert(place == cell_at(place_on(axis, at, x)));
            assert(corridor@.contains(place));
            lemma_listed_corridor(board, axis, at, corridor@, place);
        }
        if maze.is_alive(place) {
            let ghost before = list;
            alive.push(place);
            proof {
                list = list.push(x as usize);
                assert(keep(x));
                assert forall|y: int| first <= y < x + 1 && keep(y) implies #[trigger] list.contains(
                    y as usize,
                ) by {
                    if y < x {
                        assert(before.contains(y as usize));
                        let i = choose|i: int| 0 <= i < before.len() && before[i] == y as usize;
                        assert(list[i] == y as usize);
                    } else {
                        assert(list[list.len() - 1] == y as usize);
                    }
                }
            }
        }
        k = k + 1;
    }
    proof {
        assert(lists(list, n, keep)) by {
            assert forall|y: int| 0 <= y < n && keep(y) implies #[trigger] list.contains(
                y as usize,
            ) by {
                let place = cell_at(place_on(axis, at, y));
                assert(place.at() == place_on(axis, at, y));
                lemma_listed_corridor(board, axis, at, corridor@, place);
                let i = choose|i: int| 0 <= i < corridor@.len() && corridor@[i] == place;
                assert(corridor@[i].at() == place_on(axis, at, first + i));
            }
        }
        lemma_lists_is_listed(list, n, keep);
        assert(alive@ =~= alive_on(board, axis, at));
    }
    alive
}

/// The nodes that are left on one corridor.
#[derive(Debug)]
pub struct Corridor {
    pub axis: Axis,
    pub anchor: Cell,
    pub alive: Vec<Cell>,
}

/// Whether the corridor of direction `axis` through `at` starts there.
pub open spec fn is_start(board: Board, axis: Axis, at: (int, int)) -> bool {
    match axis {
        Axis::Horizontal => at.1 > 0 ==> !board.joined_right(at.0, at.1 - 1),
        Axis::Vertical => at.0 > 0 ==> !board.joined_down(at.0 - 1, at.1),
    }
}

/// Whether `corridor` is a corridor of the board with nodes left on it, and holds them.
pub open spec fn is_corridor(board: Board, corridor: Corridor) -> bool {
    &&& board.contains(corridor.anchor.at())
    &&& is_start(board, corridor.axis, corridor.anchor.at())
    &&& corridor.alive@ == alive_on(board, corridor.axis, corridor.anchor.at())
    &&& corridor.alive@.len() > 0
}

/// Whether one of the corridors has the direction and start.
pub open spec fn has_start(corridors: Seq<Corridor>, axis: Axis, at: (int, int)) -> bool {
    exists|i: int|
        0 <= i < corridors.len() && (#[trigger] corridors[i]).axis == axis
            && corridors[i].anchor.at() == at
}

/// Whether the corridors are those of the board that have nodes left on them, once each.
pub open spec fn are_corridors(board: Board, corridors: Seq<Corridor>) -> bool {
    &&& forall|i: int| 0 <= i < corridors.len() ==> is_corridor(board, #[trigger] corridors[i])
    &&& forall|i: int, j: int|
        0 <= i < j < corridors.len() ==> (#[trigger] corridors[i]).axis != (
        #[trigger] corridors[j]).axis || corridors[i].anchor != corridors[j].anchor
    &&& forall|axis: Axis, at: (int, int)|
        #![trigger has_start(corridors, axis, at)]
        board.contains(at) && is_start(board, axis, at) && alive_on(board, axis, at).len() > 0
            ==> has_start(corridors, axis, at)
}

/// Every place lies on a corridor that starts somewhere.
pub proof fn lemma_start_exists(board: Board, axis: Axis, at: (int, int)) -> (start: (int, int))
    requires
        board.wf(),
        board.contains(at),
    ensures
        board.contains(start),
        is_start(board, axis, start),
        board.same_corridor(axis, start, at),
        board.same_corridor(axis, at, start),
    decreases at.0 + at.1,
{
    if is_start(board, axis, at) {
        at
    } else {
        let before = match axis {
            Axis::Horizontal => (at.0, at.1 - 1),
            Axis::Vertical => (at.0 - 1, at.1),
        };
        lemma_start_exists(board, axis, before)
    }
}

/// Corridors that share a place are the same.
pub proof fn lemma_same_corridor(
    board: Board,
    axis: Axis,
    a: (int, int),
    b: (int, int),
    c: (int, int),
)
    requires
        board.same_corridor(axis, a, b),
        board.same_corridor(axis, a, c),
    ensures
        board.same_corridor(axis, b, a),
        board.same_corridor(axis, b, c),
{
}

fn collect_corridors(maze: &Maze, axis: Axis, found: &mut Vec<Corridor>)
    requires
        maze.wf(),
        forall|i: int|
            0 <= i < old(found)@.len() ==> is_corridor(maze@, #[trigger] old(found)@[i]) && old(
                found,
            )@[i].axis != axis,
        forall|i: int, j: int|
            0 <= i < j < old(found)@.len() ==> (#[trigger] old(found)@[i]).axis != (
            #[trigger] old(found)@[j]).axis || old(found)@[i].anchor != old(found)@[j].anchor,
    ensures
        old(found)@.len() <= final(found)@.len(),
        forall|i: int|
            0 <= i < old(found)@.len() ==> #[trigger] final(found)@[i] == old(found)@[i],
        forall|i: int|
            old(found)@.len() <= i < final(found)@.len() ==> (#[trigger] final(found)@[i]).axis
                == axis,
        forall|i: int|
            0 <= i < final(found)@.len() ==> is_corridor(maze@, #[trigger] final(found)@[i]),
        forall|i: int, j: int|
            0 <= i < j < final(found)@.len() ==> (#[trigger] final(found)@[i]).axis != (
            #[trigger] final(found)@[j]).axis || final(found)@[i].anchor != final(found)@[j].anchor,
        forall|at: (int, int)|
            #![trigger has_start(final(found)@, axis, at)]
            maze@.contains(at) && is_start(maze@, axis, at) && alive_on(maze@, axis, at).len() > 0
                ==> has_start(final(found)@, axis, at),
{
    let ghost board = maze@;
    let rows: usize = maze.rows();
    let cols: usize = maze.cols();
    let count: usize = rows * cols;
    let mut k: usize = 0;
    while k < count
        invariant
            maze.wf(),
            board == maze@,
            rows == board.rows(),
            cols == board.cols(),
            count == rows * cols,
            k <= count,
            old(found)@.len() <= found@.len(),
            forall|i: int|
                0 <= i < old(found)@.len() ==> #[trigger] found@[i] == old(found)@[i],
            forall|i: int|
                0 <= i < old(found)@.len() ==> is_corridor(board, #[trigger] old(found)@[i]) && old(
                    found,
                )@[i].axis != axis,
            forall|i: int|
                old(found)@.len() <= i < found@.len() ==> (#[trigger] found@[i]).axis == axis
                    && found@[i].anchor.row * cols + found@[i].anchor.col < k,
            forall|i: int| 0 <= i < found@.len() ==> is_corridor(board, #[trigger] found@[i]),
            forall|i: int, j: int|
                0 <= i < j < found@.len() ==> (#[trigger] found@[i]).axis != (
                #[trigger] found@[j]).axis || found@[i].anchor != found@[j].anchor,
            forall|at: (int, int)|
                #![trigger has_start(found@, axis, at)]
                board.contains(at) && is_start(board, axis, at) && alive_on(board, axis, at).len() > 0
                    && at.0 * cols + at.1 < k ==> has_start(found@, axis, at),
        decreases count - k,
    {
        proof {
            vstd::arithmetic::div_mod::lemma_fundamental_div_mod(k as int, cols as int);
            assert(k / cols < rows) by (nonlinear_arith)
                requires
                    k < rows * cols,
                    k == cols * (k / cols) + k % cols,
                    0 < cols,
            ;
            assert((k / cols) * cols == cols * (k / cols)) by (nonlinear_arith);
        }
        let cell: Cell = Cell::new(k / cols, k % cols);
        let ghost at = cell.at();
        let corridor: Vec<Cell> = maze.corridor(cell, axis);
        let ghost before = found@;
        proof {
            assert(corridor@[0] == cell <==> is_start(board, axis, at)) by {
                lemma_first_is_start(board, axis, at, corridor@);
            }
        }
        if corridor[0] == cell {
            let alive: Vec<Cell> = alive_along(maze, cell, axis);
            if alive.len() > 0 {
                found.push(Corridor { axis, anchor: cell, alive });
            }
        }
        proof {
            assert forall|p: (int, int)|
                #![trigger has_start(found@, axis, p)]
                board.contains(p) && is_start(board, axis, p) && alive_on(board, axis, p).len() > 0
                    && p.0 * cols + p.1 < k + 1 implies has_start(found@, axis, p) by {
                if p.0 * cols + p.1 < k {
                    assert(has_start(before, axis, p));
                    let i = choose|i: int|
                        0 <= i < before.len() && (#[trigger] before[i]).axis == axis
                            && before[i].anchor.at() == p;
                    assert(found@[i] == before[i]);
                } else {
                    assert(p == at) by {
                        lemma_same_index(p.0, p.1, at.0, at.1, cols as int);
                    }
                    assert(found@[found@.len() - 1].anchor.at() == p);
                }
            }
        }
        k = k + 1;
    }
    proof {
        assert forall|at: (int, int)|
            #![trigger has_start(found@, axis, at)]
            board.contains(at) && is_start(board, axis, at) && alive_on(board, axis, at).len()
                > 0 implies has_start(found@, axis, at) by {
            assert(at.0 * cols + at.1 < count) by (nonlinear_arith)
                requires
                    0 <= at.0 < rows,
                    0 <= at.1 < cols,
                    count == rows * cols,
            ;
        }
    }
}

proof fn lemma_first_is_start(board: Board, axis: Axis, at: (int, int), corridor: Seq<Cell>)
    requires
        board.wf(),
        board.contains(at),
        board.lists_corridor(axis, at, corridor),
    ensures
        corridor[0].at() == at <==> is_start(board, axis, at),
{
    match axis {
        Axis::Horizontal => {
            let first = corridor[0].col as int;
            assert(corridor[0].at() == (at.0, first + 0));
            if first < at.1 {
                assert(board.joined_right(at.0, at.1 - 1));
            }
        },
        Axis::Vertical => {
            let first = corridor[0].row as int;
            assert(corridor[0].at() == (first + 0, at.1));
            if first < at.0 {
                assert(board.joined_down(at.0 - 1, at.1));
            }
        },
    }
}

proof fn lemma_same_index(a: int, b: int, c: int, d: int, cols: int)
    requires
        0 <= b < cols,
        0 <= d < cols,
        a * cols + b == c * cols + d,
    ensures
        a == c,
        b == d,
{
    assert(a == c) by (nonlinear_arith)
        requires
            0 <= b < cols,
            0 <= d < cols,
            a * cols + b == c * cols + d,
    ;
}

/// The corridors that have nodes left on them, the horizontal ones first.
pub fn alive_corridors(maze: &Maze) -> (corridors: Vec<Corridor>)
    requires
        maze.wf(),
    ensures
        are_corridors(maze@, corridors@),
        forall|i: int, j: int|
            0 <= i < j < corridors@.len() && (#[trigger] corridors@[i]).axis == Axis::Vertical
                ==> (#[trigger] corridors@[j]).axis == Axis::Vertical,
{
    let mut found: Vec<Corridor> = Vec::new();
    collect_corridors(maze, Axis::Horizontal, &mut found);
    let ghost half = found@;
    collect_corridors(maze, Axis::Vertical, &mut found);
    proof {
        assert forall|i: int, j: int|
            0 <= i < j < found@.len() && (#[trigger] found@[i]).axis == Axis::Vertical implies (
        #[trigger] found@[j]).axis == Axis::Vertical by {
            if i < half.len() {
                assert(found@[i] == half[i]);
            }
        }
        assert forall|axis: Axis, at: (int, int)|
            #![trigger has_start(found@, axis, at)]
            maze@.contains(at) && is_start(maze@, axis, at) && alive_on(maze@, axis, at).len()
                > 0 implies has_start(found@, axis, at) by {
            if axis == Axis::Horizontal {
                assert(has_start(half, axis, at));
                let i = choose|i: int|
                    0 <= i < half.len() && (#[trigger] half[i]).axis == axis
                        && half[i].anchor.at() == at;
                assert(found@[i] == half[i]);
            }
        }
    }
    found
}

/// All nodes that are left, row by row.
pub open spec fn alive_cells(board: Board) -> Seq<Cell> {
    listed(board.rows() * board.cols(), node_at(board)).map_values(
        |k: usize| cell_at((k as int / board.cols() as int, k as int % board.cols() as int)),
    )
}

/// Which numbers, counted row by row, are those of nodes.
pub open spec fn node_at(board: Board) -> spec_fn(int) -> bool {
    |k: int| board.nodes.cells.contains((k / board.cols() as int, k % board.cols() as int))
}

/// All nodes that are left, row by row.
pub fn list_alive(maze: &Maze) -> (alive: Vec<Cell>)
    requires
        maze.wf(),
    ensures
        alive@ == alive_cells(maze@),
        forall|i: int|
            0 <= i < alive@.len() ==> maze@.nodes.cells.contains((#[trigger] alive@[i]).at()),
        maze@.nodes.cells.len() > 0 ==> alive@.len() > 0,
{
    let ghost board = maze@;
    let cols: usize = maze.cols();
    let count: usize = maze.rows() * cols;
    let ghost keep = node_at(board);
    let mut alive: Vec<Cell> = Vec::new();
    let mut k: usize = 0;
    while k < count
        invariant
            maze.wf(),
            board == maze@,
            cols == board.cols(),
            count == board.rows() * board.cols(),
            keep == node_at(board),
            k <= count,
            alive@ == listed(k as nat, keep).map_values(
                |k: usize| cell_at((k as int / board.cols() as int, k as int % board.cols() as int)),
            ),
            forall|i: int|
                0 <= i < alive@.len() ==> board.nodes.cells.contains((#[trigger] alive@[i]).at()),
        decreases count - k,
    {
        proof {
            vstd::arithmetic::div_mod::lemma_fundamental_div_mod(k as int, cols as int);
            assert(k / cols < board.rows()) by (nonlinear_arith)
                requires
                    k < board.rows() * cols,
                    k == cols * (k / cols) + k % cols,
                    0 < cols,
            ;
        }
        let cell: Cell = Cell::new(k / cols, k % cols);
        if maze.is_alive(cell) {
            alive.push(cell);
        }
        proof {
            assert(alive@ =~= listed((k + 1) as nat, keep).map_values(
                |k: usize| cell_at((k as int / board.cols() as int, k as int % board.cols() as int)),
            ));
        }
        k = k + 1;
    }
    proof {
        if board.nodes.cells.len() > 0 {
            let p = board.nodes.cells.choose();
            let x = p.0 * cols + p.1;
            assert(board.nodes.cells.contains(p));
            crate::bits::lemma_flat_index(p.0, p.1, board.rows() as int, cols as int);
            assert(keep(x));
            lemma_listed(count as nat, keep);
            assert(listed(count as nat, keep).contains(x as usize));
        }
    }
    alive
}

} // verus!
