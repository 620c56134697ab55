//! The independent parts of a matrix.
use crate::grid::{countable, lemma_from_fn_wf, Grid};
use crate::matrix::{lists_row, BitMatrix};
use crate::nim::{grundy, lemma_grundy_empty, lemma_grundy_sum, lemma_isomorphic, nim_total, separate};
use crate::nim::{isomorphic, Position};
use crate::ordering::{lemma_selected_isomorphic, selected};
use crate::sorting::{ascending, lemma_lists_is_listed, lemma_listed, listed, lists, number_leq};
use crate::sorting::sort_numbers;
use std::collections::VecDeque;
use vstd::prelude::*;

verus! {

broadcast use lemma_from_fn_wf;

/// Whether row `r` holds a set cell.
pub open spec fn row_used(grid: Grid, r: int) -> bool {
    exists|c: int| grid.has(r, c)
}

/// Whether column `c` holds a set cell.
pub open spec fn col_used(grid: Grid, c: int) -> bool {
    exists|r: int| grid.has(r, c)
}

/// The rows that hold a set cell.
pub open spec fn used_rows(grid: Grid) -> Seq<usize> {
    listed(grid.rows, |r: int| row_used(grid, r))
}

/// The columns that hold a set cell.
pub open spec fn used_cols(grid: Grid) -> Seq<usize> {
    listed(grid.cols, |c: int| col_used(grid, c))
}

/// The matrix without empty rows and columns.
pub open spec fn squeezed(grid: Grid) -> Grid {
    grid.reordered(used_rows(grid), used_cols(grid))
}

/// Whether no set cell joins `rows` and `cols` to the other rows and columns.
pub open spec fn closed_part(grid: Grid, rows: Set<int>, cols: Set<int>) -> bool {
    forall|r: int, c: int| #[trigger] grid.has(r, c) ==> (rows.contains(r) <==> cols.contains(c))
}

/// The rows that set cells join to row `start`, over any number of steps.
pub open spec fn part_rows(grid: Grid, start: int) -> Set<int> {
    Set::new(
        |x: int|
            0 <= x < grid.rows && forall|rows: Set<int>, cols: Set<int>| #[trigger]
                closed_part(grid, rows, cols) && rows.contains(start) ==> rows.contains(x),
    )
}

/// The columns that set cells join to row `start`, over any number of steps.
pub open spec fn part_cols(grid: Grid, start: int) -> Set<int> {
    Set::new(
        |x: int|
            0 <= x < grid.cols && forall|rows: Set<int>, cols: Set<int>| #[trigger]
                closed_part(grid, rows, cols) && rows.contains(start) ==> cols.contains(x),
    )
}

/// Whether `start` is the first row of its part.
pub open spec fn leads(grid: Grid, start: int) -> bool {
    forall|r: int| 0 <= r < start ==> !(#[trigger] part_rows(grid, start).contains(r))
}

/// The part of row `start`, with its rows and columns in their order.
pub open spec fn part(grid: Grid, start: int) -> Grid {
    grid.reordered(
        listed(grid.rows, |r: int| part_rows(grid, start).contains(r)),
        listed(grid.cols, |c: int| part_cols(grid, start).contains(c)),
    )
}

/// The parts whose first row is below `end`, in the order of their first rows.
pub open spec fn parts_up_to(grid: Grid, end: nat) -> Seq<Grid> {
    listed(end, |r: int| leads(grid, r)).map_values(|r: usize| part(grid, r as int))
}

/// The independent parts, in the order of their first rows.
pub open spec fn parts(grid: Grid) -> Seq<Grid> {
    parts_up_to(grid, grid.rows)
}

/// The nimbers of the parts.
pub open spec fn values(parts: Seq<Grid>) -> Seq<nat> {
    parts.map_values(|part: Grid| grundy(part.cells))
}

/// The number of nodes of all parts together.
pub open spec fn node_count(parts: Seq<Grid>) -> nat
    decreases parts.len(),
{
    if parts.len() == 0 {
        0
    } else {
        node_count(parts.drop_last()) + parts.last().cells.len()
    }
}

/// Whether the game of `part` is part of the game of `position`.
pub open spec fn is_part(position: Position, part: Grid) -> bool {
    exists|t: Position| t.subset_of(position) && #[trigger] isomorphic(t, part.cells)
}

/// The part of a row is closed, and holds the row.
pub proof fn lemma_part_closed(grid: Grid, start: int)
    requires
        grid.wf(),
        0 <= start < grid.rows,
    ensures
        closed_part(grid, part_rows(grid, start), part_cols(grid, start)),
        part_rows(grid, start).contains(start),
{
    assert forall|r: int, c: int| #[trigger] grid.has(r, c) implies (part_rows(
        grid,
        start,
    ).contains(r) <==> part_cols(grid, start).contains(c)) by {
        assert(grid.cells.contains((r, c)));
    }
}

/// A closed set of lines that holds a row holds the whole part of that row.
pub proof fn lemma_part_least(grid: Grid, start: int, rows: Set<int>, cols: Set<int>)
    requires
        closed_part(grid, rows, cols),
        rows.contains(start),
    ensures
        part_rows(grid, start).subset_of(rows),
        part_cols(grid, start).subset_of(cols),
{
}

/// Being in one part works both ways.
pub proof fn lemma_part_symmetric(grid: Grid, a: int, b: int)
    requires
        grid.wf(),
        0 <= a < grid.rows,
        part_rows(grid, a).contains(b),
    ensures
        part_rows(grid, b).contains(a),
{
    assert forall|rows: Set<int>, cols: Set<int>| #[trigger]
        closed_part(grid, rows, cols) && rows.contains(b) implies rows.contains(a) by {
        if !rows.contains(a) {
            assert(closed_part(grid, rows.complement(), cols.complement()));
            assert(rows.complement().contains(a));
        }
    }
}

/// The rows of `start`'s part have the same part.
pub proof fn lemma_part_same(grid: Grid, a: int, b: int)
    requires
        grid.wf(),
        0 <= a < grid.rows,
        part_rows(grid, a).contains(b),
    ensures
        part_rows(grid, b) == part_rows(grid, a),
        part_cols(grid, b) == part_cols(grid, a),
{
    lemma_part_symmetric(grid, a, b);
    lemma_part_closed(grid, a);
    lemma_part_closed(grid, b);
    lemma_part_least(grid, b, part_rows(grid, a), part_cols(grid, a));
    lemma_part_least(grid, a, part_rows(grid, b), part_cols(grid, b));
    assert(part_rows(grid, b) =~= part_rows(grid, a));
    assert(part_cols(grid, b) =~= part_cols(grid, a));
}

/// Whether row `r` is in the part of a row below `end`.
spec fn row_reached(grid: Grid, end: int, r: int) -> bool {
    exists|l: int| 0 <= l < end && #[trigger] part_rows(grid, l).contains(r)
}

/// Whether column `c` is in the part of a row below `end`.
spec fn col_reached(grid: Grid, end: int, c: int) -> bool {
    exists|l: int| 0 <= l < end && #[trigger] part_cols(grid, l).contains(c)
}

proof fn lemma_reached_closed(grid: Grid, end: int, r: int, c: int)
    requires
        grid.wf(),
        0 <= end <= grid.rows,
        grid.has(r, c),
    ensures
        row_reached(grid, end, r) <==> col_reached(grid, end, c),
{
    if row_reached(grid, end, r) {
        let l = choose|l: int| 0 <= l < end && #[trigger] part_rows(grid, l).contains(r);
        lemma_part_closed(grid, l);
        assert(part_cols(grid, l).contains(c));
    }
    if col_reached(grid, end, c) {
        let l = choose|l: int| 0 <= l < end && #[trigger] part_cols(grid, l).contains(c);
        lemma_part_closed(grid, l);
        assert(part_rows(grid, l).contains(r));
    }
}

/// A row leads its part exactly when no earlier row's part holds it.
proof fn lemma_leads(grid: Grid, start: int)
    requires
        grid.wf(),
        0 <= start < grid.rows,
    ensures
        leads(grid, start) <==> !row_reached(grid, start, start),
{
    if row_reached(grid, start, start) {
        let l = choose|l: int| 0 <= l < start && #[trigger] part_rows(grid, l).contains(start);
        lemma_part_symmetric(grid, l, start);
        assert(part_rows(grid, start).contains(l));
    }
    if !leads(grid, start) {
        let r = choose|r: int| 0 <= r < start && #[trigger] part_rows(grid, start).contains(r);
        lemma_part_symmetric(grid, start, r);
        assert(part_rows(grid, r).contains(start));
    }
}

/// What the next row adds to the rows and columns that are reached.
proof fn lemma_reached_grows(grid: Grid, start: int)
    requires
        grid.wf(),
        0 <= start < grid.rows,
    ensures
        forall|r: int| #[trigger]
            row_reached(grid, start + 1, r) <==> row_reached(grid, start, r) || part_rows(
                grid,
                start,
            ).contains(r),
        forall|c: int| #[trigger]
            col_reached(grid, start + 1, c) <==> col_reached(grid, start, c) || part_cols(
                grid,
                start,
            ).contains(c),
{
    assert forall|r: int| #[trigger] row_reached(grid, start + 1, r) <==> row_reached(grid, start, r)
        || part_rows(grid, start).contains(r) by {
        if row_reached(grid, start + 1, r) {
            let l = choose|l: int| 0 <= l < start + 1 && #[trigger] part_rows(grid, l).contains(r);
            assert(l == start || (0 <= l < start && part_rows(grid, l).contains(r)));
        }
        if row_reached(grid, start, r) {
            let l = choose|l: int| 0 <= l < start && #[trigger] part_rows(grid, l).contains(r);
            assert(0 <= l < start + 1 && part_rows(grid, l).contains(r));
        }
    }
    assert forall|c: int| #[trigger] col_reached(grid, start + 1, c) <==> col_reached(grid, start, c)
        || part_cols(grid, start).contains(c) by {
        if col_reached(grid, start + 1, c) {
            let l = choose|l: int| 0 <= l < start + 1 && #[trigger] part_cols(grid, l).contains(c);
            assert(l == start || (0 <= l < start && part_cols(grid, l).contains(c)));
        }
        if col_reached(grid, start, c) {
            let l = choose|l: int| 0 <= l < start && #[trigger] part_cols(grid, l).contains(c);
            assert(0 <= l < start + 1 && part_cols(grid, l).contains(c));
        }
    }
}

/// Deletes empty dimensions. Nonempty singleton dimensions are retained.
fn remove_empty_dimensions(matrix: &BitMatrix) -> (kept: BitMatrix)
    requires
        matrix.wf(),
    ensures
        kept.wf(),
        kept@ == squeezed(matrix@),
{
    let ghost grid = matrix@;
    let mut rows: Vec<usize> = Vec::new();
    let mut used: Vec<bool> = vec![false; matrix.cols()];
    let ghost keep_row = |r: int| row_used(grid, r);
    let ghost keep_col = |c: int| col_used(grid, c);
    let mut row: usize = 0;
    while row < matrix.rows()
        invariant
            matrix.wf(),
            matrix@ == grid,
            row <= grid.rows,
            used@.len() == grid.cols,
            keep_row == (|r: int| row_used(grid, r)),
            rows@ == listed(row as nat, keep_row),
            forall|c: int|
                0 <= c < grid.cols ==> (#[trigger] used@[c] <==> exists|r: int|
                    0 <= r < row && grid.has(r, c)),
        decreases grid.rows - row,
    {
        let ones: Vec<usize> = matrix.row_ones(row);
        let ghost before = used@;
        let mut k: usize = 0;
        while k < ones.len()
            invariant
                matrix.wf(),
                matrix@ == grid,
                row < grid.rows,
                lists_row(grid, row as int, ones@),
                k <= ones@.len(),
                used@.len() == grid.cols,
                before.len() == grid.cols,
                forall|c: int|
                    0 <= c < grid.cols ==> (#[trigger] used@[c] <==> before[c] || exists|i: int|
                        0 <= i < k && #[trigger] ones@[i] == c),
            decreases ones@.len() - k,
        {
            proof {
                assert(grid.cells.contains((row as int, ones@[k as int] as int)));
            }
            let ghost marked = used@;
            used.set(ones[k], true);
            proof {
                assert forall|c: int| 0 <= c < grid.cols implies (#[trigger] used@[c] <==> before[c]
                    || exists|i: int| 0 <= i < k + 1 && #[trigger] ones@[i] == c) by {
                    assert(marked[c] <==> before[c] || exists|i: int|
                        0 <= i < k && #[trigger] ones@[i] == c);
                    if c == ones@[k as int] {
                        assert(ones@[k as int] == c);
                    }
                }
            }
            k = k + 1;
        }
        proof {
            assert forall|c: int| 0 <= c < grid.cols implies (#[trigger] used@[c] <==> exists|r: int|
                0 <= r < row + 1 && grid.has(r, c)) by {
                assert(before[c] <==> exists|r: int| 0 <= r < row && grid.has(r, c));
                if grid.has(row as int, c) {
                    assert(ones@.contains(c as usize));
                    let i = choose|i: int| 0 <= i < ones@.len() && ones@[i] == c as usize;
                    assert(ones@[i] == c);
                }
            }
            if ones@.len() > 0 {
                assert(grid.has(row as int, ones@[0] as int));
            }
            if row_used(grid, row as int) {
                let c = choose|c: int| grid.has(row as int, c);
                assert(ones@.contains(c as usize));
            }
        }
        if ones.len() > 0 {
            rows.push(row);
        }
        row = row + 1;
    }
    let mut cols: Vec<usize> = Vec::new();
    let mut col: usize = 0;
    while col < matrix.cols()
        invariant
            matrix.wf(),
            matrix@ == grid,
            col <= grid.cols,
            used@.len() == grid.cols,
            keep_col == (|c: int| col_used(grid, c)),
            cols@ == listed(col as nat, keep_col),
            forall|c: int|
                0 <= c < grid.cols ==> (#[trigger] used@[c] <==> exists|r: int|
                    0 <= r < grid.rows && grid.has(r, c)),
        decreases grid.cols - col,
    {
        proof {
            if col_used(grid, col as int) {
                let r = choose|r: int| grid.has(r, col as int);
                assert(grid.cells.contains((r, col as int)));
            }
        }
        if used[col] {
            cols.push(col);
        }
        col = col + 1;
    }
    proof {
        lemma_listed(grid.rows, keep_row);
        lemma_listed(grid.cols, keep_col);
        lemma_fewer_countable(grid.rows, grid.cols, rows@.len(), cols@.len());
    }
    matrix.reordered(rows.as_slice(), cols.as_slice())
}

/// Fewer rows and columns can be counted too.
pub proof fn lemma_fewer_countable(rows: nat, cols: nat, fewer_rows: nat, fewer_cols: nat)
    requires
        countable(rows, cols),
        fewer_rows <= rows,
        fewer_cols <= cols,
    ensures
        countable(fewer_rows, fewer_cols),
{
    assert(fewer_rows * fewer_cols <= rows * cols) by (nonlinear_arith)
        requires
            fewer_rows <= rows,
            fewer_cols <= cols,
    ;
}

#[derive(Clone, Copy)]
enum Vertex {
    Row(usize),
    Col(usize),
}

spec fn vertex(of_row: bool, x: usize) -> Vertex {
    if of_row {
        Vertex::Row(x)
    } else {
        Vertex::Col(x)
    }
}

/// What holds while the part of row `start` is being searched: every line that has been seen was
/// seen before, is finished, or waits in the queue; finished lines have all neighbours seen; and
/// the search stays in the part.
spec fn searching(
    grid: Grid,
    start: int,
    before: (Seq<bool>, Seq<bool>),
    seen: (Seq<bool>, Seq<bool>),
    queue: Seq<Vertex>,
    done: (Seq<usize>, Seq<usize>),
) -> bool {
    &&& before.0.len() == grid.rows && seen.0.len() == grid.rows
    &&& before.1.len() == grid.cols && seen.1.len() == grid.cols
    &&& queue.no_duplicates() && done.0.no_duplicates() && done.1.no_duplicates()
    &&& forall|x: usize|
        x < grid.rows ==> (#[trigger] seen.0[x as int] <==> before.0[x as int] || done.0.contains(x)
            || queue.contains(Vertex::Row(x)))
    &&& forall|x: usize|
        x < grid.cols ==> (#[trigger] seen.1[x as int] <==> before.1[x as int] || done.1.contains(x)
            || queue.contains(Vertex::Col(x)))
    &&& forall|x: usize| #[trigger]
        queue.contains(Vertex::Row(x)) ==> x < grid.rows && !before.0[x as int] && !done.0.contains(x)
            && part_rows(grid, start).contains(x as int)
    &&& forall|x: usize| #[trigger]
        queue.contains(Vertex::Col(x)) ==> x < grid.cols && !before.1[x as int] && !done.1.contains(x)
            && part_cols(grid, start).contains(x as int)
    &&& forall|x: usize| #[trigger]
        done.0.contains(x) ==> x < grid.rows && !before.0[x as int] && part_rows(
            grid,
            start,
        ).contains(x as int)
    &&& forall|x: usize| #[trigger]
        done.1.contains(x) ==> x < grid.cols && !before.1[x as int] && part_cols(
            grid,
            start,
        ).contains(x as int)
    &&& forall|r: usize, c: usize|
        (#[trigger] done.0.contains(r)) && r < grid.rows && c < grid.cols && grid.has(r as int, c as int)
            ==> #[trigger] seen.1[c as int]
    &&& forall|r: usize, c: usize|
        (#[trigger] done.1.contains(c)) && r < grid.rows && c < grid.cols && grid.has(r as int, c as int)
            ==> #[trigger] seen.0[r as int]
}

/// Marks the listed lines as seen, and queues those that were not.
fn enqueue_unseen(
    ones: &Vec<usize>,
    of_row: bool,
    seen: &mut Vec<bool>,
    queue: &mut VecDeque<Vertex>,
) -> (fresh: Ghost<Seq<Vertex>>)
    requires
        forall|i: int, j: int| 0 <= i < j < ones@.len() ==> ones@[i] < ones@[j],
        forall|i: int| 0 <= i < ones@.len() ==> #[trigger] ones@[i] < old(seen)@.len(),
    ensures
        final(seen)@.len() == old(seen)@.len(),
        forall|x: usize|
            x < old(seen)@.len() ==> (#[trigger] final(seen)@[x as int] <==> old(seen)@[x as int]
                || ones@.contains(x)),
        final(queue)@ == old(queue)@ + fresh@,
        fresh@.no_duplicates(),
        forall|x: usize| #[trigger]
            fresh@.contains(vertex(of_row, x)) <==> ones@.contains(x) && x < old(seen)@.len()
                && !old(seen)@[x as int],
        forall|v: Vertex| #[trigger] fresh@.contains(v) ==> exists|x: usize| v == vertex(of_row, x),
{
    let ghost mut fresh: Seq<Vertex> = Seq::empty();
    let ghost marked = seen@;
    let ghost waiting = queue@;
    let mut k: usize = 0;
    while k < ones.len()
        invariant
            forall|i: int, j: int| 0 <= i < j < ones@.len() ==> ones@[i] < ones@[j],
            forall|i: int| 0 <= i < ones@.len() ==> #[trigger] ones@[i] < marked.len(),
            k <= ones@.len(),
            seen@.len() == marked.len(),
            forall|x: usize|
                x < marked.len() ==> (#[trigger] seen@[x as int] <==> marked[x as int]
                    || ones@.take(k as int).contains(x)),
            queue@ == waiting + fresh,
            fresh.no_duplicates(),
            forall|x: usize| #[trigger]
                fresh.contains(vertex(of_row, x)) <==> ones@.take(k as int).contains(x) && x
                    < marked.len() && !marked[x as int],
            forall|v: Vertex| #[trigger] fresh.contains(v) ==> exists|x: usize| v == vertex(of_row, x),
        decreases ones@.len() - k,
    {
        let x: usize = ones[k];
        let ghost before = seen@;
        let ghost older = fresh;
        proof {
            let less = ones@.take(k as int);
            let more = ones@.take(k + 1);
            assert(more =~= less.push(x));
            assert(!less.contains(x)) by {
                if less.contains(x) {
                    let i = choose|i: int| 0 <= i < less.len() && less[i] == x;
                    assert(ones@[i] < ones@[k as int]);
                }
            }
            assert forall|y: usize| #[trigger] more.contains(y) <==> less.contains(y) || y == x by {
                if less.contains(y) {
                    let i = choose|i: int| 0 <= i < less.len() && less[i] == y;
                    assert(more[i] == y);
                }
                if y == x {
                    assert(more[k as int] == y);
                }
                if more.contains(y) && y != x {
                    let i = choose|i: int| 0 <= i < more.len() && more[i] == y;
                    assert(less[i] == y);
                }
            }
            assert(seen@[x as int] <==> marked[x as int]);
        }
        if !seen[x] {
            seen.set(x, true);
            let v: Vertex = if of_row {
                Vertex::Row(x)
            } else {
                Vertex::Col(x)
            };
            queue.push_back(v);
            proof {
                assert(v == vertex(of_row, x));
                assert(!older.contains(v));
                fresh = older.push(v);
                assert(queue@ =~= waiting + fresh);
                assert forall|w: Vertex| #[trigger] fresh.contains(w) <==> older.contains(w) || w
                    == v by {
                    if older.contains(w) {
                        let i = choose|i: int| 0 <= i < older.len() && older[i] == w;
                        assert(fresh[i] == w);
                    }
                    if w == v {
                        assert(fresh[older.len() as int] == w);
                    }
                }
                assert forall|y: usize| #[trigger] fresh.contains(vertex(of_row, y)) <==> ones@.take(
                    k + 1,
                ).contains(y) && y < marked.len() && !marked[y as int] by {
                    assert(older.contains(vertex(of_row, y)) <==> ones@.take(k as int).contains(y)
                        && y < marked.len() && !marked[y as int]);
                    assert(ones@.take(k + 1).contains(y) <==> ones@.take(k as int).contains(y) || y
                        == x);
                }
            }
        } else {
            proof {
                assert forall|y: usize| #[trigger] fresh.contains(vertex(of_row, y)) <==> ones@.take(
                    k + 1,
                ).contains(y) && y < marked.len() && !marked[y as int] by {
                    assert(ones@.take(k + 1).contains(y) <==> ones@.take(k as int).contains(y) || y
                        == x);
                }
            }
        }
        proof {
            assert forall|y: usize| y < marked.len() implies (#[trigger] seen@[y as int]
                <==> marked[y as int] || ones@.take(k + 1).contains(y)) by {
                assert(before[y as int] <==> marked[y as int] || ones@.take(k as int).contains(y));
                assert(ones@.take(k + 1).contains(y) <==> ones@.take(k as int).contains(y) || y
                    == x);
            }
        }
        k = k + 1;
    }
    proof {
        assert(ones@.take(k as int) =~= ones@);
    }
    Ghost(fresh)
}


proof fn lemma_search_row(
    grid: Grid,
    start: int,
    before: (Seq<bool>, Seq<bool>),
    seen: (Seq<bool>, Seq<bool>),
    queue: Seq<Vertex>,
    done: (Seq<usize>, Seq<usize>),
    x: usize,
    ones: Seq<usize>,
    other: Seq<bool>,
    fresh: Seq<Vertex>,
)
    requires
        grid.wf(),
        countable(grid.rows, grid.cols),
        0 <= start < grid.rows,
        searching(grid, start, before, seen, queue, done),
        queue.len() > 0,
        queue[0] == Vertex::Row(x),
        forall|r: int, c: int| #[trigger]
            grid.has(r, c) ==> (before.0[r] <==> before.1[c]),
        forall|y: usize| #[trigger] ones.contains(y) <==> grid.has(x as int, y as int),
        other.len() == grid.cols,
        forall|y: usize|
            y < grid.cols ==> (#[trigger] other[y as int] <==> seen.1[y as int] || ones.contains(y)),
        fresh.no_duplicates(),
        forall|y: usize| #[trigger]
            fresh.contains(vertex(false, y)) <==> ones.contains(y) && y < grid.cols
                && !seen.1[y as int],
        forall|v: Vertex| #[trigger] fresh.contains(v) ==> exists|y: usize| v == vertex(false, y),
    ensures
        searching(
            grid,
            start,
            before,
            (seen.0, other),
            queue.subrange(1, queue.len() as int) + fresh,
            (done.0.push(x), done.1),
        ),
{
    let rest = queue.subrange(1, queue.len() as int);
    let more = rest + fresh;
    let longer = done.0.push(x);
    assert(queue.contains(Vertex::Row(x)));
    lemma_part_closed(grid, start);
    assert forall|v: Vertex| #[trigger] queue.contains(v) <==> rest.contains(v) || v == Vertex::Row(
        x,
    ) by {
        if queue.contains(v) && v != Vertex::Row(x) {
            let i = choose|i: int| 0 <= i < queue.len() && queue[i] == v;
            assert(rest[i - 1] == v);
        }
        if rest.contains(v) {
            let i = choose|i: int| 0 <= i < rest.len() && rest[i] == v;
            assert(queue[i + 1] == v);
        }
    }
    assert(!rest.contains(Vertex::Row(x))) by {
        if rest.contains(Vertex::Row(x)) {
            let i = choose|i: int| 0 <= i < rest.len() && rest[i] == Vertex::Row(x);
            assert(queue[i + 1] == queue[0]);
        }
    }
    assert forall|v: Vertex| #[trigger] more.contains(v) <==> rest.contains(v) || fresh.contains(
        v,
    ) by {
        if rest.contains(v) {
            let i = choose|i: int| 0 <= i < rest.len() && rest[i] == v;
            assert(more[i] == v);
        }
        if fresh.contains(v) {
            let i = choose|i: int| 0 <= i < fresh.len() && fresh[i] == v;
            assert(more[rest.len() + i] == v);
        }
    }
    assert forall|y: usize| #[trigger] longer.contains(y) <==> done.0.contains(y) || y == x by {
        if done.0.contains(y) {
            let i = choose|i: int| 0 <= i < done.0.len() && done.0[i] == y;
            assert(longer[i] == y);
        }
        if y == x {
            assert(longer[done.0.len() as int] == y);
        }
    }
    assert forall|y: usize| !(#[trigger] fresh.contains(Vertex::Row(y))) by {
        if fresh.contains(Vertex::Row(y)) {
            let z = choose|z: usize| Vertex::Row(y) == vertex(false, z);
        }
    }
    assert forall|y: usize| #[trigger] fresh.contains(Vertex::Col(y)) <==> ones.contains(y) && y
        < grid.cols && !seen.1[y as int] by {
        assert(vertex(false, y) == Vertex::Col(y));
    }
    assert forall|y: usize| ones.contains(y) implies y < grid.cols && !before.1[y as int] && part_cols(
        grid,
        start,
    ).contains(y as int) by {
        assert(grid.has(x as int, y as int));
        assert(grid.cells.contains((x as int, y as int)));
    }
    assert(more.no_duplicates()) by {
        assert forall|i: int, j: int|
            0 <= i < more.len() && 0 <= j < more.len() && i != j implies more[i] != more[j] by {
            if i < rest.len() && j < rest.len() {
                assert(more[i] == queue[i + 1] && more[j] == queue[j + 1]);
            } else if i >= rest.len() && j >= rest.len() {
                assert(more[i] == fresh[i - rest.len()] && more[j] == fresh[j - rest.len()]);
            } else {
                let (a, b) = if i < rest.len() {
                    (i, j)
                } else {
                    (j, i)
                };
                assert(rest.contains(more[a]) && fresh.contains(more[b])) by {
                    assert(rest[a] == more[a]);
                    assert(fresh[b - rest.len()] == more[b]);
                }
                let y = choose|y: usize| more[b] == vertex(false, y);
                assert(fresh.contains(Vertex::Col(y)));
                if more[a] == more[b] {
                    assert(queue.contains(Vertex::Col(y)));
                    assert(seen.1[y as int]);
                }
            }
        }
    }
    assert forall|y: usize| #[trigger] more.contains(Vertex::Row(y)) implies queue.contains(
        Vertex::Row(y),
    ) && y != x by {
        assert(!fresh.contains(Vertex::Row(y)));
        assert(rest.contains(Vertex::Row(y)));
    }
    assert forall|y: usize| #[trigger] more.contains(Vertex::Col(y)) implies queue.contains(
        Vertex::Col(y),
    ) || fresh.contains(Vertex::Col(y)) by {
        if rest.contains(Vertex::Col(y)) {
            assert(queue.contains(Vertex::Col(y)));
        }
    }
    assert(longer.no_duplicates());
}

proof fn lemma_search_col(
    grid: Grid,
    start: int,
    before: (Seq<bool>, Seq<bool>),
    seen: (Seq<bool>, Seq<bool>),
    queue: Seq<Vertex>,
    done: (Seq<usize>, Seq<usize>),
    x: usize,
    ones: Seq<usize>,
    other: Seq<bool>,
    fresh: Seq<Vertex>,
)
    requires
        grid.wf(),
        countable(grid.rows, grid.cols),
        0 <= start < grid.rows,
        searching(grid, start, before, seen, queue, done),
        queue.len() > 0,
        queue[0] == Vertex::Col(x),
        forall|r: int, c: int| #[trigger]
            grid.has(r, c) ==> (before.0[r] <==> before.1[c]),
        forall|y: usize| #[trigger] ones.contains(y) <==> grid.has(y as int, x as int),
        other.len() == grid.rows,
        forall|y: usize|
            y < grid.rows ==> (#[trigger] other[y as int] <==> seen.0[y as int] || ones.contains(y)),
        fresh.no_duplicates(),
        forall|y: usize| #[trigger]
            fresh.contains(vertex(true, y)) <==> ones.contains(y) && y < grid.rows
                && !seen.0[y as int],
        forall|v: Vertex| #[trigger] fresh.contains(v) ==> exists|y: usize| v == vertex(true, y),
    ensures
        searching(
            grid,
            start,
            before,
            (other, seen.1),
            queue.subrange(1, queue.len() as int) + fresh,
            (done.0, done.1.push(x)),
        ),
{
    let rest = queue.subrange(1, queue.len() as int);
    let more = rest + fresh;
    let longer = done.1.push(x);
    assert(queue.contains(Vertex::Col(x)));
    lemma_part_closed(grid, start);
    assert forall|v: Vertex| #[trigger] queue.contains(v) <==> rest.contains(v) || v == Vertex::Col(
        x,
    ) by {
        if queue.contains(v) && v != Vertex::Col(x) {
            let i = choose|i: int| 0 <= i < queue.len() && queue[i] == v;
            assert(rest[i - 1] == v);
        }
        if rest.contains(v) {
            let i = choose|i: int| 0 <= i < rest.len() && rest[i] == v;
            assert(queue[i + 1] == v);
        }
    }
    assert(!rest.contains(Vertex::Col(x))) by {
        if rest.contains(Vertex::Col(x)) {
            let i = choose|i: int| 0 <= i < rest.len() && rest[i] == Vertex::Col(x);
            assert(queue[i + 1] == queue[0]);
        }
    }
    assert forall|v: Vertex| #[trigger] more.contains(v) <==> rest.contains(v) || fresh.contains(
        v,
    ) by {
        if rest.contains(v) {
            let i = choose|i: int| 0 <= i < rest.len() && rest[i] == v;
            assert(more[i] == v);
        }
        if fresh.contains(v) {
            let i = choose|i: int| 0 <= i < fresh.len() && fresh[i] == v;
            assert(more[rest.len() + i] == v);
        }
    }
    assert forall|y: usize| #[trigger] longer.contains(y) <==> done.1.contains(y) || y == x by {
        if done.1.contains(y) {
            let i = choose|i: int| 0 <= i < done.1.len() && done.1[i] == y;
            assert(longer[i] == y);
        }
        if y == x {
            assert(longer[done.1.len() as int] == y);
        }
    }
    assert forall|y: usize| !(#[trigger] fresh.contains(Vertex::Col(y))) by {
        if fresh.contains(Vertex::Col(y)) {
            let z = choose|z: usize| Vertex::Col(y) == vertex(true, z);
        }
    }
    assert forall|y: usize| #[trigger] fresh.contains(Vertex::Row(y)) <==> ones.contains(y) && y
        < grid.rows && !seen.0[y as int] by {
        assert(vertex(true, y) == Vertex::Row(y));
    }
    assert forall|y: usize| ones.contains(y) implies y < grid.rows && !before.0[y as int] && part_rows(
        grid,
        start,
    ).contains(y as int) by {
        assert(grid.has(y as int, x as int));
        assert(grid.cells.contains((y as int, x as int)));
    }
    assert(more.no_duplicates()) by {
        assert forall|i: int, j: int|
            0 <= i < more.len() && 0 <= j < more.len() && i != j implies more[i] != more[j] by {
            if i < rest.len() && j < rest.len() {
                assert(more[i] == queue[i + 1] && more[j] == queue[j + 1]);
            } else if i >= rest.len() && j >= rest.len() {
                assert(more[i] == fresh[i - rest.len()] && more[j] == fresh[j - rest.len()]);
            } else {
                let (a, b) = if i < rest.len() {
                    (i, j)
                } else {
                    (j, i)
                };
                assert(rest.contains(more[a]) && fresh.contains(more[b])) by {
                    assert(rest[a] == more[a]);
                    assert(fresh[b - rest.len()] == more[b]);
                }
                let y = choose|y: usize| more[b] == vertex(true, y);
                assert(fresh.contains(Vertex::Row(y)));
                if more[a] == more[b] {
                    assert(queue.contains(Vertex::Row(y)));
                    assert(seen.0[y as int]);
                }
            }
        }
    }
    assert forall|y: usize| #[trigger] more.contains(Vertex::Col(y)) implies queue.contains(
        Vertex::Col(y),
    ) && y != x by {
        assert(!fresh.contains(Vertex::Col(y)));
        assert(rest.contains(Vertex::Col(y)));
    }
    assert forall|y: usize| #[trigger] more.contains(Vertex::Row(y)) implies queue.contains(
        Vertex::Row(y),
    ) || fresh.contains(Vertex::Row(y)) by {
        if rest.contains(Vertex::Row(y)) {
            assert(queue.contains(Vertex::Row(y)));
        }
    }
    assert(longer.no_duplicates());
}

/// Finds the rows and columns of the part of row `start`, and marks them as seen.
fn find_part(
    matrix: &BitMatrix,
    transposed: &BitMatrix,
    start: usize,
    seen_rows: &mut Vec<bool>,
    seen_cols: &mut Vec<bool>,
) -> (found: (Vec<usize>, Vec<usize>))
    requires
        matrix.wf(),
        transposed.wf(),
        transposed@ == matrix@.transposed(),
        start < matrix@.rows,
        old(seen_rows)@.len() == matrix@.rows,
        old(seen_cols)@.len() == matrix@.cols,
        !old(seen_rows)@[start as int],
        forall|r: int, c: int| #[trigger]
            matrix@.has(r, c) ==> (old(seen_rows)@[r] <==> old(seen_cols)@[c]),
    ensures
        final(seen_rows)@.len() == matrix@.rows,
        final(seen_cols)@.len() == matrix@.cols,
        found.0@.no_duplicates(),
        found.1@.no_duplicates(),
        forall|x: usize| #[trigger]
            found.0@.contains(x) <==> part_rows(matrix@, start as int).contains(x as int),
        forall|x: usize| #[trigger]
            found.1@.contains(x) <==> part_cols(matrix@, start as int).contains(x as int),
        forall|x: usize|
            x < matrix@.rows ==> (#[trigger] final(seen_rows)@[x as int] <==> old(
                seen_rows,
            )@[x as int] || part_rows(matrix@, start as int).contains(x as int)),
        forall|x: usize|
            x < matrix@.cols ==> (#[trigger] final(seen_cols)@[x as int] <==> old(
                seen_cols,
            )@[x as int] || part_cols(matrix@, start as int).contains(x as int)),
{
    let ghost grid = matrix@;
    let ghost before = (seen_rows@, seen_cols@);
    let mut rows: Vec<usize> = Vec::new();
    let mut cols: Vec<usize> = Vec::new();
    let mut queue: VecDeque<Vertex> = VecDeque::new();
    queue.push_back(Vertex::Row(start));
    seen_rows.set(start, true);
    proof {
        lemma_part_closed(grid, start as int);
        assert(queue@[0] == Vertex::Row(start));
        assert(queue@.contains(Vertex::Row(start)));
        assert(searching(
            grid,
            start as int,
            before,
            (seen_rows@, seen_cols@),
            queue@,
            (rows@, cols@),
        ));
    }
    while queue.len() > 0
        invariant
            matrix.wf(),
            transposed.wf(),
            grid == matrix@,
            transposed@ == grid.transposed(),
            start < grid.rows,
            forall|r: int, c: int| #[trigger]
                grid.has(r, c) ==> (before.0[r] <==> before.1[c]),
            searching(
                grid,
                start as int,
                before,
                (seen_rows@, seen_cols@),
                queue@,
                (rows@, cols@),
            ),
            rows@.contains(start) || queue@.contains(Vertex::Row(start)),
        decreases grid.rows + grid.cols - rows@.len() - cols@.len(),
    {
        let ghost waiting = queue@;
        let ghost seen = (seen_rows@, seen_cols@);
        let ghost done = (rows@, cols@);
        proof {
            lemma_few_done(grid, start as int, before, seen, waiting, done);
            assert(waiting.contains(waiting[0]));
        }
        let popped: Option<Vertex> = queue.pop_front();
        match popped {
            Some(Vertex::Row(row)) => {
                proof {
                    assert(waiting.contains(Vertex::Row(row)));
                }
                rows.push(row);
                let ones: Vec<usize> = matrix.row_ones(row);
                proof {
                    lemma_ones_of(grid, row as int, ones@);
                }
                let Ghost(fresh) = enqueue_unseen(&ones, false, seen_cols, &mut queue);
                proof {
                    lemma_search_row(
                        grid,
                        start as int,
                        before,
                        seen,
                        waiting,
                        done,
                        row,
                        ones@,
                        seen_cols@,
                        fresh,
                    );
                    lemma_kept(waiting, fresh, Vertex::Row(start));
                    lemma_pushed(done.0, row, start);
                }
            },
            Some(Vertex::Col(col)) => {
                proof {
                    assert(waiting.contains(Vertex::Col(col)));
                }
                cols.push(col);
                let ones: Vec<usize> = transposed.row_ones(col);
                proof {
                    lemma_ones_of(grid.transposed(), col as int, ones@);
                    assert forall|y: usize| #[trigger] ones@.contains(y) <==> grid.has(
                        y as int,
                        col as int,
                    ) by {
                        if grid.has(y as int, col as int) {
                            assert(grid.cells.contains((y as int, col as int)));
                        }
                        assert(ones@.contains(y) <==> grid.transposed().has(col as int, y as int));
                    }
                }
                let Ghost(fresh) = enqueue_unseen(&ones, true, seen_rows, &mut queue);
                proof {
                    lemma_search_col(
                        grid,
                        start as int,
                        before,
                        seen,
                        waiting,
                        done,
                        col,
                        ones@,
                        seen_rows@,
                        fresh,
                    );
                    lemma_kept(waiting, fresh, Vertex::Row(start));
                }
            },
            None => {},
        }
    }
    proof {
        let row_set = Set::new(|x: int| 0 <= x < grid.rows && rows@.contains(x as usize));
        let col_set = Set::new(|x: int| 0 <= x < grid.cols && cols@.contains(x as usize));
        assert(closed_part(grid, row_set, col_set)) by {
            assert forall|r: int, c: int| #[trigger] grid.has(r, c) implies (row_set.contains(r)
                <==> col_set.contains(c)) by {
                assert(grid.cells.contains((r, c)));
                if row_set.contains(r) {
                    assert(seen_cols@[c as usize as int]);
                    assert(!before.0[r as usize as int]);
                }
                if col_set.contains(c) {
                    assert(seen_rows@[r as usize as int]);
                    assert(!before.1[c as usize as int]);
                }
            }
        }
        assert(row_set.contains(start as int));
        lemma_part_least(grid, start as int, row_set, col_set);
        assert forall|x: usize| #[trigger] rows@.contains(x) <==> part_rows(
            grid,
            start as int,
        ).contains(x as int) by {
            if part_rows(grid, start as int).contains(x as int) {
                assert(row_set.contains(x as int));
            }
        }
        assert forall|x: usize| #[trigger] cols@.contains(x) <==> part_cols(
            grid,
            start as int,
        ).contains(x as int) by {
            if part_cols(grid, start as int).contains(x as int) {
                assert(col_set.contains(x as int));
            }
        }
        assert(queue@.len() == 0);
        assert forall|v: Vertex| !(#[trigger] queue@.contains(v)) by {}
    }
    (rows, cols)
}

proof fn lemma_pushed(list: Seq<usize>, x: usize, y: usize)
    ensures
        list.push(x).contains(y) <==> list.contains(y) || x == y,
{
    if list.contains(y) {
        let i = choose|i: int| 0 <= i < list.len() && list[i] == y;
        assert(list.push(x)[i] == y);
    }
    if x == y {
        assert(list.push(x)[list.len() as int] == y);
    }
}

proof fn lemma_kept(queue: Seq<Vertex>, fresh: Seq<Vertex>, v: Vertex)
    requires
        queue.len() > 0,
    ensures
        queue.contains(v) ==> v == queue[0] || (queue.subrange(1, queue.len() as int) + fresh).contains(v),
{
    let i = choose|i: int| 0 <= i < queue.len() && queue[i] == v;
    if queue.contains(v) && i > 0 {
        assert((queue.subrange(1, queue.len() as int) + fresh)[i - 1] == v);
    }
}

proof fn lemma_ones_of(grid: Grid, row: int, ones: Seq<usize>)
    requires
        grid.wf(),
        lists_row(grid, row, ones),
    ensures
        forall|y: usize| #[trigger] ones.contains(y) <==> grid.has(row, y as int),
        forall|i: int| 0 <= i < ones.len() ==> #[trigger] ones[i] < grid.cols,
{
    assert forall|i: int| 0 <= i < ones.len() implies #[trigger] ones[i] < grid.cols by {
        assert(grid.cells.contains((row, ones[i] as int)));
    }
}

proof fn lemma_bounded_list(list: Seq<usize>, n: nat)
    requires
        list.no_duplicates(),
        n <= usize::MAX,
        forall|i: int| 0 <= i < list.len() ==> #[trigger] list[i] < n,
    ensures
        list.len() <= n,
    decreases n,
{
    if n == 0 {
        if list.len() > 0 {
            assert(list[0] < n);
        }
    } else if list.contains((n - 1) as usize) {
        let i = choose|i: int| 0 <= i < list.len() && list[i] == (n - 1) as usize;
        let less = list.remove(i);
        assert forall|j: int| 0 <= j < less.len() implies #[trigger] less[j] < n - 1 by {
            if j < i {
                assert(less[j] == list[j]);
            } else {
                assert(less[j] == list[j + 1]);
            }
        }
        assert(less.no_duplicates()) by {
            assert forall|j: int, k: int|
                0 <= j < less.len() && 0 <= k < less.len() && j != k implies less[j] != less[k] by {
                assert(less[j] == list[if j < i { j } else { j + 1 }]);
                assert(less[k] == list[if k < i { k } else { k + 1 }]);
            }
        }
        lemma_bounded_list(less, (n - 1) as nat);
    } else {
        assert forall|j: int| 0 <= j < list.len() implies #[trigger] list[j] < n - 1 by {
            assert(list.contains(list[j]));
        }
        lemma_bounded_list(list, (n - 1) as nat);
    }
}

/// While a line waits, not all lines are finished.
proof fn lemma_few_done(
    grid: Grid,
    start: int,
    before: (Seq<bool>, Seq<bool>),
    seen: (Seq<bool>, Seq<bool>),
    queue: Seq<Vertex>,
    done: (Seq<usize>, Seq<usize>),
)
    requires
        countable(grid.rows, grid.cols),
        searching(grid, start, before, seen, queue, done),
        queue.len() > 0,
    ensures
        done.0.len() + done.1.len() < grid.rows + grid.cols,
{
    assert(queue.contains(queue[0]));
    assert forall|i: int| 0 <= i < done.0.len() implies #[trigger] done.0[i] < grid.rows by {
        assert(done.0.contains(done.0[i]));
    }
    assert forall|i: int| 0 <= i < done.1.len() implies #[trigger] done.1[i] < grid.cols by {
        assert(done.1.contains(done.1[i]));
    }
    lemma_bounded_list(done.0, grid.rows);
    lemma_bounded_list(done.1, grid.cols);
    match queue[0] {
        Vertex::Row(x) => {
            assert(queue.contains(Vertex::Row(x)));
            let more = done.0.push(x);
            assert forall|i: int| 0 <= i < more.len() implies #[trigger] more[i] < grid.rows by {
                if i < done.0.len() {
                    assert(more[i] == done.0[i]);
                }
            }
            lemma_bounded_list(more, grid.rows);
        },
        Vertex::Col(x) => {
            assert(queue.contains(Vertex::Col(x)));
            let more = done.1.push(x);
            assert forall|i: int| 0 <= i < more.len() implies #[trigger] more[i] < grid.cols by {
                if i < done.1.len() {
                    assert(more[i] == done.1[i]);
                }
            }
            lemma_bounded_list(more, grid.cols);
        },
    }
}

/// A list without duplicates, sorted, is the ascending list of what it holds.
proof fn lemma_sorted_listed(list: Seq<usize>, n: nat, keep: spec_fn(int) -> bool)
    requires
        list.no_duplicates(),
        n <= usize::MAX,
        forall|x: usize| #[trigger] list.contains(x) <==> x < n && keep(x as int),
    ensures
        ascending(list) == listed(n, keep),
{
    broadcast use vstd::seq_lib::group_to_multiset_ensures;

    let sorted = ascending(list);
    let leq = number_leq();
    assert(vstd::relations::total_ordering(leq));
    list.lemma_sort_by_ensures(leq);
    list.lemma_multiset_has_no_duplicates();
    sorted.lemma_multiset_has_no_duplicates_conv();
    assert forall|x: usize| #[trigger] sorted.contains(x) <==> list.contains(x) by {
        assert(sorted.contains(x) <==> sorted.to_multiset().count(x) > 0);
        assert(list.contains(x) <==> list.to_multiset().count(x) > 0);
    }
    assert(lists(sorted, n, keep)) by {
        assert forall|i: int, j: int| 0 <= i < j < sorted.len() implies #[trigger] sorted[i]
            < #[trigger] sorted[j] by {
            assert(leq(sorted[i], sorted[j]));
            assert(sorted[i] != sorted[j]);
        }
        assert forall|i: int| 0 <= i < sorted.len() implies (#[trigger] sorted[i]) < n && keep(
            sorted[i] as int,
        ) by {
            assert(sorted.contains(sorted[i]));
            assert(list.contains(sorted[i]));
        }
        assert forall|x: int| 0 <= x < n && keep(x) implies #[trigger] sorted.contains(
            x as usize,
        ) by {
            assert(list.contains(x as usize));
        }
    }
    lemma_lists_is_listed(sorted, n, keep);
}

/// The views of the matrices.
pub open spec fn grids(matrices: Seq<BitMatrix>) -> Seq<Grid> {
    matrices.map_values(|matrix: BitMatrix| matrix@)
}

/// Finds components of the bipartite graph represented by the matrix.
pub fn split_components(matrix: &BitMatrix) -> (result: Vec<BitMatrix>)
    requires
        matrix.wf(),
    ensures
        grids(result@) == parts(squeezed(matrix@)),
        forall|i: int| 0 <= i < result@.len() ==> (#[trigger] result@[i]).wf(),
{
    let matrix = remove_empty_dimensions(matrix);
    let ghost grid = matrix@;
    let transposed = matrix.transposed();
    let mut seen_rows: Vec<bool> = vec![false; matrix.rows()];
    let mut seen_cols: Vec<bool> = vec![false; matrix.cols()];
    let mut result: Vec<BitMatrix> = Vec::new();
    let ghost keep = |r: int| leads(grid, r);
    let mut start: usize = 0;
    proof {
        assert(grids(result@) =~= parts_up_to(grid, 0));
    }
    while start < matrix.rows()
        invariant
            matrix.wf(),
            transposed.wf(),
            grid == matrix@,
            transposed@ == grid.transposed(),
            keep == (|r: int| leads(grid, r)),
            start <= grid.rows,
            seen_rows@.len() == grid.rows,
            seen_cols@.len() == grid.cols,
            forall|x: int|
                0 <= x < grid.rows ==> (#[trigger] seen_rows@[x] <==> row_reached(
                    grid,
                    start as int,
                    x,
                )),
            forall|x: int|
                0 <= x < grid.cols ==> (#[trigger] seen_cols@[x] <==> col_reached(
                    grid,
                    start as int,
                    x,
                )),
            grids(result@) == parts_up_to(grid, start as nat),
            forall|i: int| 0 <= i < result@.len() ==> (#[trigger] result@[i]).wf(),
        decreases grid.rows - start,
    {
        let ghost before = result@;
        proof {
            lemma_leads(grid, start as int);
            lemma_reached_grows(grid, start as int);
        }
        if seen_rows[start] {
            proof {
                let l = choose|l: int|
                    0 <= l < start && #[trigger] part_rows(grid, l).contains(start as int);
                lemma_part_same(grid, l, start as int);
                assert forall|x: int| 0 <= x < grid.rows implies (#[trigger] seen_rows@[x]
                    <==> row_reached(grid, start + 1, x)) by {
                    assert(row_reached(grid, start + 1, x) <==> row_reached(grid, start as int, x)
                        || part_rows(grid, start as int).contains(x));
                    if part_rows(grid, start as int).contains(x) {
                        assert(part_rows(grid, l).contains(x));
                    }
                }
                assert forall|x: int| 0 <= x < grid.cols implies (#[trigger] seen_cols@[x]
                    <==> col_reached(grid, start + 1, x)) by {
                    assert(col_reached(grid, start + 1, x) <==> col_reached(grid, start as int, x)
                        || part_cols(grid, start as int).contains(x));
                    if part_cols(grid, start as int).contains(x) {
                        assert(part_cols(grid, l).contains(x));
                    }
                }
                assert(parts_up_to(grid, (start + 1) as nat) =~= parts_up_to(grid, start as nat));
            }
        } else {
            proof {
                assert forall|r: int, c: int| #[trigger] grid.has(r, c) implies (seen_rows@[r]
                    <==> seen_cols@[c]) by {
                    assert(grid.cells.contains((r, c)));
                    lemma_reached_closed(grid, start as int, r, c);
                }
            }
            let ghost old_rows = seen_rows@;
            let ghost old_cols = seen_cols@;
            let (rows, cols) = find_part(
                &matrix,
                &transposed,
                start,
                &mut seen_rows,
                &mut seen_cols,
            );
            let sorted_rows: Vec<usize> = sort_numbers(&rows);
            let sorted_cols: Vec<usize> = sort_numbers(&cols);
            proof {
                let keep_row = |r: int| part_rows(grid, start as int).contains(r);
                let keep_col = |c: int| part_cols(grid, start as int).contains(c);
                lemma_sorted_listed(rows@, grid.rows, keep_row);
                lemma_sorted_listed(cols@, grid.cols, keep_col);
                lemma_listed(grid.rows, keep_row);
                lemma_listed(grid.cols, keep_col);
                lemma_fewer_countable(
                    grid.rows,
                    grid.cols,
                    sorted_rows@.len(),
                    sorted_cols@.len(),
                );
                assert forall|x: int| 0 <= x < grid.rows implies (#[trigger] seen_rows@[x]
                    <==> row_reached(grid, start + 1, x)) by {
                    assert(seen_rows@[x as usize as int] <==> old_rows[x as usize as int]
                        || part_rows(grid, start as int).contains(x));
                    assert(old_rows[x] <==> row_reached(grid, start as int, x));
                }
                assert forall|x: int| 0 <= x < grid.cols implies (#[trigger] seen_cols@[x]
                    <==> col_reached(grid, start + 1, x)) by {
                    assert(seen_cols@[x as usize as int] <==> old_cols[x as usize as int]
                        || part_cols(grid, start as int).contains(x));
                    assert(old_cols[x] <==> col_reached(grid, start as int, x));
                }
            }
            let found = matrix.reordered(sorted_rows.as_slice(), sorted_cols.as_slice());
            proof {
                assert(found@ == part(grid, start as int));
            }
            result.push(found);
            proof {
                assert(listed((start + 1) as nat, keep) == listed(start as nat, keep).push(start));
                assert(parts_up_to(grid, (start + 1) as nat) =~= parts_up_to(
                    grid,
                    start as nat,
                ).push(part(grid, start as int)));
                assert(grids(result@) =~= grids(before).push(found@));
            }
        }
        start = start + 1;
    }
    result
}

/// The set cells in the part of row `start`.
spec fn part_cells(grid: Grid, start: int) -> Position {
    grid.cells.filter(|p: (int, int)| part_rows(grid, start).contains(p.0))
}

/// The set cells in the parts of the rows below `end`.
spec fn cells_up_to(grid: Grid, end: int) -> Position {
    grid.cells.filter(|p: (int, int)| row_reached(grid, end, p.0))
}

proof fn lemma_part(grid: Grid, start: int)
    requires
        grid.wf(),
        countable(grid.rows, grid.cols),
        0 <= start < grid.rows,
    ensures
        part(grid, start).wf(),
        part(grid, start).rows <= grid.rows,
        part(grid, start).cols <= grid.cols,
        isomorphic(part_cells(grid, start), part(grid, start).cells),
{
    let keep_row = |r: int| part_rows(grid, start).contains(r);
    let keep_col = |c: int| part_cols(grid, start).contains(c);
    let rows = listed(grid.rows, keep_row);
    let cols = listed(grid.cols, keep_col);
    lemma_listed(grid.rows, keep_row);
    lemma_listed(grid.cols, keep_col);
    lemma_part_closed(grid, start);
    assert(part_cells(grid, start) =~= selected(grid, rows, cols)) by {
        assert forall|p: (int, int)| grid.cells.contains(p) implies (part_cells(
            grid,
            start,
        ).contains(p) <==> selected(grid, rows, cols).contains(p)) by {
            assert(grid.has(p.0, p.1));
            if keep_row(p.0) {
                assert(rows.contains(p.0 as usize));
                assert(keep_col(p.1));
                assert(cols.contains(p.1 as usize));
            }
            if rows.contains(p.0 as usize) {
                let i = choose|i: int| 0 <= i < rows.len() && rows[i] == p.0 as usize;
                assert(keep_row(rows[i] as int));
            }
        }
    }
    lemma_selected_isomorphic(grid, rows, cols);
}

proof fn lemma_parts_up_to(grid: Grid, end: nat)
    requires
        grid.wf(),
        countable(grid.rows, grid.cols),
        end <= grid.rows,
    ensures
        grundy(cells_up_to(grid, end as int)) == nim_total(values(parts_up_to(grid, end))),
        cells_up_to(grid, end as int).len() == node_count(parts_up_to(grid, end)),
        forall|i: int|
            0 <= i < parts_up_to(grid, end).len() ==> (#[trigger] parts_up_to(grid, end)[i]).wf()
                && countable(parts_up_to(grid, end)[i].rows, parts_up_to(grid, end)[i].cols)
                && is_part(grid.cells, parts_up_to(grid, end)[i]),
    decreases end,
{
    let keep = |r: int| leads(grid, r);
    let now = parts_up_to(grid, end);
    if end == 0 {
        assert(cells_up_to(grid, 0) =~= Set::empty());
        assert(now =~= Seq::empty());
        lemma_grundy_empty();
    } else {
        let last = end - 1;
        let old = parts_up_to(grid, last as nat);
        let old_cells = cells_up_to(grid, last);
        let more = part_cells(grid, last);
        lemma_parts_up_to(grid, last as nat);
        lemma_leads(grid, last);
        lemma_reached_grows(grid, last);
        assert(cells_up_to(grid, end as int) =~= old_cells.union(more)) by {
            assert forall|p: (int, int)| grid.cells.contains(p) implies (cells_up_to(
                grid,
                end as int,
            ).contains(p) <==> old_cells.union(more).contains(p)) by {
                assert(row_reached(grid, last + 1, p.0) <==> row_reached(grid, last, p.0)
                    || part_rows(grid, last).contains(p.0));
            }
        }
        vstd::set_lib::lemma_len_subset(old_cells, grid.cells);
        vstd::set_lib::lemma_len_subset(more, grid.cells);
        if keep(last) {
            lemma_part(grid, last);
            assert(now =~= old.push(part(grid, last)));
            assert(separate(old_cells, more)) by {
                assert forall|p: (int, int), q: (int, int)|
                    #[trigger] old_cells.contains(p) && #[trigger] more.contains(q) implies p.0
                    != q.0 && p.1 != q.1 by {
                    let l = choose|l: int|
                        0 <= l < last && #[trigger] part_rows(grid, l).contains(p.0);
                    lemma_part_closed(grid, l);
                    lemma_part_closed(grid, last);
                    assert(grid.has(p.0, p.1) && grid.has(q.0, q.1));
                    if p.0 == q.0 || p.1 == q.1 {
                        assert(part_rows(grid, l).contains(q.0));
                        lemma_part_same(grid, l, q.0);
                        lemma_part_same(grid, last, q.0);
                        assert(part_rows(grid, l).contains(last));
                    }
                }
            }
            lemma_grundy_sum(old_cells, more);
            lemma_isomorphic(more, part(grid, last).cells);
            assert(old_cells.disjoint(more)) by {
                assert forall|p: (int, int)| old_cells.contains(p) implies !more.contains(p) by {}
            }
            vstd::set_lib::lemma_set_disjoint_lens(old_cells, more);
            assert(now.drop_last() =~= old);
            assert(values(now).drop_last() =~= values(old));
            assert(more.subset_of(grid.cells));
            assert(is_part(grid.cells, part(grid, last)));
            lemma_fewer_countable(
                grid.rows,
                grid.cols,
                part(grid, last).rows,
                part(grid, last).cols,
            );
            assert forall|i: int| 0 <= i < now.len() implies (#[trigger] now[i]).wf() && countable(
                now[i].rows,
                now[i].cols,
            ) && is_part(grid.cells, now[i]) by {
                if i < old.len() {
                    assert(now[i] == old[i]);
                }
            }
        } else {
            assert(now =~= old);
            let l = choose|l: int|
                0 <= l < last && #[trigger] part_rows(grid, l).contains(last);
            lemma_part_same(grid, l, last);
            assert(old_cells.union(more) =~= old_cells) by {
                assert forall|p: (int, int)| more.contains(p) implies old_cells.contains(p) by {
                    assert(part_rows(grid, l).contains(p.0));
                }
            }
        }
    }
}

/// A matrix without its empty rows and columns is the same game.
pub proof fn lemma_squeezed_isomorphic(grid: Grid)
    requires
        grid.wf(),
        countable(grid.rows, grid.cols),
    ensures
        squeezed(grid).wf(),
        countable(squeezed(grid).rows, squeezed(grid).cols),
        isomorphic(grid.cells, squeezed(grid).cells),
{
    let keep_row = |r: int| row_used(grid, r);
    let keep_col = |c: int| col_used(grid, c);
    let rows = used_rows(grid);
    let cols = used_cols(grid);
    lemma_listed(grid.rows, keep_row);
    lemma_listed(grid.cols, keep_col);
    lemma_fewer_countable(grid.rows, grid.cols, rows.len(), cols.len());
    assert(selected(grid, rows, cols) =~= grid.cells) by {
        assert forall|p: (int, int)| grid.cells.contains(p) implies selected(
            grid,
            rows,
            cols,
        ).contains(p) by {
            assert(grid.has(p.0, p.1));
            assert(keep_row(p.0) && keep_col(p.1));
            assert(rows.contains(p.0 as usize));
            assert(cols.contains(p.1 as usize));
        }
    }
    lemma_selected_isomorphic(grid, rows, cols);
}

/// The parts of a matrix are parts of its game, have all its nodes between them, and their nimbers
/// add up to its nimber.
pub proof fn lemma_parts(grid: Grid)
    requires
        grid.wf(),
        countable(grid.rows, grid.cols),
    ensures
        grundy(grid.cells) == nim_total(values(parts(grid))),
        grid.cells.len() == node_count(parts(grid)),
        forall|i: int|
            0 <= i < parts(grid).len() ==> (#[trigger] parts(grid)[i]).wf() && countable(
                parts(grid)[i].rows,
                parts(grid)[i].cols,
            ) && is_part(grid.cells, parts(grid)[i]),
{
    lemma_parts_up_to(grid, grid.rows);
    assert(cells_up_to(grid, grid.rows as int) =~= grid.cells) by {
        assert forall|p: (int, int)| grid.cells.contains(p) implies cells_up_to(
            grid,
            grid.rows as int,
        ).contains(p) by {
            lemma_part_closed(grid, p.0);
            assert(part_rows(grid, p.0).contains(p.0));
        }
    }
}

} // verus!
