//! A cheap normal form of a matrix under exchanges of rows, of columns, and of the two.
use crate::colors::{lemma_refined_lengths, refine_colors, refined_colors, Colors};
use crate::grid::{countable, grid_lt, lemma_from_fn_wf, Grid};
use crate::matrix::BitMatrix;
use crate::limits::{flipped, lemma_flipped_isomorphic};
use crate::nim::{isomorphic, keeps_lines, lemma_isomorphic_transitive, relabels, Position};
use crate::order::{lemma_lex_asymmetric, lemma_lex_total, lemma_lex_transitive, lex_lt};
use crate::order::{numbers_equal, word_values, words_precede};
use crate::sorting::{by_number, decides, is_permutation, is_ranking, is_sorting, lemma_by_number};
use crate::sorting::{lemma_permutation_covers, lemma_sorting_exists, sort_indices, sorting};
use vstd::prelude::*;

verus! {

broadcast use lemma_from_fn_wf;

/// The words of row `row` with its columns in the order `cols`.
pub open spec fn packed(grid: Grid, row: int, cols: Seq<usize>) -> Seq<u64> {
    grid.reordered(seq![row as usize], cols).words()
}

/// The rank of rows by colour, then by their words with the columns in the order `cols`.
pub open spec fn by_pattern(grid: Grid, colors: Seq<usize>, cols: Seq<usize>) -> spec_fn(int, int) -> bool {
    |i: int, j: int|
        colors[i] < colors[j] || (colors[i] == colors[j] && lex_lt(
            word_values(packed(grid, i, cols)),
            word_values(packed(grid, j, cols)),
        ))
}

/// The rows by colour, then by their words with the columns in the order `cols`.
pub open spec fn row_order(grid: Grid, colors: Seq<usize>, cols: Seq<usize>) -> Seq<usize> {
    sorting(grid.rows, by_pattern(grid, colors, cols))
}

/// The lowest of `best` and the matrices met while rows and columns are ordered in turn, at most
/// `rounds` times and only until an order repeats.
pub open spec fn best_order(
    grid: Grid,
    colors: Colors,
    rows: Seq<usize>,
    cols: Seq<usize>,
    best: Grid,
    rounds: nat,
) -> Grid
    decreases rounds,
{
    if rounds == 0 {
        best
    } else {
        let next_rows = row_order(grid, colors.rows, cols);
        let next_cols = row_order(grid.transposed(), colors.cols, next_rows);
        let candidate = grid.reordered(next_rows, next_cols);
        let better = if grid_lt(candidate, best) {
            candidate
        } else {
            best
        };
        if next_rows == rows && next_cols == cols {
            better
        } else {
            best_order(grid, colors, next_rows, next_cols, better, (rounds - 1) as nat)
        }
    }
}

/// How often rows and columns are ordered at most.
pub open spec fn order_rounds(grid: Grid) -> nat {
    if grid.rows + grid.cols < 1 {
        1
    } else if grid.rows + grid.cols > 16 {
        16
    } else {
        grid.rows + grid.cols
    }
}

/// The matrix with its rows and columns in the order that the heuristic finds.
pub open spec fn ordered(grid: Grid) -> Grid {
    let colors = refined_colors(grid);
    let rows = sorting(grid.rows, by_number(colors.rows));
    let cols = sorting(grid.cols, by_number(colors.cols));
    best_order(grid, colors, rows, cols, grid.reordered(rows, cols), order_rounds(grid))
}

/// The lower of the ordered matrix and the ordered transposed matrix.
pub open spec fn canonical_part(grid: Grid) -> Grid {
    let normal = ordered(grid);
    let transposed = ordered(grid.transposed());
    if grid_lt(transposed, normal) {
        transposed
    } else {
        normal
    }
}

proof fn lemma_by_pattern(grid: Grid, colors: Seq<usize>, cols: Seq<usize>)
    ensures
        is_ranking(grid.rows, by_pattern(grid, colors, cols)),
{
    let lt = by_pattern(grid, colors, cols);
    assert forall|i: int, j: int| 0 <= i < grid.rows && 0 <= j < grid.rows implies !(
    #[trigger] lt(i, j) && lt(j, i)) by {
        lemma_lex_asymmetric(
            word_values(packed(grid, i, cols)),
            word_values(packed(grid, j, cols)),
        );
    }
    assert forall|i: int, j: int, k: int|
        0 <= i < grid.rows && 0 <= j < grid.rows && 0 <= k < grid.rows && !(#[trigger] lt(j, i)) && !(
        #[trigger] lt(k, j)) implies !lt(k, i) by {
        let a = word_values(packed(grid, i, cols));
        let b = word_values(packed(grid, j, cols));
        let c = word_values(packed(grid, k, cols));
        if lt(k, i) {
            lemma_lex_total(c, b);
            lemma_lex_total(b, a);
            if lex_lt(b, c) && lex_lt(c, a) {
                lemma_lex_transitive(b, c, a);
            }
        }
    }
}

/// The words of row `row` with its columns in the order `cols`.
fn packed_row(matrix: &BitMatrix, row: usize, cols: &Vec<usize>) -> (words: Vec<u64>)
    requires
        matrix.wf(),
        row < matrix@.rows,
        is_permutation(cols@, matrix@.cols),
    ensures
        words@ == packed(matrix@, row as int, cols@),
{
    let mut rows: Vec<usize> = Vec::new();
    rows.push(row);
    proof {
        assert(rows@ =~= seq![row]);
        assert(1 * cols@.len() <= matrix@.rows * matrix@.cols) by (nonlinear_arith)
            requires
                cols@.len() == matrix@.cols,
                matrix@.rows >= 1,
        ;
    }
    let packed = matrix.reordered(rows.as_slice(), cols.as_slice());
    let mut words: Vec<u64> = Vec::new();
    words.extend_from_slice(packed.words());
    proof {
        assert(words@ =~= packed@.words());
    }
    words
}

/// The rows by colour, then by their words with the columns in the order `cols`.
fn order_rows(matrix: &BitMatrix, colors: &Vec<usize>, cols: &Vec<usize>) -> (order: Vec<usize>)
    requires
        matrix.wf(),
        colors@.len() == matrix@.rows,
        is_permutation(cols@, matrix@.cols),
    ensures
        order@ == row_order(matrix@, colors@, cols@),
        is_permutation(order@, matrix@.rows),
{
    let mut entries: Vec<Vec<u64>> = Vec::new();
    let mut row: usize = 0;
    while row < matrix.rows()
        invariant
            matrix.wf(),
            is_permutation(cols@, matrix@.cols),
            row <= matrix@.rows,
            entries@.len() == row,
            forall|r: int|
                0 <= r < row ==> (#[trigger] entries@[r])@ == packed(matrix@, r, cols@),
        decreases matrix@.rows - row,
    {
        entries.push(packed_row(matrix, row, cols));
        row = row + 1;
    }
    let ghost lt = by_pattern(matrix@, colors@, cols@);
    let less = |i: usize, j: usize| -> (b: bool)
        requires
            i < entries@.len(),
            j < entries@.len(),
            entries@.len() == colors@.len(),
        ensures
            b == (colors@[i as int] < colors@[j as int] || (colors@[i as int] == colors@[j as int]
                && lex_lt(word_values(entries@[i as int]@), word_values(entries@[j as int]@)))),
        {
            colors[i] < colors[j] || (colors[i] == colors[j] && words_precede(
                entries[i].as_slice(),
                entries[j].as_slice(),
            ))
        };
    proof {
        lemma_by_pattern(matrix@, colors@, cols@);
        assert(decides(less, matrix@.rows, lt));
    }
    sort_indices(matrix.rows(), &less, Ghost(lt))
}

/// The places by the number there, in the order of the places where numbers are equal.
fn order_by_number(numbers: &Vec<usize>) -> (order: Vec<usize>)
    ensures
        order@ == sorting(numbers@.len(), by_number(numbers@)),
        is_permutation(order@, numbers@.len()),
{
    let ghost lt = by_number(numbers@);
    let less = |i: usize, j: usize| -> (b: bool)
        requires
            i < numbers@.len(),
            j < numbers@.len(),
        ensures
            b == (numbers@[i as int] < numbers@[j as int]),
        { numbers[i] < numbers[j] };
    proof {
        lemma_by_number(numbers@);
        assert(decides(less, numbers@.len(), lt));
        assert(numbers@.len() == numbers.len());
    }
    sort_indices(numbers.len(), &less, Ghost(lt))
}

/// Orders refined colour classes lexicographically. Alternating row and column
/// ordering is a fast heuristic for the colour classes that refinement leaves
/// unresolved. Cycle detection provides a deterministic stop condition.
pub fn refine_and_order(matrix: &BitMatrix) -> (best: BitMatrix)
    requires
        matrix.wf(),
    ensures
        best.wf(),
        best@ == ordered(matrix@),
{
    let transposed = matrix.transposed();
    let (row_colors, col_colors) = refine_colors(matrix);
    let ghost colors = Colors { rows: row_colors@, cols: col_colors@ };
    let mut rows: Vec<usize> = order_by_number(&row_colors);
    let mut cols: Vec<usize> = order_by_number(&col_colors);
    let mut best = matrix.reordered(rows.as_slice(), cols.as_slice());
    let total: usize = matrix.rows() + matrix.cols();
    let rounds: usize = if total < 1 {
        1
    } else if total > 16 {
        16
    } else {
        total
    };
    let mut left: usize = rounds;
    while left > 0
        invariant
            matrix.wf(),
            transposed.wf(),
            transposed@ == matrix@.transposed(),
            row_colors@.len() == matrix@.rows,
            col_colors@.len() == matrix@.cols,
            colors == (Colors { rows: row_colors@, cols: col_colors@ }),
            is_permutation(rows@, matrix@.rows),
            is_permutation(cols@, matrix@.cols),
            best.wf(),
            ordered(matrix@) == best_order(matrix@, colors, rows@, cols@, best@, left as nat),
        decreases left,
    {
        let next_rows: Vec<usize> = order_rows(matrix, &row_colors, &cols);
        let next_cols: Vec<usize> = order_rows(&transposed, &col_colors, &next_rows);
        let candidate = matrix.reordered(next_rows.as_slice(), next_cols.as_slice());
        if candidate.precedes(&best) {
            best = candidate;
        }
        let repeated: bool = numbers_equal(next_rows.as_slice(), rows.as_slice()) && numbers_equal(
            next_cols.as_slice(),
            cols.as_slice(),
        );
        if repeated {
            return best;
        }
        rows = next_rows;
        cols = next_cols;
        left = left - 1;
    }
    best
}

/// The normal form of a matrix that does not depend on which side is called rows.
pub fn canonical_component(component: &BitMatrix) -> (part: BitMatrix)
    requires
        component.wf(),
    ensures
        part.wf(),
        part@ == canonical_part(component@),
{
    let normal = refine_and_order(component);
    let transposed = refine_and_order(&component.transposed());
    if transposed.precedes(&normal) {
        transposed
    } else {
        normal
    }
}

/// The set cells of `grid` in the listed rows and columns.
pub open spec fn selected(grid: Grid, rows: Seq<usize>, cols: Seq<usize>) -> Position {
    grid.cells.filter(
        |p: (int, int)| rows.contains(p.0 as usize) && cols.contains(p.1 as usize),
    )
}

/// The place of `x` in `list`.
spec fn place_of(list: Seq<usize>, x: int) -> int {
    choose|i: int| 0 <= i < list.len() && list[i] == x as usize
}

/// Selecting rows and columns gives the game on the selected cells.
pub proof fn lemma_selected_isomorphic(grid: Grid, rows: Seq<usize>, cols: Seq<usize>)
    requires
        grid.wf(),
        grid.rows <= usize::MAX,
        grid.cols <= usize::MAX,
        rows.no_duplicates(),
        cols.no_duplicates(),
        forall|i: int| 0 <= i < rows.len() ==> #[trigger] rows[i] < grid.rows,
        forall|i: int| 0 <= i < cols.len() ==> #[trigger] cols[i] < grid.cols,
    ensures
        isomorphic(selected(grid, rows, cols), grid.reordered(rows, cols).cells),
{
    let a = selected(grid, rows, cols);
    let b = grid.reordered(rows, cols).cells;
    let f = |p: (int, int)| (place_of(rows, p.0), place_of(cols, p.1));
    assert forall|p: (int, int)| #[trigger] a.contains(p) implies {
        let i = place_of(rows, p.0);
        let j = place_of(cols, p.1);
        &&& 0 <= i < rows.len() && rows[i] == p.0
        &&& 0 <= j < cols.len() && cols[j] == p.1
    } by {
        assert(grid.cells.contains(p));
        assert(rows.contains(p.0 as usize));
        assert(cols.contains(p.1 as usize));
    }
    assert(keeps_lines(a, f)) by {
        assert forall|p: (int, int), q: (int, int)| #![trigger f(p), f(q)]
            a.contains(p) && a.contains(q) implies {
            &&& (p.0 == q.0 <==> f(p).0 == f(q).0)
            &&& (p.1 == q.1 <==> f(p).1 == f(q).1)
        } by {}
    }
    assert(a.map(f) =~= b) by {
        assert forall|x: (int, int)| a.map(f).contains(x) implies b.contains(x) by {
            let p = choose|p: (int, int)| a.contains(p) && f(p) == x;
            assert(grid.cells.contains((rows[x.0] as int, cols[x.1] as int)));
        }
        assert forall|x: (int, int)| b.contains(x) implies a.map(f).contains(x) by {
            let p = (rows[x.0] as int, cols[x.1] as int);
            assert(grid.cells.contains(p));
            assert(rows[x.0] == p.0 as usize && cols[x.1] == p.1 as usize);
            assert(a.contains(p));
            assert(f(p) == x);
        }
    }
    assert(relabels(a, b, f));
}

/// Permuting rows and columns keeps the game.
pub proof fn lemma_permuted_isomorphic(grid: Grid, rows: Seq<usize>, cols: Seq<usize>)
    requires
        grid.wf(),
        grid.rows <= usize::MAX,
        grid.cols <= usize::MAX,
        is_permutation(rows, grid.rows),
        is_permutation(cols, grid.cols),
    ensures
        isomorphic(grid.cells, grid.reordered(rows, cols).cells),
{
    lemma_permutation_covers(rows, grid.rows);
    lemma_permutation_covers(cols, grid.cols);
    assert(selected(grid, rows, cols) =~= grid.cells) by {
        assert forall|p: (int, int)| grid.cells.contains(p) implies selected(
            grid,
            rows,
            cols,
        ).contains(p) by {
            assert(rows.contains(p.0 as usize) && cols.contains(p.1 as usize));
        }
    }
    lemma_selected_isomorphic(grid, rows, cols);
}

/// Transposing keeps the game.
pub proof fn lemma_transposed_isomorphic(grid: Grid)
    requires
        grid.wf(),
    ensures
        isomorphic(grid.cells, grid.transposed().cells),
{
    assert(grid.transposed().cells =~= flipped(grid.cells)) by {
        assert forall|p: (int, int)| flipped(grid.cells).contains(p) implies grid.transposed().cells.contains(p) by {
            assert(grid.cells.contains((p.1, p.0)));
        }
    }
    lemma_flipped_isomorphic(grid.cells);
}

proof fn lemma_best_order_isomorphic(
    grid: Grid,
    colors: Colors,
    rows: Seq<usize>,
    cols: Seq<usize>,
    best: Grid,
    rounds: nat,
)
    requires
        grid.wf(),
        countable(grid.rows, grid.cols),
        is_permutation(cols, grid.cols),
        isomorphic(grid.cells, best.cells),
    ensures
        isomorphic(grid.cells, best_order(grid, colors, rows, cols, best, rounds).cells),
    decreases rounds,
{
    if rounds > 0 {
        let next_rows = row_order(grid, colors.rows, cols);
        let next_cols = row_order(grid.transposed(), colors.cols, next_rows);
        lemma_row_order(grid, colors.rows, cols);
        lemma_row_order(grid.transposed(), colors.cols, next_rows);
        lemma_permuted_isomorphic(grid, next_rows, next_cols);
        let candidate = grid.reordered(next_rows, next_cols);
        let better = if grid_lt(candidate, best) {
            candidate
        } else {
            best
        };
        lemma_best_order_isomorphic(grid, colors, next_rows, next_cols, better, (rounds - 1) as nat);
    }
}

/// There is an order of the rows by colour and words.
pub proof fn lemma_row_order(grid: Grid, colors: Seq<usize>, cols: Seq<usize>)
    requires
        grid.rows <= usize::MAX,
    ensures
        is_sorting(row_order(grid, colors, cols), grid.rows, by_pattern(grid, colors, cols)),
{
    lemma_by_pattern(grid, colors, cols);
    lemma_sorting_exists(grid.rows, by_pattern(grid, colors, cols));
}

/// Ordering the rows and columns of a matrix keeps the game.
pub proof fn lemma_ordered_isomorphic(grid: Grid)
    requires
        grid.wf(),
        countable(grid.rows, grid.cols),
    ensures
        isomorphic(grid.cells, ordered(grid).cells),
{
    let colors = refined_colors(grid);
    let rows = sorting(grid.rows, by_number(colors.rows));
    let cols = sorting(grid.cols, by_number(colors.cols));
    lemma_refined_lengths(grid);
    lemma_by_number(colors.rows);
    lemma_by_number(colors.cols);
    lemma_sorting_exists(grid.rows, by_number(colors.rows));
    lemma_sorting_exists(grid.cols, by_number(colors.cols));
    lemma_permuted_isomorphic(grid, rows, cols);
    lemma_best_order_isomorphic(
        grid,
        colors,
        rows,
        cols,
        grid.reordered(rows, cols),
        order_rounds(grid),
    );
}

/// The normal form of a matrix is the same game.
pub proof fn lemma_canonical_part_isomorphic(grid: Grid)
    requires
        grid.wf(),
        countable(grid.rows, grid.cols),
    ensures
        isomorphic(grid.cells, canonical_part(grid).cells),
{
    assert(grid.cols * grid.rows == grid.rows * grid.cols) by (nonlinear_arith);
    lemma_ordered_isomorphic(grid);
    lemma_ordered_isomorphic(grid.transposed());
    lemma_transposed_isomorphic(grid);
    lemma_isomorphic_transitive(
        grid.cells,
        grid.transposed().cells,
        ordered(grid.transposed()).cells,
    );
}

} // verus!
