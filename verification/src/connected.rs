//! What the components of a canonical game are like: connected, and without empty lines.
use crate::colors::{is_renamed, same_up_to_order, Colors, Renaming};
use crate::colors::{lemma_refined_lengths, refined_colors};
use crate::components::{closed_part, col_used, lemma_part_closed, lemma_part_least};
use crate::components::{lemma_part_same, lemma_squeezed_isomorphic, part, part_cols, part_rows};
use crate::components::{parts, row_used, squeezed};
use crate::grid::{countable, grid_lt, lemma_from_fn_wf, Grid};
use crate::invariance::{lemma_part_transposed, lemma_permuted_renamed, lemma_squeezed_transposed};
use crate::invariance::{leaders, lemma_part_countable, lemma_squeezed_used};
use crate::ordering::{best_order, canonical_part, lemma_row_order, order_rounds, ordered};
use crate::ordering::row_order;
use crate::renaming::{lemma_listed_members, lemma_renamed_back, lemma_renamed_part_exactly};
use crate::renaming::turned_round;
use crate::solver::{canonical_parts, is_cancelled};
use crate::sorting::{by_number, is_permutation, lemma_by_number, lemma_sorting_exists, listed};
use crate::sorting::sorting;
use vstd::prelude::*;

verus! {

broadcast use lemma_from_fn_wf;

/// Whether no row and no column is empty.
pub open spec fn no_empty_line(grid: Grid) -> bool {
    &&& forall|r: int| 0 <= r < grid.rows ==> #[trigger] row_used(grid, r)
    &&& forall|c: int| 0 <= c < grid.cols ==> #[trigger] col_used(grid, c)
}

/// Whether set cells join every row to all rows and all columns, over any number of steps.
pub open spec fn is_connected(grid: Grid) -> bool {
    &&& forall|r: int, x: int|
        0 <= r < grid.rows && 0 <= x < grid.rows ==> #[trigger] part_rows(grid, r).contains(x)
    &&& forall|r: int, c: int|
        0 <= r < grid.rows && 0 <= c < grid.cols ==> #[trigger] part_cols(grid, r).contains(c)
}

/// Whether the matrix can be a component: it has nodes, no empty line, and is connected.
pub open spec fn is_component(grid: Grid) -> bool {
    grid.rows > 0 && grid.cols > 0 && no_empty_line(grid) && is_connected(grid)
}

/// Being a component does not depend on the order of rows and columns.
proof fn lemma_component_reordered(a: Grid, b: Grid)
    requires
        a.wf(),
        b.wf(),
        same_up_to_order(a, b),
        is_component(a),
    ensures
        is_component(b),
{
    let names = choose|names: Renaming| is_renamed(a, b, names);
    let back = turned_round(names);
    lemma_renamed_back(a, b, names);
    assert forall|r: int| 0 <= r < b.rows implies #[trigger] row_used(b, r) by {
        let s = (names.row_from)(r);
        assert(0 <= s < a.rows && (names.row_to)(s) == r);
        assert(row_used(a, s));
        let c = choose|c: int| a.has(s, c);
        assert(a.cells.contains((s, c)));
        assert(b.has((names.row_to)(s), (names.col_to)(c)));
    }
    assert forall|c: int| 0 <= c < b.cols implies #[trigger] col_used(b, c) by {
        let d = (names.col_from)(c);
        assert(0 <= d < a.cols && (names.col_to)(d) == c);
        assert(col_used(a, d));
        let r = choose|r: int| a.has(r, d);
        assert(a.cells.contains((r, d)));
        assert(b.has((names.row_to)(r), (names.col_to)(d)));
    }
    assert forall|r: int, x: int| 0 <= r < b.rows && 0 <= x < b.rows implies #[trigger] part_rows(
        b,
        r,
    ).contains(x) by {
        let s = (names.row_from)(r);
        let y = (names.row_from)(x);
        assert(0 <= s < a.rows && 0 <= y < a.rows);
        lemma_renamed_part_exactly(a, b, names, s);
        assert(part_rows(a, s).contains(y));
        assert(part_rows(b, (names.row_to)(s)).contains((names.row_to)(y)));
    }
    assert forall|r: int, c: int| 0 <= r < b.rows && 0 <= c < b.cols implies #[trigger] part_cols(
        b,
        r,
    ).contains(c) by {
        let s = (names.row_from)(r);
        let d = (names.col_from)(c);
        assert(0 <= s < a.rows && 0 <= d < a.cols);
        lemma_renamed_part_exactly(a, b, names, s);
        assert(part_cols(a, s).contains(d));
        assert(part_cols(b, (names.row_to)(s)).contains((names.col_to)(d)));
    }
}

/// Being a component does not depend on which lines are called rows.
proof fn lemma_component_transposed(grid: Grid)
    requires
        grid.wf(),
        grid.rows + grid.cols <= usize::MAX,
        is_component(grid),
    ensures
        is_component(grid.transposed()),
{
    let turned = grid.transposed();
    assert forall|r: int| 0 <= r < turned.rows implies #[trigger] row_used(turned, r) by {
        assert(col_used(grid, r));
        let s = choose|s: int| grid.has(s, r);
        assert(grid.cells.contains((s, r)));
        assert(turned.has(r, s));
    }
    assert forall|c: int| 0 <= c < turned.cols implies #[trigger] col_used(turned, c) by {
        assert(row_used(grid, c));
        let s = choose|s: int| grid.has(c, s);
        assert(grid.cells.contains((c, s)));
        assert(turned.has(s, c));
    }
    assert forall|c: int, x: int| 0 <= c < turned.rows && 0 <= x < turned.rows implies #[trigger] part_rows(
        turned,
        c,
    ).contains(x) by {
        assert(col_used(grid, c));
        let r = choose|r: int| grid.has(r, c);
        assert(grid.cells.contains((r, c)));
        lemma_part_transposed(grid, r, c);
        assert(part_cols(grid, r).contains(x));
    }
    assert forall|c: int, x: int| 0 <= c < turned.rows && 0 <= x < turned.cols implies #[trigger] part_cols(
        turned,
        c,
    ).contains(x) by {
        assert(col_used(grid, c));
        let r = choose|r: int| grid.has(r, c);
        assert(grid.cells.contains((r, c)));
        lemma_part_transposed(grid, r, c);
        assert(part_rows(grid, r).contains(x));
    }
}

proof fn lemma_permuted_same(grid: Grid, rows: Seq<usize>, cols: Seq<usize>)
    requires
        grid.rows <= usize::MAX,
        grid.cols <= usize::MAX,
        is_permutation(rows, grid.rows),
        is_permutation(cols, grid.cols),
    ensures
        same_up_to_order(grid, grid.reordered(rows, cols)),
{
    let names = lemma_permuted_renamed(grid, rows, cols);
    assert(is_renamed(grid, grid.reordered(rows, cols), names));
}

proof fn lemma_best_order_same(
    grid: Grid,
    colors: Colors,
    rows: Seq<usize>,
    cols: Seq<usize>,
    best: Grid,
    rounds: nat,
)
    requires
        grid.rows <= usize::MAX,
        grid.cols <= usize::MAX,
        best.wf(),
        same_up_to_order(grid, best),
    ensures
        best_order(grid, colors, rows, cols, best, rounds).wf(),
        same_up_to_order(grid, best_order(grid, colors, rows, cols, best, rounds)),
    decreases rounds,
{
    if rounds > 0 {
        let next_rows = row_order(grid, colors.rows, cols);
        let next_cols = row_order(grid.transposed(), colors.cols, next_rows);
        lemma_row_order(grid, colors.rows, cols);
        lemma_row_order(grid.transposed(), colors.cols, next_rows);
        lemma_permuted_same(grid, next_rows, next_cols);
        let candidate = grid.reordered(next_rows, next_cols);
        let better = if grid_lt(candidate, best) {
            candidate
        } else {
            best
        };
        lemma_best_order_same(grid, colors, next_rows, next_cols, better, (rounds - 1) as nat);
    }
}

/// The order that is found leaves the matrix the same up to order.
pub proof fn lemma_ordered_same(grid: Grid)
    requires
        grid.rows + grid.cols <= usize::MAX,
    ensures
        ordered(grid).wf(),
        same_up_to_order(grid, ordered(grid)),
{
    let colors = refined_colors(grid);
    let rows = sorting(grid.rows, by_number(colors.rows));
    let cols = sorting(grid.cols, by_number(colors.cols));
    lemma_refined_lengths(grid);
    lemma_by_number(colors.rows);
    lemma_by_number(colors.cols);
    lemma_sorting_exists(grid.rows, by_number(colors.rows));
    lemma_sorting_exists(grid.cols, by_number(colors.cols));
    lemma_permuted_same(grid, rows, cols);
    lemma_best_order_same(
        grid,
        colors,
        rows,
        cols,
        grid.reordered(rows, cols),
        order_rounds(grid),
    );
}

/// The normal form of a component is a component.
proof fn lemma_canonical_component(grid: Grid)
    requires
        grid.wf(),
        grid.rows + grid.cols <= usize::MAX,
        is_component(grid),
    ensures
        is_component(canonical_part(grid)),
{
    lemma_ordered_same(grid);
    lemma_ordered_same(grid.transposed());
    lemma_component_transposed(grid);
    lemma_component_reordered(grid, ordered(grid));
    lemma_component_reordered(grid.transposed(), ordered(grid.transposed()));
}

/// The part of a row of a matrix without empty lines is a component.
proof fn lemma_part_is_component(grid: Grid, start: int)
    requires
        grid.wf(),
        grid.rows + grid.cols <= usize::MAX,
        no_empty_line(grid),
        0 <= start < grid.rows,
    ensures
        is_component(part(grid, start)),
{
    let keep_row = |r: int| part_rows(grid, start).contains(r);
    let keep_col = |c: int| part_cols(grid, start).contains(c);
    let rows = listed(grid.rows, keep_row);
    let cols = listed(grid.cols, keep_col);
    let p = part(grid, start);
    lemma_part_closed(grid, start);
    lemma_listed_members(grid.rows, keep_row);
    lemma_listed_members(grid.cols, keep_col);
    assert(rows.contains(start as usize));
    assert forall|r: int| 0 <= r < p.rows implies #[trigger] row_used(p, r) by {
        let s = rows[r] as int;
        assert(rows.contains(rows[r]));
        assert(row_used(grid, s));
        let c = choose|c: int| grid.has(s, c);
        assert(grid.cells.contains((s, c)));
        assert(part_cols(grid, start).contains(c));
        assert(cols.contains(c as usize));
        let d = choose|d: int| 0 <= d < cols.len() && cols[d] == c as usize;
        assert(p.has(r, d));
    }
    assert forall|c: int| 0 <= c < p.cols implies #[trigger] col_used(p, c) by {
        let d = cols[c] as int;
        assert(cols.contains(cols[c]));
        assert(col_used(grid, d));
        let s = choose|s: int| grid.has(s, d);
        assert(grid.cells.contains((s, d)));
        assert(part_rows(grid, start).contains(s));
        assert(rows.contains(s as usize));
        let r = choose|r: int| 0 <= r < rows.len() && rows[r] == s as usize;
        assert(p.has(r, c));
    }
    assert(p.cols > 0) by {
        let r = choose|r: int| 0 <= r < rows.len() && rows[r] == start as usize;
        assert(row_used(p, r));
        let c = choose|c: int| p.has(r, c);
        assert(p.cells.contains((r, c)));
    }
    assert forall|i: int, x: int| 0 <= i < p.rows && 0 <= x < p.rows implies #[trigger] part_rows(
        p,
        i,
    ).contains(x) by {
        lemma_joined_in_part(grid, start, i);
    }
    assert forall|i: int, c: int| 0 <= i < p.rows && 0 <= c < p.cols implies #[trigger] part_cols(
        p,
        i,
    ).contains(c) by {
        lemma_joined_in_part(grid, start, i);
    }
}

/// Every row of a part is joined to all its lines.
proof fn lemma_joined_in_part(grid: Grid, start: int, i: int)
    requires
        grid.wf(),
        grid.rows + grid.cols <= usize::MAX,
        0 <= start < grid.rows,
        0 <= i < part(grid, start).rows,
    ensures
        forall|x: int|
            0 <= x < part(grid, start).rows ==> #[trigger] part_rows(
                part(grid, start),
                i,
            ).contains(x),
        forall|c: int|
            0 <= c < part(grid, start).cols ==> #[trigger] part_cols(
                part(grid, start),
                i,
            ).contains(c),
{
    let keep_row = |r: int| part_rows(grid, start).contains(r);
    let keep_col = |c: int| part_cols(grid, start).contains(c);
    let rows = listed(grid.rows, keep_row);
    let cols = listed(grid.cols, keep_col);
    let p = part(grid, start);
    lemma_part_closed(grid, start);
    lemma_listed_members(grid.rows, keep_row);
    lemma_listed_members(grid.cols, keep_col);
    let first = rows[i] as int;
    assert(rows.contains(rows[i]));
    lemma_part_same(grid, start, first);
    assert forall|held: Set<int>, others: Set<int>| #[trigger]
        closed_part(p, held, others) && held.contains(i) implies {
        &&& forall|x: int| 0 <= x < p.rows ==> #[trigger] held.contains(x)
        &&& forall|c: int| 0 <= c < p.cols ==> #[trigger] others.contains(c)
    } by {
        let big_rows = Set::new(
            |r: int|
                exists|x: int| 0 <= x < rows.len() && #[trigger] rows[x] == r && held.contains(x),
        );
        let big_cols = Set::new(
            |c: int|
                exists|x: int| 0 <= x < cols.len() && #[trigger] cols[x] == c && others.contains(x),
        );
        assert(closed_part(grid, big_rows, big_cols)) by {
            assert forall|r: int, c: int| #[trigger] grid.has(r, c) implies (big_rows.contains(r)
                <==> big_cols.contains(c)) by {
                assert(grid.cells.contains((r, c)));
                if big_rows.contains(r) {
                    let x = choose|x: int|
                        0 <= x < rows.len() && #[trigger] rows[x] == r && held.contains(x);
                    assert(rows.contains(rows[x]));
                    assert(part_cols(grid, start).contains(c));
                    assert(cols.contains(c as usize));
                    let y = choose|y: int| 0 <= y < cols.len() && cols[y] == c as usize;
                    assert(p.has(x, y));
                    assert(others.contains(y));
                    assert(cols[y] == c);
                }
                if big_cols.contains(c) {
                    let y = choose|y: int|
                        0 <= y < cols.len() && #[trigger] cols[y] == c && others.contains(y);
                    assert(cols.contains(cols[y]));
                    assert(part_rows(grid, start).contains(r));
                    assert(rows.contains(r as usize));
                    let x = choose|x: int| 0 <= x < rows.len() && rows[x] == r as usize;
                    assert(p.has(x, y));
                    assert(held.contains(x));
                    assert(rows[x] == r);
                }
            }
        }
        assert(big_rows.contains(first)) by {
            assert(rows[i] == first);
        }
        lemma_part_least(grid, first, big_rows, big_cols);
        assert forall|x: int| 0 <= x < p.rows implies #[trigger] held.contains(x) by {
            assert(rows.contains(rows[x]));
            assert(big_rows.contains(rows[x] as int));
            let y = choose|y: int|
                0 <= y < rows.len() && #[trigger] rows[y] == rows[x] as int && held.contains(y);
            assert(x == y);
        }
        assert forall|c: int| 0 <= c < p.cols implies #[trigger] others.contains(c) by {
            assert(cols.contains(cols[c]));
            assert(big_cols.contains(cols[c] as int));
            let y = choose|y: int|
                0 <= y < cols.len() && #[trigger] cols[y] == cols[c] as int && others.contains(y);
            assert(c == y);
        }
    }
}

/// No row and no column of a squeezed matrix is empty.
proof fn lemma_squeezed_lines(grid: Grid)
    requires
        grid.wf(),
        grid.rows + grid.cols <= usize::MAX,
    ensures
        no_empty_line(squeezed(grid)),
{
    let small = squeezed(grid);
    lemma_squeezed_used(grid);
    lemma_squeezed_used(grid.transposed());
    lemma_squeezed_transposed(grid);
    assert forall|c: int| 0 <= c < small.cols implies #[trigger] col_used(small, c) by {
        assert(row_used(squeezed(grid.transposed()), c));
        let r = choose|r: int| small.transposed().has(c, r);
        assert(small.has(r, c));
    }
}

/// Every component of a canonical game has nodes, no empty row, no empty column, and is connected; and
/// the components are in strictly ascending order.
pub proof fn lemma_canonical_components(grid: Grid, kept: Seq<Grid>, i: int)
    requires
        grid.wf(),
        countable(grid.rows, grid.cols),
        is_cancelled(canonical_parts(grid), kept),
        0 <= i < kept.len(),
    ensures
        is_component(kept[i]),
        forall|j: int| i < j < kept.len() ==> grid_lt(kept[i], #[trigger] kept[j]),
{
    let small = squeezed(grid);
    let all = canonical_parts(grid);
    lemma_squeezed_isomorphic(grid);
    lemma_squeezed_lines(grid);
    assert(kept.contains(kept[i]));
    assert(all.to_multiset().count(kept[i]) % 2 == 1);
    assert(all.contains(kept[i])) by {
        broadcast use vstd::seq_lib::group_to_multiset_ensures;

        assert(all.to_multiset().contains(kept[i]));
    }
    let k = choose|k: int| 0 <= k < all.len() && all[k] == kept[i];
    let list = leaders(small);
    lemma_listed_members(small.rows, |r: int| crate::components::leads(small, r));
    assert(list[k] < small.rows);
    let start = list[k] as int;
    assert(parts(small)[k] == part(small, start));
    lemma_part_is_component(small, start);
    lemma_part_countable(small, start);
    lemma_canonical_component(part(small, start));
}

} // verus!
