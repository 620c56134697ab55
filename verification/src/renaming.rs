//! What the normal form of a game does not depend on: the order of rows, the order of columns, and
//! which of the two is called rows.
use crate::colors::{is_exchange, is_renamed, lemma_injected, lemma_refined_lengths};
use crate::colors::{lemma_renamed_colors, refined_colors, same_colors, Colors, Renaming};
use crate::components::{closed_part, col_used, lemma_part_least, part, part_cols, part_rows};
use crate::components::{row_used, squeezed, used_cols, used_rows};
use crate::grid::{countable, grid_lt, lemma_from_fn_wf, lemma_grid_order, Grid};
use crate::ordering::{best_order, by_pattern, canonical_part, lemma_row_order, order_rounds};
use crate::ordering::{ordered, row_order};
use crate::sorting::{by_number, goes_first, is_permutation, lemma_ascending_same};
use crate::sorting::{lemma_by_number, lemma_gathered, lemma_is_ascending, lemma_paired_values};
use crate::sorting::{lemma_listed, lemma_sorting_exists, listed, sorting};
use vstd::prelude::*;

verus! {

broadcast use lemma_from_fn_wf;

/// Whether `order` holds each index once, in the order of `colors`.
pub open spec fn sorts_colors(order: Seq<usize>, colors: Seq<usize>) -> bool {
    &&& is_permutation(order, colors.len())
    &&& forall|i: int, j: int|
        0 <= i < j < order.len() ==> colors[#[trigger] order[i] as int]
            <= colors[#[trigger] order[j] as int]
}

/// Whether rows of one colour hold the same cells, and columns of one colour too.
pub open spec fn lines_alike(grid: Grid) -> bool {
    let colors = refined_colors(grid);
    &&& forall|r: int, s: int, c: int|
        0 <= r < grid.rows && 0 <= s < grid.rows && 0 <= c < grid.cols && colors.rows[r]
            == colors.rows[s] ==> #[trigger] grid.has(r, c) == #[trigger] grid.has(s, c)
    &&& forall|r: int, c: int, d: int|
        0 <= r < grid.rows && 0 <= c < grid.cols && 0 <= d < grid.cols && colors.cols[c]
            == colors.cols[d] ==> #[trigger] grid.has(r, c) == #[trigger] grid.has(r, d)
}

/// Colours in order are the same colours, whatever the names of the lines.
proof fn lemma_colors_in_order(
    before: Seq<usize>,
    after: Seq<usize>,
    there: spec_fn(int) -> int,
    back: spec_fn(int) -> int,
    old_order: Seq<usize>,
    new_order: Seq<usize>,
)
    requires
        before.len() == after.len(),
        before.len() <= usize::MAX,
        is_exchange(before.len(), there, back),
        forall|x: int| 0 <= x < before.len() ==> #[trigger] after[there(x)] == before[x],
        sorts_colors(old_order, before),
        sorts_colors(new_order, after),
    ensures
        forall|i: int|
            0 <= i < before.len() ==> before[#[trigger] old_order[i] as int]
                == after[new_order[i] as int],
{
    let n = before.len();
    let old = Seq::new(n, |k: int| before[old_order[k] as int]);
    let new = Seq::new(n, |k: int| after[new_order[k] as int]);
    lemma_gathered(before, old_order);
    lemma_gathered(after, new_order);
    let places = Seq::new(n, |k: int| k as usize);
    let pair = |k: usize| there(k as int) as usize;
    let value = |k: usize| before[k as int];
    let renamed_value = |k: usize| after[k as int];
    assert forall|i: int| 0 <= i < n implies places.contains(#[trigger] pair(places[i])) by {
        assert(0 <= there(i) < n);
        assert(places[there(i)] == pair(places[i]));
    }
    assert forall|i: int, j: int| 0 <= i < n && 0 <= j < n && i != j implies #[trigger] pair(
        places[i],
    ) != #[trigger] pair(places[j]) by {
        assert(0 <= there(i) < n && 0 <= there(j) < n);
        assert(back(there(i)) == i && back(there(j)) == j);
    }
    assert forall|i: int| 0 <= i < n implies #[trigger] value(places[i]) == renamed_value(
        pair(places[i]),
    ) by {
        assert(0 <= there(i) < n);
        assert(after[there(i)] == before[i]);
    }
    lemma_paired_values(places, places, pair, value, renamed_value);
    assert(places.map_values(value) =~= before);
    assert(places.map_values(renamed_value) =~= after);
    lemma_is_ascending(old, before);
    lemma_is_ascending(new, after);
    lemma_ascending_same(before, after);
    assert forall|i: int| 0 <= i < n implies before[#[trigger] old_order[i] as int]
        == after[new_order[i] as int] by {
        assert(old[i] == new[i]);
    }
}

/// Where lines of one colour are alike, lines in the order of their colours give the same matrix,
/// whatever the names of the lines.
proof fn lemma_reordered_renamed(
    a: Grid,
    b: Grid,
    names: Renaming,
    old_rows: Seq<usize>,
    old_cols: Seq<usize>,
    new_rows: Seq<usize>,
    new_cols: Seq<usize>,
)
    requires
        a.rows + a.cols <= usize::MAX,
        is_renamed(a, b, names),
        same_colors(a, names, refined_colors(a), refined_colors(b)),
        lines_alike(a),
        sorts_colors(old_rows, refined_colors(a).rows),
        sorts_colors(old_cols, refined_colors(a).cols),
        sorts_colors(new_rows, refined_colors(b).rows),
        sorts_colors(new_cols, refined_colors(b).cols),
    ensures
        a.reordered(old_rows, old_cols) == b.reordered(new_rows, new_cols),
{
    let before = refined_colors(a);
    let after = refined_colors(b);
    lemma_colors_in_order(
        before.rows,
        after.rows,
        names.row_to,
        names.row_from,
        old_rows,
        new_rows,
    );
    lemma_colors_in_order(
        before.cols,
        after.cols,
        names.col_to,
        names.col_from,
        old_cols,
        new_cols,
    );
    let old = a.reordered(old_rows, old_cols);
    let new = b.reordered(new_rows, new_cols);
    assert forall|i: int, j: int| 0 <= i < a.rows && 0 <= j < a.cols implies a.has(
        #[trigger] old_rows[i] as int,
        #[trigger] old_cols[j] as int,
    ) == b.has(new_rows[i] as int, new_cols[j] as int) by {
        let r = old_rows[i] as int;
        let c = old_cols[j] as int;
        assert(0 <= r < a.rows && 0 <= c < a.cols);
        assert(0 <= new_rows[i] < a.rows && 0 <= new_cols[j] < a.cols);
        let s = (names.row_from)(new_rows[i] as int);
        let d = (names.col_from)(new_cols[j] as int);
        assert(0 <= s < a.rows && (names.row_to)(s) == new_rows[i]);
        assert(0 <= d < a.cols && (names.col_to)(d) == new_cols[j]);
        assert(after.rows[(names.row_to)(s)] == before.rows[s]);
        assert(after.cols[(names.col_to)(d)] == before.cols[d]);
        assert(before.rows[r] == before.rows[s]);
        assert(before.cols[c] == before.cols[d]);
        assert(a.has(r, c) == a.has(s, c));
        assert(a.has(s, c) == a.has(s, d));
        assert(a.has(s, d) <==> b.has((names.row_to)(s), (names.col_to)(d)));
    }
    assert(old.cells =~= new.cells) by {
        assert forall|p: (int, int)| old.cells.contains(p) == new.cells.contains(p) by {
            if 0 <= p.0 < a.rows && 0 <= p.1 < a.cols {
                assert(a.has(old_rows[p.0] as int, old_cols[p.1] as int) == b.has(
                    new_rows[p.0] as int,
                    new_cols[p.1] as int,
                ));
            }
        }
    }
}

/// An order of rows by colour and words is an order by colour.
proof fn lemma_row_order_by_color(grid: Grid, colors: Seq<usize>, cols: Seq<usize>)
    requires
        grid.rows <= usize::MAX,
        colors.len() == grid.rows,
    ensures
        sorts_colors(row_order(grid, colors, cols), colors),
{
    let order = row_order(grid, colors, cols);
    let lt = by_pattern(grid, colors, cols);
    lemma_row_order(grid, colors, cols);
    assert forall|i: int, j: int| 0 <= i < j < order.len() implies colors[#[trigger] order[i] as int]
        <= colors[#[trigger] order[j] as int] by {
        assert(goes_first(lt, order[i] as int, order[j] as int));
    }
}

proof fn lemma_sorting_by_color(colors: Seq<usize>)
    requires
        colors.len() <= usize::MAX,
    ensures
        sorts_colors(sorting(colors.len(), by_number(colors)), colors),
{
    let order = sorting(colors.len(), by_number(colors));
    lemma_by_number(colors);
    lemma_sorting_exists(colors.len(), by_number(colors));
    assert forall|i: int, j: int| 0 <= i < j < order.len() implies colors[#[trigger] order[i] as int]
        <= colors[#[trigger] order[j] as int] by {
        assert(goes_first(by_number(colors), order[i] as int, order[j] as int));
    }
}

/// Where every order by colour gives the same matrix, no other matrix is met.
proof fn lemma_best_order_stays(
    grid: Grid,
    colors: Colors,
    rows: Seq<usize>,
    cols: Seq<usize>,
    best: Grid,
    rounds: nat,
)
    requires
        grid.rows + grid.cols <= usize::MAX,
        colors.rows.len() == grid.rows,
        colors.cols.len() == grid.cols,
        forall|x: Seq<usize>, y: Seq<usize>|
            sorts_colors(x, colors.rows) && sorts_colors(y, colors.cols) ==> #[trigger]
                grid.reordered(x, y) == best,
    ensures
        best_order(grid, colors, rows, cols, best, rounds) == best,
    decreases rounds,
{
    if rounds > 0 {
        let next_rows = row_order(grid, colors.rows, cols);
        let next_cols = row_order(grid.transposed(), colors.cols, next_rows);
        lemma_row_order_by_color(grid, colors.rows, cols);
        lemma_row_order_by_color(grid.transposed(), colors.cols, next_rows);
        assert(grid.reordered(next_rows, next_cols) == best);
        lemma_best_order_stays(grid, colors, next_rows, next_cols, best, (rounds - 1) as nat);
    }
}

/// Where lines of one colour are alike, the order that is found gives the matrix that any order by
/// colour gives.
proof fn lemma_ordered_by_color(grid: Grid, rows: Seq<usize>, cols: Seq<usize>)
    requires
        grid.wf(),
        grid.rows + grid.cols <= usize::MAX,
        lines_alike(grid),
        sorts_colors(rows, refined_colors(grid).rows),
        sorts_colors(cols, refined_colors(grid).cols),
    ensures
        ordered(grid) == grid.reordered(rows, cols),
{
    let colors = refined_colors(grid);
    let same = |x: int| x;
    let names = Renaming { row_to: same, row_from: same, col_to: same, col_from: same };
    lemma_refined_lengths(grid);
    let first_rows = sorting(grid.rows, by_number(colors.rows));
    let first_cols = sorting(grid.cols, by_number(colors.cols));
    lemma_sorting_by_color(colors.rows);
    lemma_sorting_by_color(colors.cols);
    let best = grid.reordered(first_rows, first_cols);
    assert forall|x: Seq<usize>, y: Seq<usize>|
        sorts_colors(x, colors.rows) && sorts_colors(y, colors.cols) implies #[trigger]
    grid.reordered(x, y) == best by {
        lemma_reordered_renamed(grid, grid, names, x, y, first_rows, first_cols);
    }
    assert(grid.reordered(rows, cols) == best);
    lemma_best_order_stays(grid, colors, first_rows, first_cols, best, order_rounds(grid));
}

/// Where lines of one colour are alike, renaming lines does not change the order that is found.
proof fn lemma_renamed_ordered(a: Grid, b: Grid, names: Renaming)
    requires
        a.wf(),
        b.wf(),
        a.rows + a.cols <= usize::MAX,
        is_renamed(a, b, names),
        lines_alike(a),
    ensures
        ordered(a) == ordered(b),
{
    let before = refined_colors(a);
    let after = refined_colors(b);
    lemma_renamed_colors(a, b, names);
    lemma_renamed_alike(a, b, names);
    lemma_sorting_by_color(before.rows);
    lemma_sorting_by_color(before.cols);
    lemma_sorting_by_color(after.rows);
    lemma_sorting_by_color(after.cols);
    let old_rows = sorting(a.rows, by_number(before.rows));
    let old_cols = sorting(a.cols, by_number(before.cols));
    let new_rows = sorting(b.rows, by_number(after.rows));
    let new_cols = sorting(b.cols, by_number(after.cols));
    lemma_ordered_by_color(a, old_rows, old_cols);
    lemma_ordered_by_color(b, new_rows, new_cols);
    lemma_reordered_renamed(a, b, names, old_rows, old_cols, new_rows, new_cols);
}

/// Renamed lines are alike as the lines were.
proof fn lemma_renamed_alike(a: Grid, b: Grid, names: Renaming)
    requires
        is_renamed(a, b, names),
        same_colors(a, names, refined_colors(a), refined_colors(b)),
        lines_alike(a),
    ensures
        lines_alike(b),
{
    let before = refined_colors(a);
    let after = refined_colors(b);
    assert forall|r: int| 0 <= r < a.rows implies after.rows[r] == before.rows[#[trigger] (
    names.row_from)(r)] by {
        assert(after.rows[(names.row_to)((names.row_from)(r))] == before.rows[(names.row_from)(r)]);
    }
    assert forall|c: int| 0 <= c < a.cols implies after.cols[c] == before.cols[#[trigger] (
    names.col_from)(c)] by {
        assert(after.cols[(names.col_to)((names.col_from)(c))] == before.cols[(names.col_from)(c)]);
    }
    assert forall|r: int, c: int| 0 <= r < a.rows && 0 <= c < a.cols implies #[trigger] b.has(r, c)
        == a.has((names.row_from)(r), (names.col_from)(c)) by {
        let s = (names.row_from)(r);
        let d = (names.col_from)(c);
        assert(0 <= s < a.rows && 0 <= d < a.cols);
        assert(a.has(s, d) <==> b.has((names.row_to)(s), (names.col_to)(d)));
    }
}

/// Whether lines of one colour are alike, whichever lines are called rows.
pub open spec fn told_apart(grid: Grid) -> bool {
    lines_alike(grid) && lines_alike(grid.transposed())
}

/// Where lines of one colour are alike, renaming lines keeps the normal form.
pub proof fn lemma_renamed_part(a: Grid, b: Grid, names: Renaming)
    requires
        a.wf(),
        b.wf(),
        a.rows + a.cols <= usize::MAX,
        is_renamed(a, b, names),
        told_apart(a),
    ensures
        canonical_part(a) == canonical_part(b),
{
    let turned = Renaming {
        row_to: names.col_to,
        row_from: names.col_from,
        col_to: names.row_to,
        col_from: names.row_from,
    };
    let x = a.transposed();
    let y = b.transposed();
    assert(is_renamed(x, y, turned)) by {
        assert forall|r: int, c: int| 0 <= r < x.rows && 0 <= c < x.cols implies (#[trigger] x.has(
            r,
            c,
        ) <==> y.has((turned.row_to)(r), (turned.col_to)(c))) by {
            assert(a.has(c, r) <==> b.has((names.row_to)(c), (names.col_to)(r)));
        }
    }
    lemma_renamed_ordered(a, b, names);
    lemma_renamed_ordered(x, y, turned);
}

/// Exchanging rows and columns twice changes nothing.
pub proof fn lemma_transposed_twice(grid: Grid)
    requires
        grid.wf(),
    ensures
        grid.transposed().transposed() == grid,
{
    assert(grid.transposed().transposed().cells =~= grid.cells);
}

/// Exchanging rows and columns keeps the normal form.
pub proof fn lemma_transposed_part(grid: Grid)
    requires
        grid.wf(),
        countable(grid.rows, grid.cols),
    ensures
        canonical_part(grid.transposed()) == canonical_part(grid),
{
    lemma_transposed_twice(grid);
    assert(grid.cols * grid.rows == grid.rows * grid.cols) by (nonlinear_arith);
    lemma_ordered_wf(grid);
    lemma_ordered_wf(grid.transposed());
    let normal = ordered(grid);
    let turned = ordered(grid.transposed());
    lemma_grid_order(normal, turned, turned);
}

proof fn lemma_best_order_wf(
    grid: Grid,
    colors: Colors,
    rows: Seq<usize>,
    cols: Seq<usize>,
    best: Grid,
    rounds: nat,
)
    requires
        best.wf(),
    ensures
        best_order(grid, colors, rows, cols, best, rounds).wf(),
    decreases rounds,
{
    if rounds > 0 {
        let next_rows = row_order(grid, colors.rows, cols);
        let next_cols = row_order(grid.transposed(), colors.cols, next_rows);
        let candidate = grid.reordered(next_rows, next_cols);
        let better = if grid_lt(candidate, best) {
            candidate
        } else {
            best
        };
        lemma_best_order_wf(grid, colors, next_rows, next_cols, better, (rounds - 1) as nat);
    }
}

proof fn lemma_ordered_wf(grid: Grid)
    ensures
        ordered(grid).wf(),
{
    let colors = refined_colors(grid);
    let rows = sorting(grid.rows, by_number(colors.rows));
    let cols = sorting(grid.cols, by_number(colors.cols));
    let first = grid.reordered(rows, cols);
    lemma_best_order_wf(grid, colors, rows, cols, first, order_rounds(grid));
}

/// What a list of indices holds.
pub proof fn lemma_listed_members(n: nat, keep: spec_fn(int) -> bool)
    requires
        n <= usize::MAX,
    ensures
        listed(n, keep).no_duplicates(),
        forall|i: int| 0 <= i < listed(n, keep).len() ==> #[trigger] listed(n, keep)[i] < n,
        forall|x: usize| #[trigger] listed(n, keep).contains(x) <==> x < n && keep(x as int),
{
    let list = listed(n, keep);
    lemma_listed(n, keep);
    assert(list.no_duplicates()) by {
        assert forall|i: int, j: int|
            0 <= i < list.len() && 0 <= j < list.len() && i != j implies list[i] != list[j] by {
            if i < j {
                assert(list[i] < list[j]);
            } else {
                assert(list[j] < list[i]);
            }
        }
    }
    assert forall|x: usize| #[trigger] list.contains(x) <==> x < n && keep(x as int) by {
        if x < n && keep(x as int) {
            assert(list.contains(x as int as usize));
        }
    }
}

/// Conditions that agree list the same indices.
pub proof fn lemma_listed_same(n: nat, keep: spec_fn(int) -> bool, other: spec_fn(int) -> bool)
    requires
        forall|x: int| 0 <= x < n ==> #[trigger] keep(x) == other(x),
    ensures
        listed(n, keep) == listed(n, other),
    decreases n,
{
    if n > 0 {
        lemma_listed_same((n - 1) as nat, keep, other);
        assert(keep(n - 1) == other(n - 1));
    }
}

/// The place in `new` of what stands at a place in `old`.
pub open spec fn place_in(
    old: Seq<usize>,
    new: Seq<usize>,
    there: spec_fn(int) -> int,
) -> spec_fn(int) -> int {
    |i: int| new.index_of(there(old[i] as int) as usize)
}

proof fn lemma_place_in(
    n: nat,
    old: Seq<usize>,
    new: Seq<usize>,
    there: spec_fn(int) -> int,
    back: spec_fn(int) -> int,
)
    requires
        n <= usize::MAX,
        is_exchange(n, there, back),
        old.no_duplicates(),
        forall|i: int| 0 <= i < old.len() ==> #[trigger] old[i] < n,
        forall|x: int|
            0 <= x < n && old.contains(x as usize) ==> new.contains(#[trigger] there(x) as usize),
    ensures
        forall|i: int|
            0 <= i < old.len() ==> 0 <= #[trigger] place_in(old, new, there)(i) < new.len()
                && new[place_in(old, new, there)(i)] == there(old[i] as int),
        old.len() <= new.len() || !new.no_duplicates(),
{
    assert forall|i: int| 0 <= i < old.len() implies 0 <= #[trigger] place_in(old, new, there)(i)
        < new.len() && new[place_in(old, new, there)(i)] == there(old[i] as int) by {
        let x = old[i] as int;
        assert(old.contains(x as usize));
        assert(0 <= there(x) < n);
        assert(new.contains(there(x) as usize));
    }
    if new.no_duplicates() {
        let pair = |x: usize| there(x as int) as usize;
        assert forall|i: int| 0 <= i < old.len() implies new.contains(#[trigger] pair(old[i])) by {
            let x = old[i] as int;
            assert(old.contains(x as usize));
            assert(0 <= there(x) < n);
        }
        assert forall|i: int, j: int|
            0 <= i < old.len() && 0 <= j < old.len() && i != j implies #[trigger] pair(old[i])
            != #[trigger] pair(old[j]) by {
            assert(back(there(old[i] as int)) == old[i] && back(there(old[j] as int)) == old[j]);
            assert(0 <= there(old[i] as int) < n && 0 <= there(old[j] as int) < n);
        }
        lemma_injected(old, new, pair);
    }
}

proof fn lemma_places_exchange(
    n: nat,
    old: Seq<usize>,
    new: Seq<usize>,
    there: spec_fn(int) -> int,
    back: spec_fn(int) -> int,
)
    requires
        n <= usize::MAX,
        is_exchange(n, there, back),
        old.no_duplicates(),
        new.no_duplicates(),
        forall|i: int| 0 <= i < old.len() ==> #[trigger] old[i] < n,
        forall|i: int| 0 <= i < new.len() ==> #[trigger] new[i] < n,
        forall|x: int|
            0 <= x < n ==> (old.contains(x as usize) <==> new.contains(
                #[trigger] there(x) as usize,
            )),
    ensures
        old.len() == new.len(),
        is_exchange(old.len(), place_in(old, new, there), place_in(new, old, back)),
        forall|i: int|
            0 <= i < old.len() ==> new[#[trigger] place_in(old, new, there)(i)] == there(
                old[i] as int,
            ),
{
    assert(is_exchange(n, back, there));
    assert forall|x: int| 0 <= x < n && new.contains(x as usize) implies old.contains(
        #[trigger] back(x) as usize,
    ) by {
        assert(there(back(x)) == x);
    }
    lemma_place_in(n, old, new, there, back);
    lemma_place_in(n, new, old, back, there);
    let to = place_in(old, new, there);
    let from = place_in(new, old, back);
    assert forall|i: int| 0 <= i < old.len() implies 0 <= #[trigger] to(i) < old.len() && from(
        to(i),
    ) == i by {
        assert(new[to(i)] == there(old[i] as int));
        assert(0 <= from(to(i)) < old.len());
        assert(old[from(to(i))] == back(new[to(i)] as int));
        assert(back(there(old[i] as int)) == old[i]);
    }
    assert forall|i: int| 0 <= i < old.len() implies 0 <= #[trigger] from(i) < old.len() && to(
        from(i),
    ) == i by {
        assert(old[from(i)] == back(new[i] as int));
        assert(0 <= to(from(i)) < new.len());
        assert(new[to(from(i))] == there(old[from(i)] as int));
        assert(there(back(new[i] as int)) == new[i]);
    }
}

/// Selecting from renamed lines those that were selected before renames the lines of the selection.
proof fn lemma_selected_renamed(
    a: Grid,
    b: Grid,
    names: Renaming,
    old_rows: Seq<usize>,
    old_cols: Seq<usize>,
    new_rows: Seq<usize>,
    new_cols: Seq<usize>,
) -> (selected: Renaming)
    requires
        a.rows + a.cols <= usize::MAX,
        is_renamed(a, b, names),
        old_rows.no_duplicates(),
        new_rows.no_duplicates(),
        old_cols.no_duplicates(),
        new_cols.no_duplicates(),
        forall|i: int| 0 <= i < old_rows.len() ==> #[trigger] old_rows[i] < a.rows,
        forall|i: int| 0 <= i < new_rows.len() ==> #[trigger] new_rows[i] < a.rows,
        forall|i: int| 0 <= i < old_cols.len() ==> #[trigger] old_cols[i] < a.cols,
        forall|i: int| 0 <= i < new_cols.len() ==> #[trigger] new_cols[i] < a.cols,
        forall|x: int|
            0 <= x < a.rows ==> (old_rows.contains(x as usize) <==> new_rows.contains(
                #[trigger] (names.row_to)(x) as usize,
            )),
        forall|x: int|
            0 <= x < a.cols ==> (old_cols.contains(x as usize) <==> new_cols.contains(
                #[trigger] (names.col_to)(x) as usize,
            )),
    ensures
        is_renamed(a.reordered(old_rows, old_cols), b.reordered(new_rows, new_cols), selected),
{
    let selected = Renaming {
        row_to: place_in(old_rows, new_rows, names.row_to),
        row_from: place_in(new_rows, old_rows, names.row_from),
        col_to: place_in(old_cols, new_cols, names.col_to),
        col_from: place_in(new_cols, old_cols, names.col_from),
    };
    lemma_places_exchange(a.rows, old_rows, new_rows, names.row_to, names.row_from);
    lemma_places_exchange(a.cols, old_cols, new_cols, names.col_to, names.col_from);
    let old = a.reordered(old_rows, old_cols);
    let new = b.reordered(new_rows, new_cols);
    assert forall|r: int, c: int| 0 <= r < old.rows && 0 <= c < old.cols implies (
    #[trigger] old.has(r, c) <==> new.has((selected.row_to)(r), (selected.col_to)(c))) by {
        let s = (selected.row_to)(r);
        let d = (selected.col_to)(c);
        assert(0 <= s < old.rows && 0 <= d < old.cols);
        assert(new_rows[s] == (names.row_to)(old_rows[r] as int));
        assert(new_cols[d] == (names.col_to)(old_cols[c] as int));
        assert(a.has(old_rows[r] as int, old_cols[c] as int) <==> b.has(
            (names.row_to)(old_rows[r] as int),
            (names.col_to)(old_cols[c] as int),
        ));
    }
    selected
}

/// The names turned round.
pub open spec fn turned_round(names: Renaming) -> Renaming {
    Renaming {
        row_to: names.row_from,
        row_from: names.row_to,
        col_to: names.col_from,
        col_from: names.col_to,
    }
}

/// What is renamed can be renamed back.
pub proof fn lemma_renamed_back(a: Grid, b: Grid, names: Renaming)
    requires
        is_renamed(a, b, names),
    ensures
        is_renamed(b, a, turned_round(names)),
{
    assert forall|r: int, c: int| 0 <= r < b.rows && 0 <= c < b.cols implies (#[trigger] b.has(r, c)
        <==> a.has((names.row_from)(r), (names.col_from)(c))) by {
        let s = (names.row_from)(r);
        let d = (names.col_from)(c);
        assert(0 <= s < a.rows && 0 <= d < a.cols);
        assert(a.has(s, d) <==> b.has((names.row_to)(s), (names.col_to)(d)));
    }
}

/// Renaming lines keeps what is empty.
proof fn lemma_renamed_used(a: Grid, b: Grid, names: Renaming)
    requires
        a.wf(),
        is_renamed(a, b, names),
    ensures
        forall|r: int|
            0 <= r < a.rows && row_used(a, r) ==> row_used(b, #[trigger] (names.row_to)(r)),
        forall|c: int|
            0 <= c < a.cols && col_used(a, c) ==> col_used(b, #[trigger] (names.col_to)(c)),
{
    assert forall|r: int| 0 <= r < a.rows && row_used(a, r) implies row_used(
        b,
        #[trigger] (names.row_to)(r),
    ) by {
        let c = choose|c: int| a.has(r, c);
        assert(a.cells.contains((r, c)));
        assert(b.has((names.row_to)(r), (names.col_to)(c)));
    }
    assert forall|c: int| 0 <= c < a.cols && col_used(a, c) implies col_used(
        b,
        #[trigger] (names.col_to)(c),
    ) by {
        let r = choose|r: int| a.has(r, c);
        assert(a.cells.contains((r, c)));
        assert(b.has((names.row_to)(r), (names.col_to)(c)));
    }
}

/// Renaming lines renames the lines that are not empty.
pub proof fn lemma_renamed_squeezed(a: Grid, b: Grid, names: Renaming) -> (squeezed_names: Renaming)
    requires
        a.wf(),
        b.wf(),
        a.rows + a.cols <= usize::MAX,
        is_renamed(a, b, names),
    ensures
        is_renamed(squeezed(a), squeezed(b), squeezed_names),
{
    lemma_renamed_back(a, b, names);
    lemma_renamed_used(a, b, names);
    lemma_renamed_used(b, a, turned_round(names));
    lemma_listed_members(a.rows, |r: int| row_used(a, r));
    lemma_listed_members(b.rows, |r: int| row_used(b, r));
    lemma_listed_members(a.cols, |c: int| col_used(a, c));
    lemma_listed_members(b.cols, |c: int| col_used(b, c));
    assert forall|x: int| 0 <= x < a.rows implies (used_rows(a).contains(x as usize)
        <==> used_rows(b).contains(#[trigger] (names.row_to)(x) as usize)) by {
        let y = (names.row_to)(x);
        assert(0 <= y < a.rows);
        assert((names.row_from)(y) == x);
    }
    assert forall|x: int| 0 <= x < a.cols implies (used_cols(a).contains(x as usize)
        <==> used_cols(b).contains(#[trigger] (names.col_to)(x) as usize)) by {
        let y = (names.col_to)(x);
        assert(0 <= y < a.cols);
        assert((names.col_from)(y) == x);
    }
    lemma_selected_renamed(
        a,
        b,
        names,
        used_rows(a),
        used_cols(a),
        used_rows(b),
        used_cols(b),
    )
}

/// Renaming lines renames the lines of each part.
proof fn lemma_renamed_part_lines(a: Grid, b: Grid, names: Renaming, start: int)
    requires
        a.wf(),
        is_renamed(a, b, names),
        0 <= start < a.rows,
    ensures
        forall|x: int|
            part_rows(a, start).contains(x) ==> part_rows(b, (names.row_to)(start)).contains(
                #[trigger] (names.row_to)(x),
            ),
        forall|x: int|
            part_cols(a, start).contains(x) ==> part_cols(b, (names.row_to)(start)).contains(
                #[trigger] (names.col_to)(x),
            ),
{
    let to = (names.row_to)(start);
    assert forall|rows: Set<int>, cols: Set<int>| #[trigger]
        closed_part(b, rows, cols) && rows.contains(to) implies {
        &&& forall|x: int| part_rows(a, start).contains(x) ==> rows.contains(#[trigger] (
        names.row_to)(x))
        &&& forall|x: int| part_cols(a, start).contains(x) ==> cols.contains(#[trigger] (
        names.col_to)(x))
    } by {
        let old_rows = Set::new(|x: int| rows.contains((names.row_to)(x)));
        let old_cols = Set::new(|x: int| cols.contains((names.col_to)(x)));
        assert(closed_part(a, old_rows, old_cols)) by {
            assert forall|r: int, c: int| #[trigger] a.has(r, c) implies (old_rows.contains(r)
                <==> old_cols.contains(c)) by {
                assert(a.cells.contains((r, c)));
                assert(b.has((names.row_to)(r), (names.col_to)(c)));
            }
        }
        lemma_part_least(a, start, old_rows, old_cols);
        assert forall|x: int| part_rows(a, start).contains(x) implies rows.contains(#[trigger] (
        names.row_to)(x)) by {
            assert(old_rows.contains(x));
        }
        assert forall|x: int| part_cols(a, start).contains(x) implies cols.contains(#[trigger] (
        names.col_to)(x)) by {
            assert(old_cols.contains(x));
        }
    }
}

/// Renaming lines renames the lines of each part, and of no other.
pub proof fn lemma_renamed_part_exactly(a: Grid, b: Grid, names: Renaming, start: int)
    requires
        a.wf(),
        b.wf(),
        is_renamed(a, b, names),
        0 <= start < a.rows,
    ensures
        forall|x: int|
            0 <= x < a.rows ==> (part_rows(a, start).contains(x) <==> part_rows(
                b,
                (names.row_to)(start),
            ).contains(#[trigger] (names.row_to)(x))),
        forall|x: int|
            0 <= x < a.cols ==> (part_cols(a, start).contains(x) <==> part_cols(
                b,
                (names.row_to)(start),
            ).contains(#[trigger] (names.col_to)(x))),
{
    let back = turned_round(names);
    let to = (names.row_to)(start);
    assert(0 <= to < b.rows && (back.row_to)(to) == start);
    lemma_renamed_back(a, b, names);
    lemma_renamed_part_lines(a, b, names, start);
    lemma_renamed_part_lines(b, a, back, to);
    assert forall|x: int| 0 <= x < a.rows implies (part_rows(a, start).contains(x) <==> part_rows(
        b,
        to,
    ).contains(#[trigger] (names.row_to)(x))) by {
        assert((back.row_to)((names.row_to)(x)) == x);
    }
    assert forall|x: int| 0 <= x < a.cols implies (part_cols(a, start).contains(x) <==> part_cols(
        b,
        to,
    ).contains(#[trigger] (names.col_to)(x))) by {
        assert((back.col_to)((names.col_to)(x)) == x);
    }
}

/// Renaming lines renames the lines of each part.
pub proof fn lemma_part_renamed(a: Grid, b: Grid, names: Renaming, start: int) -> (part_names: Renaming)
    requires
        a.wf(),
        b.wf(),
        a.rows + a.cols <= usize::MAX,
        is_renamed(a, b, names),
        0 <= start < a.rows,
    ensures
        is_renamed(part(a, start), part(b, (names.row_to)(start)), part_names),
{
    let to = (names.row_to)(start);
    lemma_renamed_part_exactly(a, b, names, start);
    lemma_listed_members(a.rows, |r: int| part_rows(a, start).contains(r));
    lemma_listed_members(b.rows, |r: int| part_rows(b, to).contains(r));
    lemma_listed_members(a.cols, |c: int| part_cols(a, start).contains(c));
    lemma_listed_members(b.cols, |c: int| part_cols(b, to).contains(c));
    let old_rows = listed(a.rows, |r: int| part_rows(a, start).contains(r));
    let new_rows = listed(b.rows, |r: int| part_rows(b, to).contains(r));
    let old_cols = listed(a.cols, |c: int| part_cols(a, start).contains(c));
    let new_cols = listed(b.cols, |c: int| part_cols(b, to).contains(c));
    assert forall|x: int| 0 <= x < a.rows implies (old_rows.contains(x as usize)
        <==> new_rows.contains(#[trigger] (names.row_to)(x) as usize)) by {
        assert(0 <= (names.row_to)(x) < a.rows);
    }
    assert forall|x: int| 0 <= x < a.cols implies (old_cols.contains(x as usize)
        <==> new_cols.contains(#[trigger] (names.col_to)(x) as usize)) by {
        assert(0 <= (names.col_to)(x) < a.cols);
    }
    lemma_selected_renamed(a, b, names, old_rows, old_cols, new_rows, new_cols)
}

} // verus!
