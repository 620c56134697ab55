//! The canonical game does not depend on the order of rows, on the order of columns, or on which of
//! the two is called rows.
use crate::colors::{is_renamed, lemma_injected, lemma_renamed_colors, refined_colors, Renaming};
use crate::components::{closed_part, col_used, leads, lemma_fewer_countable, lemma_part_closed};
use crate::components::{lemma_part_same, lemma_squeezed_isomorphic, part, part_cols, part_rows};
use crate::components::{parts, row_used, squeezed, used_cols, used_rows};
use crate::grid::{countable, lemma_from_fn_wf, Grid};
use crate::ordering::canonical_part;
use crate::renaming::{lemma_listed_members, lemma_listed_same, lemma_part_renamed};
use crate::renaming::{lemma_renamed_back, lemma_renamed_part, lemma_renamed_part_exactly};
use crate::renaming::{lemma_renamed_squeezed, lemma_transposed_part, lemma_transposed_twice};
use crate::renaming::{told_apart, turned_round};
use crate::solver::{canonical_parts, is_cancelled};
use crate::sorting::{is_permutation, lemma_listed, lemma_paired_values, lemma_permutation_covers};
use crate::sorting::listed;
use vstd::prelude::*;

verus! {

broadcast use lemma_from_fn_wf;

/// Whether `row` is the first row of the part of row `start`.
pub open spec fn is_leader(grid: Grid, start: int, row: int) -> bool {
    0 <= row < grid.rows && leads(grid, row) && part_rows(grid, start).contains(row)
}

/// The first row of the part of row `start`.
pub open spec fn leader(grid: Grid, start: int) -> int {
    choose|row: int| is_leader(grid, start, row)
}

proof fn lemma_leader_below(grid: Grid, start: int, row: int)
    requires
        grid.wf(),
        0 <= start < grid.rows,
        0 <= row < grid.rows,
        part_rows(grid, start).contains(row),
    ensures
        exists|first: int| is_leader(grid, start, first),
    decreases row,
{
    if leads(grid, row) {
        assert(is_leader(grid, start, row));
    } else {
        let lower = choose|r: int| 0 <= r < row && #[trigger] part_rows(grid, row).contains(r);
        lemma_part_same(grid, start, row);
        lemma_leader_below(grid, start, lower);
    }
}

/// Every row has a first row of its part, which has the same part.
proof fn lemma_leader(grid: Grid, start: int)
    requires
        grid.wf(),
        0 <= start < grid.rows,
    ensures
        is_leader(grid, start, leader(grid, start)),
        part_rows(grid, leader(grid, start)) == part_rows(grid, start),
        part(grid, leader(grid, start)) == part(grid, start),
{
    lemma_part_closed(grid, start);
    lemma_leader_below(grid, start, start);
    let first = leader(grid, start);
    lemma_part_same(grid, start, first);
    lemma_listed_same(
        grid.rows,
        |r: int| part_rows(grid, first).contains(r),
        |r: int| part_rows(grid, start).contains(r),
    );
    lemma_listed_same(
        grid.cols,
        |c: int| part_cols(grid, first).contains(c),
        |c: int| part_cols(grid, start).contains(c),
    );
}

/// Two first rows of one part are the same.
proof fn lemma_leader_unique(grid: Grid, a: int, b: int)
    requires
        grid.wf(),
        0 <= a < grid.rows,
        0 <= b < grid.rows,
        leads(grid, a),
        leads(grid, b),
        part_rows(grid, a).contains(b),
    ensures
        a == b,
{
    lemma_part_same(grid, a, b);
    lemma_part_closed(grid, a);
    if a < b {
        assert(part_rows(grid, b).contains(a));
    } else if b < a {
        assert(part_rows(grid, a).contains(b));
    }
}

/// The first rows of the parts.
pub open spec fn leaders(grid: Grid) -> Seq<usize> {
    listed(grid.rows, |r: int| leads(grid, r))
}

/// Whether `to` takes rows of `a` to rows of `b`, rows of different parts to rows of different parts.
pub open spec fn keeps_parts(a: Grid, b: Grid, to: spec_fn(int) -> int) -> bool {
    &&& forall|r: int| 0 <= r < a.rows ==> 0 <= #[trigger] to(r) < b.rows
    &&& forall|r: int, s: int|
        0 <= r < a.rows && 0 <= s < a.rows && part_rows(b, #[trigger] to(r)).contains(
            #[trigger] to(s),
        ) ==> part_rows(a, r).contains(s)
}

/// Parts that stay different have different first rows.
proof fn lemma_leaders_matched(a: Grid, b: Grid, to: spec_fn(int) -> int)
    requires
        a.wf(),
        b.wf(),
        a.rows <= usize::MAX,
        b.rows <= usize::MAX,
        keeps_parts(a, b, to),
    ensures
        leaders(a).no_duplicates(),
        leaders(b).no_duplicates(),
        leaders(a).len() <= leaders(b).len(),
        forall|i: int|
            0 <= i < leaders(a).len() ==> (#[trigger] leaders(a)[i]) < a.rows && leads(
                a,
                leaders(a)[i] as int,
            ) && leaders(b).contains(leader(b, to(leaders(a)[i] as int)) as usize),
        forall|i: int, j: int|
            0 <= i < leaders(a).len() && 0 <= j < leaders(a).len() && i != j ==> leader(
                b,
                to(#[trigger] leaders(a)[i] as int),
            ) as usize != leader(b, to(#[trigger] leaders(a)[j] as int)) as usize,
{
    let old = leaders(a);
    let new = leaders(b);
    let pair = |r: usize| leader(b, to(r as int)) as usize;
    lemma_listed_members(a.rows, |r: int| leads(a, r));
    lemma_listed_members(b.rows, |r: int| leads(b, r));
    assert forall|i: int| 0 <= i < old.len() implies (#[trigger] old[i]) < a.rows && leads(
        a,
        old[i] as int,
    ) && new.contains(pair(old[i])) by {
        assert(old.contains(old[i]));
        let s = to(old[i] as int);
        assert(0 <= s < b.rows);
        lemma_leader(b, s);
        assert(new.contains(leader(b, s) as usize));
    }
    assert forall|i: int, j: int|
        0 <= i < old.len() && 0 <= j < old.len() && i != j implies pair(#[trigger] old[i]) != pair(
        #[trigger] old[j],
    ) by {
        let r = old[i] as int;
        let s = old[j] as int;
        assert(0 <= to(r) < b.rows && 0 <= to(s) < b.rows);
        lemma_leader(b, to(r));
        lemma_leader(b, to(s));
        if pair(old[i]) == pair(old[j]) {
            assert(leader(b, to(r)) == leader(b, to(s)));
            lemma_part_closed(b, to(s));
            assert(part_rows(b, to(r)).contains(to(s)));
            assert(part_rows(a, r).contains(s));
            lemma_leader_unique(a, r, s);
        }
    }
    assert forall|i: int| 0 <= i < old.len() implies new.contains(#[trigger] pair(old[i])) by {
        assert(old[i] < a.rows);
    }
    assert forall|i: int, j: int|
        0 <= i < old.len() && 0 <= j < old.len() && i != j implies #[trigger] pair(old[i])
        != #[trigger] pair(old[j]) by {
        assert(old[i] != old[j]);
    }
    lemma_injected(old, new, pair);
}

/// The normal forms of the parts, in the order of their first rows.
pub open spec fn normal_parts(grid: Grid) -> Seq<Grid> {
    parts(grid).map_values(|part: Grid| canonical_part(part))
}

/// Matrices whose parts can be matched so that the normal forms agree have the same normal forms.
proof fn lemma_matched_parts(a: Grid, b: Grid, to: spec_fn(int) -> int, from: spec_fn(int) -> int)
    requires
        a.wf(),
        b.wf(),
        a.rows <= usize::MAX,
        b.rows <= usize::MAX,
        keeps_parts(a, b, to),
        keeps_parts(b, a, from),
        forall|r: int|
            0 <= r < a.rows && leads(a, r) ==> canonical_part(part(a, r)) == canonical_part(
                part(b, #[trigger] to(r)),
            ),
    ensures
        normal_parts(a).to_multiset() == normal_parts(b).to_multiset(),
{
    let pair = |r: usize| leader(b, to(r as int)) as usize;
    let value = |r: usize| canonical_part(part(a, r as int));
    let other = |r: usize| canonical_part(part(b, r as int));
    let old = leaders(a);
    let new = leaders(b);
    lemma_leaders_matched(a, b, to);
    lemma_leaders_matched(b, a, from);
    assert forall|i: int| 0 <= i < old.len() implies new.contains(#[trigger] pair(old[i])) by {
        assert(old[i] < a.rows);
    }
    assert forall|i: int, j: int|
        0 <= i < old.len() && 0 <= j < old.len() && i != j implies #[trigger] pair(old[i])
        != #[trigger] pair(old[j]) by {
        assert(old[i] != old[j]);
    }
    assert forall|i: int| 0 <= i < old.len() implies #[trigger] value(old[i]) == other(
        pair(old[i]),
    ) by {
        let r = old[i] as int;
        assert(old[i] < a.rows && leads(a, r));
        assert(0 <= to(r) < b.rows);
        lemma_leader(b, to(r));
        assert(canonical_part(part(a, r)) == canonical_part(part(b, to(r))));
    }
    lemma_paired_values(old, new, pair, value, other);
    assert(old.map_values(value) =~= normal_parts(a));
    assert(new.map_values(other) =~= normal_parts(b));
}

/// The part of a row is a matrix that can be counted.
pub proof fn lemma_part_countable(grid: Grid, start: int)
    requires
        countable(grid.rows, grid.cols),
    ensures
        part(grid, start).wf(),
        countable(part(grid, start).rows, part(grid, start).cols),
{
    lemma_listed(grid.rows, |r: int| part_rows(grid, start).contains(r));
    lemma_listed(grid.cols, |c: int| part_cols(grid, start).contains(c));
    lemma_fewer_countable(grid.rows, grid.cols, part(grid, start).rows, part(grid, start).cols);
}

/// Whether in each independent part of the game lines of one colour are alike.
pub open spec fn parts_told_apart(grid: Grid) -> bool {
    forall|i: int|
        0 <= i < parts(squeezed(grid)).len() ==> told_apart(#[trigger] parts(squeezed(grid))[i])
}

/// Where in each part lines of one colour are alike, renaming lines keeps the canonical game.
pub proof fn lemma_renamed_canonical(a: Grid, b: Grid, names: Renaming)
    requires
        a.wf(),
        b.wf(),
        countable(a.rows, a.cols),
        is_renamed(a, b, names),
        parts_told_apart(a),
    ensures
        canonical_parts(a).to_multiset() == canonical_parts(b).to_multiset(),
        forall|kept: Seq<Grid>|
            is_cancelled(canonical_parts(a), kept) <==> is_cancelled(canonical_parts(b), kept),
{
    let old = squeezed(a);
    let new = squeezed(b);
    lemma_squeezed_isomorphic(a);
    lemma_squeezed_isomorphic(b);
    let inner = lemma_renamed_squeezed(a, b, names);
    let back = turned_round(inner);
    lemma_renamed_back(old, new, inner);
    assert(keeps_parts(old, new, inner.row_to)) by {
        assert forall|r: int, s: int|
            0 <= r < old.rows && 0 <= s < old.rows && part_rows(
                new,
                #[trigger] (inner.row_to)(r),
            ).contains(#[trigger] (inner.row_to)(s)) implies part_rows(old, r).contains(s) by {
            lemma_renamed_part_exactly(old, new, inner, r);
        }
    }
    assert(keeps_parts(new, old, back.row_to)) by {
        assert forall|r: int, s: int|
            0 <= r < new.rows && 0 <= s < new.rows && part_rows(
                old,
                #[trigger] (back.row_to)(r),
            ).contains(#[trigger] (back.row_to)(s)) implies part_rows(new, r).contains(s) by {
            lemma_renamed_part_exactly(new, old, back, r);
        }
    }
    assert forall|r: int| 0 <= r < old.rows && leads(old, r) implies canonical_part(part(old, r))
        == canonical_part(part(new, #[trigger] (inner.row_to)(r))) by {
        let list = leaders(old);
        lemma_listed_members(old.rows, |x: int| leads(old, x));
        assert(list.contains(r as usize));
        let i = choose|i: int| 0 <= i < list.len() && list[i] == r as usize;
        assert(parts(old)[i] == part(old, r));
        assert(told_apart(parts(old)[i]));
        assert(0 <= (inner.row_to)(r) < new.rows);
        lemma_part_countable(old, r);
        lemma_part_countable(new, (inner.row_to)(r));
        let lines = lemma_part_renamed(old, new, inner, r);
        lemma_renamed_part(part(old, r), part(new, (inner.row_to)(r)), lines);
    }
    lemma_matched_parts(old, new, inner.row_to, back.row_to);
    assert(normal_parts(old) =~= canonical_parts(a));
    assert(normal_parts(new) =~= canonical_parts(b));
}

/// Permuting rows and columns renames lines.
pub proof fn lemma_permuted_renamed(grid: Grid, rows: Seq<usize>, cols: Seq<usize>) -> (names:
    Renaming)
    requires
        grid.rows <= usize::MAX,
        grid.cols <= usize::MAX,
        is_permutation(rows, grid.rows),
        is_permutation(cols, grid.cols),
    ensures
        is_renamed(grid, grid.reordered(rows, cols), names),
        forall|r: int| #[trigger] (names.row_from)(r) == rows[r],
        forall|c: int| #[trigger] (names.col_from)(c) == cols[c],
{
    let permuted = grid.reordered(rows, cols);
    let names = Renaming {
        row_to: |r: int| rows.index_of(r as usize),
        row_from: |r: int| rows[r] as int,
        col_to: |c: int| cols.index_of(c as usize),
        col_from: |c: int| cols[c] as int,
    };
    lemma_permutation_covers(rows, grid.rows);
    lemma_permutation_covers(cols, grid.cols);
    assert(is_renamed(grid, permuted, names)) by {
        assert forall|r: int| 0 <= r < grid.rows implies 0 <= #[trigger] (names.row_to)(r)
            < grid.rows && (names.row_from)((names.row_to)(r)) == r by {
            assert(rows.contains(r as usize));
        }
        assert forall|r: int| 0 <= r < grid.rows implies 0 <= #[trigger] (names.row_from)(r)
            < grid.rows && (names.row_to)((names.row_from)(r)) == r by {
            assert(rows.contains(rows[r]));
        }
        assert forall|c: int| 0 <= c < grid.cols implies 0 <= #[trigger] (names.col_to)(c)
            < grid.cols && (names.col_from)((names.col_to)(c)) == c by {
            assert(cols.contains(c as usize));
        }
        assert forall|c: int| 0 <= c < grid.cols implies 0 <= #[trigger] (names.col_from)(c)
            < grid.cols && (names.col_to)((names.col_from)(c)) == c by {
            assert(cols.contains(cols[c]));
        }
        assert forall|r: int, c: int| 0 <= r < grid.rows && 0 <= c < grid.cols implies (
        #[trigger] grid.has(r, c) <==> permuted.has((names.row_to)(r), (names.col_to)(c))) by {
            let s = (names.row_to)(r);
            let d = (names.col_to)(c);
            assert(0 <= s < grid.rows && (names.row_from)(s) == r);
            assert(0 <= d < grid.cols && (names.col_from)(d) == c);
        }
    }
    names
}

/// Where in each part lines of one colour are alike, the canonical game does not depend on the order
/// of rows and columns.
pub proof fn lemma_permuted_canonical(grid: Grid, rows: Seq<usize>, cols: Seq<usize>)
    requires
        grid.wf(),
        countable(grid.rows, grid.cols),
        is_permutation(rows, grid.rows),
        is_permutation(cols, grid.cols),
        parts_told_apart(grid),
    ensures
        canonical_parts(grid.reordered(rows, cols)).to_multiset()
            == canonical_parts(grid).to_multiset(),
        forall|kept: Seq<Grid>|
            is_cancelled(canonical_parts(grid.reordered(rows, cols)), kept) <==> is_cancelled(
                canonical_parts(grid),
                kept,
            ),
{
    let names = lemma_permuted_renamed(grid, rows, cols);
    lemma_renamed_canonical(grid, grid.reordered(rows, cols), names);
}

/// Leaving out empty lines and exchanging rows and columns can be done in either order.
pub proof fn lemma_squeezed_transposed(grid: Grid)
    requires
        grid.wf(),
        grid.rows + grid.cols <= usize::MAX,
    ensures
        squeezed(grid.transposed()) == squeezed(grid).transposed(),
{
    let turned = grid.transposed();
    assert forall|r: int| 0 <= r < grid.cols implies #[trigger] row_used(turned, r) == col_used(
        grid,
        r,
    ) by {
        if row_used(turned, r) {
            let c = choose|c: int| turned.has(r, c);
            assert(grid.has(c, r));
        }
        if col_used(grid, r) {
            let c = choose|c: int| grid.has(c, r);
            assert(grid.cells.contains((c, r)));
            assert(turned.has(r, c));
        }
    }
    assert forall|c: int| 0 <= c < grid.rows implies #[trigger] col_used(turned, c) == row_used(
        grid,
        c,
    ) by {
        if col_used(turned, c) {
            let r = choose|r: int| turned.has(r, c);
            assert(grid.has(c, r));
        }
        if row_used(grid, c) {
            let r = choose|r: int| grid.has(c, r);
            assert(grid.cells.contains((c, r)));
            assert(turned.has(r, c));
        }
    }
    lemma_listed_same(grid.cols, |r: int| row_used(turned, r), |c: int| col_used(grid, c));
    lemma_listed_same(grid.rows, |c: int| col_used(turned, c), |r: int| row_used(grid, r));
    lemma_listed_members(grid.rows, |r: int| row_used(grid, r));
    lemma_listed_members(grid.cols, |c: int| col_used(grid, c));
    assert(squeezed(turned).cells =~= squeezed(grid).transposed().cells);
}

/// No line of a squeezed matrix is empty.
pub proof fn lemma_squeezed_used(grid: Grid)
    requires
        grid.wf(),
        grid.rows + grid.cols <= usize::MAX,
    ensures
        forall|r: int| 0 <= r < squeezed(grid).rows ==> #[trigger] row_used(squeezed(grid), r),
{
    let rows = used_rows(grid);
    let cols = used_cols(grid);
    lemma_listed_members(grid.rows, |r: int| row_used(grid, r));
    lemma_listed_members(grid.cols, |c: int| col_used(grid, c));
    assert forall|r: int| 0 <= r < squeezed(grid).rows implies #[trigger] row_used(
        squeezed(grid),
        r,
    ) by {
        assert(rows.contains(rows[r]));
        let c = choose|c: int| grid.has(rows[r] as int, c);
        assert(grid.cells.contains((rows[r] as int, c)));
        assert(cols.contains(c as usize));
        let d = choose|d: int| 0 <= d < cols.len() && cols[d] == c as usize;
        assert(squeezed(grid).has(r, d));
    }
}

/// The part of a column of a row is the part of the row with rows and columns exchanged.
pub proof fn lemma_part_transposed(grid: Grid, row: int, col: int)
    requires
        grid.wf(),
        grid.rows + grid.cols <= usize::MAX,
        grid.has(row, col),
    ensures
        part_rows(grid.transposed(), col) == part_cols(grid, row),
        part_cols(grid.transposed(), col) == part_rows(grid, row),
        part(grid.transposed(), col) == part(grid, row).transposed(),
{
    let turned = grid.transposed();
    assert(grid.cells.contains((row, col)));
    assert forall|rows: Set<int>, cols: Set<int>| #[trigger]
        closed_part(turned, cols, rows) == closed_part(grid, rows, cols) by {
        if closed_part(turned, cols, rows) {
            assert forall|r: int, c: int| #[trigger] grid.has(r, c) implies (rows.contains(r)
                <==> cols.contains(c)) by {
                assert(grid.cells.contains((r, c)));
                assert(turned.has(c, r));
            }
        }
        if closed_part(grid, rows, cols) {
            assert forall|r: int, c: int| #[trigger] turned.has(r, c) implies (cols.contains(r)
                <==> rows.contains(c)) by {
                assert(grid.has(c, r));
            }
        }
    }
    assert forall|x: int| part_rows(turned, col).contains(x) <==> part_cols(grid, row).contains(
        x,
    ) by {
        if part_rows(turned, col).contains(x) {
            assert forall|rows: Set<int>, cols: Set<int>| #[trigger]
                closed_part(grid, rows, cols) && rows.contains(row) implies cols.contains(x) by {
                assert(closed_part(turned, cols, rows));
            }
        }
        if part_cols(grid, row).contains(x) {
            assert forall|cols: Set<int>, rows: Set<int>| #[trigger]
                closed_part(turned, cols, rows) && cols.contains(col) implies cols.contains(x) by {
                assert(closed_part(grid, rows, cols));
            }
        }
    }
    assert forall|x: int| part_cols(turned, col).contains(x) <==> part_rows(grid, row).contains(
        x,
    ) by {
        if part_cols(turned, col).contains(x) {
            assert forall|rows: Set<int>, cols: Set<int>| #[trigger]
                closed_part(grid, rows, cols) && rows.contains(row) implies rows.contains(x) by {
                assert(closed_part(turned, cols, rows));
            }
        }
        if part_rows(grid, row).contains(x) {
            assert forall|cols: Set<int>, rows: Set<int>| #[trigger]
                closed_part(turned, cols, rows) && cols.contains(col) implies rows.contains(x) by {
                assert(closed_part(grid, rows, cols));
            }
        }
    }
    assert(part_rows(turned, col) =~= part_cols(grid, row));
    assert(part_cols(turned, col) =~= part_rows(grid, row));
    lemma_listed_same(
        grid.cols,
        |r: int| part_rows(turned, col).contains(r),
        |c: int| part_cols(grid, row).contains(c),
    );
    lemma_listed_same(
        grid.rows,
        |c: int| part_cols(turned, col).contains(c),
        |r: int| part_rows(grid, row).contains(r),
    );
    lemma_listed_members(grid.rows, |r: int| part_rows(grid, row).contains(r));
    lemma_listed_members(grid.cols, |c: int| part_cols(grid, row).contains(c));
    assert(part(turned, col).cells =~= part(grid, row).transposed().cells);
}

/// A column of each row that is not empty.
pub open spec fn some_col(grid: Grid) -> spec_fn(int) -> int {
    |r: int| choose|c: int| grid.has(r, c)
}

proof fn lemma_some_col(grid: Grid)
    requires
        grid.wf(),
        countable(grid.rows, grid.cols),
        forall|r: int| 0 <= r < grid.rows ==> #[trigger] row_used(grid, r),
    ensures
        keeps_parts(grid, grid.transposed(), some_col(grid)),
        forall|r: int|
            0 <= r < grid.rows ==> canonical_part(part(grid, r)) == canonical_part(
                part(grid.transposed(), #[trigger] some_col(grid)(r)),
            ),
{
    let turned = grid.transposed();
    let to = some_col(grid);
    assert forall|r: int| 0 <= r < grid.rows implies grid.has(r, #[trigger] to(r)) && 0 <= to(r)
        < turned.rows by {
        assert(row_used(grid, r));
        assert(grid.cells.contains((r, to(r))));
    }
    assert forall|r: int, s: int|
        0 <= r < grid.rows && 0 <= s < grid.rows && part_rows(turned, #[trigger] to(r)).contains(
            #[trigger] to(s),
        ) implies part_rows(grid, r).contains(s) by {
        lemma_part_transposed(grid, r, to(r));
        lemma_part_closed(grid, r);
        assert(grid.has(s, to(s)));
    }
    assert forall|r: int| 0 <= r < grid.rows implies canonical_part(part(grid, r))
        == canonical_part(part(turned, #[trigger] to(r))) by {
        lemma_part_transposed(grid, r, to(r));
        lemma_part_countable(grid, r);
        lemma_transposed_part(part(grid, r));
    }
}

/// The canonical game does not depend on which lines are called rows: exchanging rows and columns
/// keeps it.
pub proof fn lemma_transposed_canonical(grid: Grid)
    requires
        grid.wf(),
        countable(grid.rows, grid.cols),
    ensures
        canonical_parts(grid.transposed()).to_multiset() == canonical_parts(grid).to_multiset(),
        forall|kept: Seq<Grid>|
            is_cancelled(canonical_parts(grid.transposed()), kept) <==> is_cancelled(
                canonical_parts(grid),
                kept,
            ),
{
    let old = squeezed(grid);
    let turned = grid.transposed();
    let new = squeezed(turned);
    assert(grid.cols * grid.rows == grid.rows * grid.cols) by (nonlinear_arith);
    lemma_squeezed_isomorphic(grid);
    lemma_squeezed_isomorphic(turned);
    lemma_squeezed_transposed(grid);
    lemma_squeezed_used(grid);
    lemma_squeezed_used(turned);
    lemma_transposed_twice(old);
    lemma_some_col(old);
    lemma_some_col(new);
    lemma_matched_parts(old, new, some_col(old), some_col(new));
    assert(normal_parts(old) =~= canonical_parts(grid));
    assert(normal_parts(new) =~= canonical_parts(turned));
}

/// Permuting rows and columns permutes their refined colours.
pub proof fn lemma_colors_permuted(grid: Grid, rows: Seq<usize>, cols: Seq<usize>)
    requires
        grid.wf(),
        grid.rows + grid.cols <= usize::MAX,
        is_permutation(rows, grid.rows),
        is_permutation(cols, grid.cols),
    ensures
        forall|r: int|
            0 <= r < grid.rows ==> #[trigger] refined_colors(grid.reordered(rows, cols)).rows[r]
                == refined_colors(grid).rows[rows[r] as int],
        forall|c: int|
            0 <= c < grid.cols ==> #[trigger] refined_colors(grid.reordered(rows, cols)).cols[c]
                == refined_colors(grid).cols[cols[c] as int],
{
    let permuted = grid.reordered(rows, cols);
    let names = lemma_permuted_renamed(grid, rows, cols);
    lemma_renamed_colors(grid, permuted, names);
    assert forall|r: int| 0 <= r < grid.rows implies #[trigger] refined_colors(permuted).rows[r]
        == refined_colors(grid).rows[rows[r] as int] by {
        assert((names.row_to)((names.row_from)(r)) == r);
    }
    assert forall|c: int| 0 <= c < grid.cols implies #[trigger] refined_colors(permuted).cols[c]
        == refined_colors(grid).cols[cols[c] as int] by {
        assert((names.col_to)((names.col_from)(c)) == c);
    }
}

} // verus!
