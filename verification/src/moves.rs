//! The moves along one row of a matrix, up to the exchange of identical columns.
use crate::colors::{is_renamed, lemma_same_order_chain, lemma_same_order_reflexive, Renaming};
use crate::colors::same_up_to_order;
use crate::components::row_used;
use crate::grid::{cols_same, lemma_from_fn_wf, rows_same, Grid};
use crate::limits::{choices, cols_alike, own_rows_fit, row_classes};
use crate::nim::{aligned, in_one_row, is_option, Position};
use crate::sorting::{lemma_listed, listed};
use vstd::prelude::*;

verus! {

broadcast use lemma_from_fn_wf;

/// Whether `c` is the first of the columns that are the same as it.
pub open spec fn is_head(grid: Grid, c: int) -> bool {
    forall|d: int| 0 <= d < c ==> !(#[trigger] cols_same(grid, d, c))
}

/// Whether a column is the same as `c`.
pub open spec fn same_as(grid: Grid, c: int) -> spec_fn(int) -> bool {
    |d: int| cols_same(grid, c, d)
}

/// The columns that are the same as `c`.
pub open spec fn class_of(grid: Grid, c: int) -> Seq<usize> {
    listed(grid.cols, same_as(grid, c))
}

/// The first columns of the classes of identical columns.
pub open spec fn heads(grid: Grid) -> Seq<usize> {
    listed(grid.cols, |c: int| is_head(grid, c))
}

/// The classes of identical columns, in the order of their first columns.
pub open spec fn classes(grid: Grid) -> Seq<Seq<usize>> {
    heads(grid).map_values(|c: usize| class_of(grid, c as int))
}

/// The first columns of the classes of identical columns that row `row` has nodes in.
pub open spec fn row_heads(grid: Grid, row: int) -> Seq<usize> {
    listed(grid.cols, |c: int| is_head(grid, c) && grid.has(row, c))
}

/// The classes of identical columns that row `row` has nodes in.
pub open spec fn row_class_lists(grid: Grid, row: int) -> Seq<Seq<usize>> {
    row_heads(grid, row).map_values(|c: usize| class_of(grid, c as int))
}

/// In how many ways a number of columns can be chosen from each class.
pub open spec fn ways(lists: Seq<Seq<usize>>) -> nat
    decreases lists.len(),
{
    if lists.len() == 0 {
        1
    } else {
        ways(lists.drop_last()) * (lists.last().len() + 1)
    }
}

/// The number of ways, or the largest machine word if it is larger.
pub open spec fn capped_ways(lists: Seq<Seq<usize>>) -> nat {
    if ways(lists) <= usize::MAX {
        ways(lists)
    } else {
        usize::MAX as nat
    }
}

/// How many columns choice `n` takes from class `i`: the digit at place `i` of `n`, written with a
/// digit for each class that runs from zero to the size of the class.
pub open spec fn digit(lists: Seq<Seq<usize>>, n: nat, i: int) -> int {
    (n as int / (ways(lists.take(i)) as int)) % (lists[i].len() as int + 1)
}

/// Whether choice `n` takes column `c`: it is among the first of its class.
pub open spec fn takes(lists: Seq<Seq<usize>>, n: nat, c: int) -> bool {
    exists|i: int, x: int|
        0 <= i < lists.len() && 0 <= x < digit(lists, n, i) && x < lists[i].len()
            && #[trigger] lists[i][x] == c
}

/// The columns that choice `n` takes.
pub open spec fn taken_by(lists: Seq<Seq<usize>>, n: nat) -> Set<int> {
    Set::new(|c: int| takes(lists, n, c))
}

/// Whether moves are generated from row `r`, if it holds nodes: it differs from the row before.
pub open spec fn is_fresh(grid: Grid, r: int) -> bool {
    r == 0 || !rows_same(grid, r - 1, r)
}

/// The matrix without the nodes of row `row` in the columns `gone`.
pub open spec fn without_cols(grid: Grid, row: int, gone: Set<int>) -> Grid {
    Grid {
        cells: grid.cells.filter(|p: (int, int)| !(p.0 == row && gone.contains(p.1))),
        ..grid
    }
}

/// The rows from which moves are generated: rows with nodes that differ from the row before.
pub open spec fn move_rows(grid: Grid) -> Seq<usize> {
    listed(grid.rows, |r: int| row_used(grid, r) && is_fresh(grid, r))
}

/// The number of moves that are generated from row `row`.
pub open spec fn move_count(grid: Grid, row: int) -> nat {
    (capped_ways(row_class_lists(grid, row)) - 1) as nat
}

/// The number of moves that are generated from the rows below `end`.
pub open spec fn moves_up_to(grid: Grid, end: nat) -> nat
    decreases end,
{
    if end == 0 {
        0
    } else {
        let row = end - 1;
        moves_up_to(grid, (end - 1) as nat) + if is_fresh(grid, row) {
            move_count(grid, row)
        } else {
            0
        }
    }
}

/// The matrix after move `m` of row `row`.
pub open spec fn moved(grid: Grid, row: int, m: nat) -> Grid {
    without_cols(grid, row, taken_by(row_class_lists(grid, row), m + 1))
}

pub proof fn lemma_ways_positive(lists: Seq<Seq<usize>>)
    ensures
        ways(lists) >= 1,
    decreases lists.len(),
{
    if lists.len() > 0 {
        lemma_ways_positive(lists.drop_last());
        assert(ways(lists.drop_last()) * (lists.last().len() + 1) >= 1) by (nonlinear_arith)
            requires
                ways(lists.drop_last()) >= 1,
        ;
    }
}

/// What row classes hold: every node of the row is in one class, at one place.
pub proof fn lemma_row_classes(grid: Grid, row: int)
    requires
        grid.wf(),
        grid.cols <= usize::MAX,
    ensures
        ({
            let lists = row_class_lists(grid, row);
            &&& forall|i: int, x: int|
                0 <= i < lists.len() && 0 <= x < lists[i].len() ==> grid.has(
                    row,
                    #[trigger] lists[i][x] as int,
                )
            &&& forall|i: int, x: int, j: int, y: int|
                0 <= i < lists.len() && 0 <= x < lists[i].len() && 0 <= j < lists.len() && 0 <= y
                    < lists[j].len() ==> (i == j <==> cols_same(
                    grid,
                    #[trigger] lists[i][x] as int,
                    #[trigger] lists[j][y] as int,
                ))
            &&& forall|c: int| #[trigger]
                grid.has(row, c) ==> exists|i: int, x: int|
                    0 <= i < lists.len() && 0 <= x < lists[i].len() && #[trigger] lists[i][x] == c
            &&& forall|i: int, x: int, y: int|
                0 <= i < lists.len() && 0 <= x < y < lists[i].len() ==> #[trigger] lists[i][x]
                    < #[trigger] lists[i][y]
            &&& forall|i: int| 0 <= i < lists.len() ==> (#[trigger] lists[i]).len() > 0
        }),
{
    let lists = row_class_lists(grid, row);
    let keep = |c: int| is_head(grid, c) && grid.has(row, c);
    let firsts = row_heads(grid, row);
    lemma_listed(grid.cols, keep);
    assert forall|i: int| 0 <= i < lists.len() implies {
        let same = same_as(grid, firsts[i] as int);
        &&& #[trigger] lists[i] == listed(grid.cols, same)
        &&& crate::sorting::lists(lists[i], grid.cols, same)
        &&& lists[i].contains(firsts[i])
    } by {
        let same = same_as(grid, firsts[i] as int);
        lemma_listed(grid.cols, same);
        assert(keep(firsts[i] as int));
        assert(same(firsts[i] as int));
        assert(lists[i].contains(firsts[i] as int as usize));
    }
    assert forall|i: int, x: int| 0 <= i < lists.len() && 0 <= x < lists[i].len() implies grid.has(
        row,
        #[trigger] lists[i][x] as int,
    ) && cols_same(grid, firsts[i] as int, lists[i][x] as int) by {
        assert(keep(firsts[i] as int));
        assert(cols_same(grid, firsts[i] as int, lists[i][x] as int));
        assert(grid.has(row, firsts[i] as int));
    }
    assert forall|i: int, x: int, j: int, y: int|
        0 <= i < lists.len() && 0 <= x < lists[i].len() && 0 <= j < lists.len() && 0 <= y
            < lists[j].len() implies (i == j <==> cols_same(
        grid,
        #[trigger] lists[i][x] as int,
        #[trigger] lists[j][y] as int,
    )) by {
        let a = firsts[i] as int;
        let b = firsts[j] as int;
        let p = lists[i][x] as int;
        let q = lists[j][y] as int;
        assert(cols_same(grid, a, p) && cols_same(grid, b, q));
        if i == j {
            lemma_same_chain(grid, p, a, q);
        }
        if cols_same(grid, p, q) {
            lemma_same_chain(grid, a, p, q);
            lemma_same_chain(grid, a, q, b);
            assert(cols_same(grid, a, b) && cols_same(grid, b, a));
            assert(keep(a) && keep(b));
            if a < b {
                assert(!cols_same(grid, a, b));
            }
            if b < a {
                assert(!cols_same(grid, b, a));
            }
            if i < j {
                assert(firsts[i] < firsts[j]);
            }
            if j < i {
                assert(firsts[j] < firsts[i]);
            }
        }
    }
    assert forall|c: int| #[trigger] grid.has(row, c) implies exists|i: int, x: int|
        0 <= i < lists.len() && 0 <= x < lists[i].len() && #[trigger] lists[i][x] == c by {
        assert(grid.cells.contains((row, c)));
        let h = lemma_head_exists(grid, c);
        assert(grid.has(row, h));
        assert(grid.cells.contains((row, h)));
        assert(keep(h));
        assert(firsts.contains(h as usize));
        let i = choose|i: int| 0 <= i < firsts.len() && firsts[i] == h as usize;
        let same = same_as(grid, firsts[i] as int);
        assert(lists[i] == listed(grid.cols, same));
        assert(same(c));
        assert(lists[i].contains(c as usize));
        let x = choose|x: int| 0 <= x < lists[i].len() && lists[i][x] == c as usize;
        assert(lists[i][x] == c);
    }
}

/// Being the same can be chained and turned round.
pub proof fn lemma_same_chain(grid: Grid, a: int, b: int, c: int)
    ensures
        cols_same(grid, a, b) && cols_same(grid, b, c) ==> cols_same(grid, a, c),
        cols_same(grid, b, a) && cols_same(grid, b, c) ==> cols_same(grid, a, c),
        cols_same(grid, a, b) && cols_same(grid, c, b) ==> cols_same(grid, a, c),
        cols_same(grid, a, b) ==> cols_same(grid, b, a),
{
    if cols_same(grid, a, b) || cols_same(grid, b, a) {
        assert forall|r: int| #[trigger] grid.has(r, a) <==> #[trigger] grid.has(r, b) by {}
        if cols_same(grid, b, c) || cols_same(grid, c, b) {
            assert forall|r: int| #[trigger] grid.has(r, b) <==> #[trigger] grid.has(r, c) by {}
            assert forall|r: int| #[trigger] grid.has(r, a) <==> #[trigger] grid.has(r, c) by {
                assert(grid.has(r, a) <==> grid.has(r, b));
                assert(grid.has(r, b) <==> grid.has(r, c));
            }
        }
    }
}

/// Every column is the same as the first column of its class.
pub proof fn lemma_head_exists(grid: Grid, c: int) -> (h: int)
    requires
        0 <= c,
    ensures
        0 <= h <= c,
        is_head(grid, h),
        cols_same(grid, h, c),
    decreases c,
{
    if is_head(grid, c) {
        c
    } else {
        let d = choose|d: int| 0 <= d < c && #[trigger] cols_same(grid, d, c);
        let h = lemma_head_exists(grid, d);
        lemma_same_chain(grid, h, d, c);
        h
    }
}

/// The nodes of row `row` in the columns `list`.
pub open spec fn nodes_at(row: int, list: Seq<usize>) -> Position {
    Set::new(|p: (int, int)| p.0 == row && list.contains(p.1 as usize) && 0 <= p.1 <= usize::MAX)
}

proof fn lemma_nodes_at(row: int, list: Seq<usize>)
    requires
        list.no_duplicates(),
    ensures
        nodes_at(row, list).finite(),
        nodes_at(row, list).len() == list.len(),
    decreases list.len(),
{
    if list.len() == 0 {
        assert(nodes_at(row, list) =~= Set::empty());
    } else {
        let less = list.drop_last();
        lemma_nodes_at(row, less);
        let p = (row, list.last() as int);
        assert(!nodes_at(row, less).contains(p)) by {
            if less.contains(list.last()) {
                let i = choose|i: int| 0 <= i < less.len() && less[i] == list.last();
                assert(list[i] == list[list.len() - 1]);
            }
        }
        assert(nodes_at(row, list) =~= nodes_at(row, less).insert(p)) by {
            assert forall|q: (int, int)| nodes_at(row, list).contains(q) implies nodes_at(
                row,
                less,
            ).insert(p).contains(q) by {
                let i = choose|i: int| 0 <= i < list.len() && list[i] == q.1 as usize;
                if i < less.len() {
                    assert(less[i] == q.1 as usize);
                }
            }
            assert forall|q: (int, int)| nodes_at(row, less).insert(p).contains(q) implies nodes_at(
                row,
                list,
            ).contains(q) by {
                if q != p {
                    let i = choose|i: int| 0 <= i < less.len() && less[i] == q.1 as usize;
                    assert(list[i] == q.1 as usize);
                } else {
                    assert(list[list.len() - 1] == q.1 as usize);
                }
            }
        }
    }
}

/// Where rows fit, the ways to choose from the classes of a row can be counted.
pub proof fn lemma_ways_fit(grid: Grid, row: int)
    requires
        grid.wf(),
        grid.cols <= usize::MAX,
        own_rows_fit(grid.cells),
    ensures
        ways(row_class_lists(grid, row)) <= usize::MAX,
{
    let lists = row_class_lists(grid, row);
    let sets = Seq::new(lists.len(), |i: int| nodes_at(row, lists[i]));
    lemma_row_classes(grid, row);
    assert forall|i: int| 0 <= i < lists.len() implies (#[trigger] lists[i]).no_duplicates() by {
        assert forall|x: int, y: int|
            0 <= x < lists[i].len() && 0 <= y < lists[i].len() && x != y implies lists[i][x]
            != lists[i][y] by {
            if x < y {
                assert(lists[i][x] < lists[i][y]);
            } else {
                assert(lists[i][y] < lists[i][x]);
            }
        }
    }
    assert forall|i: int| 0 <= i < sets.len() implies (#[trigger] sets[i]).subset_of(grid.cells) by {
        assert forall|p: (int, int)| sets[i].contains(p) implies grid.cells.contains(p) by {
            let x = choose|x: int| 0 <= x < lists[i].len() && lists[i][x] == p.1 as usize;
            assert(grid.has(row, lists[i][x] as int));
        }
    }
    assert forall|i: int, j: int, p: (int, int), q: (int, int)|
        0 <= i < sets.len() && 0 <= j < sets.len() && #[trigger] sets[i].contains(p)
            && #[trigger] sets[j].contains(q) implies p.0 == q.0 && (i == j <==> cols_alike(
        grid.cells,
        p.1,
        q.1,
    )) by {
        let x = choose|x: int| 0 <= x < lists[i].len() && lists[i][x] == p.1 as usize;
        let y = choose|y: int| 0 <= y < lists[j].len() && lists[j][y] == q.1 as usize;
        assert(i == j <==> cols_same(grid, lists[i][x] as int, lists[j][y] as int));
        lemma_alike_is_same(grid, p.1, q.1);
    }
    assert(row_classes(grid.cells, sets));
    lemma_ways_are_choices(row, lists, sets);
}

proof fn lemma_alike_is_same(grid: Grid, a: int, b: int)
    ensures
        cols_alike(grid.cells, a, b) <==> cols_same(grid, a, b),
{
    if cols_alike(grid.cells, a, b) {
        assert forall|r: int| #[trigger] grid.has(r, a) <==> #[trigger] grid.has(r, b) by {
            assert(grid.cells.contains((r, a)) <==> grid.cells.contains((r, b)));
        }
    }
    if cols_same(grid, a, b) {
        assert forall|r: int| #[trigger] grid.cells.contains((r, a)) <==> #[trigger]
            grid.cells.contains((r, b)) by {
            assert(grid.has(r, a) <==> grid.has(r, b));
        }
    }
}

proof fn lemma_ways_are_choices(row: int, lists: Seq<Seq<usize>>, sets: Seq<Position>)
    requires
        sets.len() == lists.len(),
        forall|i: int|
            0 <= i < lists.len() ==> sets[i] == nodes_at(row, #[trigger] lists[i])
                && lists[i].no_duplicates(),
    ensures
        ways(lists) == choices(sets),
    decreases lists.len(),
{
    if lists.len() > 0 {
        let last = lists.len() - 1;
        assert(lists[last].no_duplicates());
        lemma_nodes_at(row, lists[last]);
        assert forall|i: int| 0 <= i < lists.drop_last().len() implies sets.drop_last()[i]
            == nodes_at(row, #[trigger] lists.drop_last()[i]) && lists.drop_last()[i].no_duplicates() by {
            assert(lists[i].no_duplicates());
        }
        lemma_ways_are_choices(row, lists.drop_last(), sets.drop_last());
    }
}

/// The digits of `n` at the places below `i` are those it has without the later places.
proof fn lemma_digit_prefix(lists: Seq<Seq<usize>>, n: nat, i: int)
    requires
        0 <= i < lists.len() - 1,
    ensures
        digit(lists, n, i) == digit(lists.drop_last(), n, i),
{
    assert(lists.drop_last().take(i) =~= lists.take(i));
}

/// A choice other than zero takes something.
proof fn lemma_some_digit(lists: Seq<Seq<usize>>, n: nat) -> (i: int)
    requires
        1 <= n < ways(lists),
    ensures
        0 <= i < lists.len(),
        1 <= digit(lists, n, i) <= lists[i].len(),
    decreases lists.len(),
{
    let less = lists.drop_last();
    let last = lists.len() - 1;
    let w = ways(less) as int;
    let r = lists.last().len() as int + 1;
    lemma_ways_positive(less);
    assert(lists.take(last) =~= less);
    if n < w {
        let i = lemma_some_digit(less, n);
        lemma_digit_prefix(lists, n, i);
        i
    } else {
        let q = n as int / w;
        assert(1 <= q < r) by (nonlinear_arith)
            requires
                q == n as int / w,
                w <= n < w * r,
                w >= 1,
        ;
        vstd::arithmetic::div_mod::lemma_small_mod(q as nat, r as nat);
        last
    }
}

/// A generated move takes nodes of one row.
pub proof fn lemma_moved_is_option(grid: Grid, row: int, m: nat)
    requires
        grid.wf(),
        grid.cols <= usize::MAX,
        m < move_count(grid, row),
    ensures
        is_option(grid.cells, moved(grid, row, m).cells),
        in_one_row(grid.cells.difference(moved(grid, row, m).cells)),
        moved(grid, row, m).wf(),
{
    let lists = row_class_lists(grid, row);
    let after = moved(grid, row, m).cells;
    lemma_row_classes(grid, row);
    lemma_ways_positive(lists);
    let i = lemma_some_digit(lists, m + 1);
    let c = lists[i][0] as int;
    assert(grid.has(row, c));
    assert(takes(lists, m + 1, c));
    assert(after.subset_of(grid.cells.remove((row, c))));
    vstd::set_lib::lemma_len_subset(after, grid.cells.remove((row, c)));
    let d = grid.cells.difference(after);
    assert(in_one_row(d));
    assert(aligned(d));
}

/// The columns that are the same as `c`.
spec fn class_set(grid: Grid, c: int) -> Set<int> {
    Set::new(|d: int| cols_same(grid, c, d))
}

/// Whether `cols` are columns in which row `row` has nodes.
spec fn in_row(grid: Grid, row: int, cols: Set<int>) -> bool {
    cols.finite() && forall|c: int| #[trigger] cols.contains(c) ==> grid.has(row, c)
}

proof fn lemma_swapped_cols(grid: Grid, row: int, x: Set<int>, a: int, b: int)
    requires
        grid.wf(),
        in_row(grid, row, x),
        x.contains(a),
        !x.contains(b),
        cols_same(grid, a, b),
    ensures
        same_up_to_order(
            without_cols(grid, row, x),
            without_cols(grid, row, x.remove(a).insert(b)),
        ),
{
    let y = x.remove(a).insert(b);
    let s = without_cols(grid, row, x);
    let t = without_cols(grid, row, y);
    let same = |r: int| r;
    let swap = |c: int| crate::grid::exchanged(a, b, c);
    let names = Renaming { row_to: same, row_from: same, col_to: swap, col_from: swap };
    assert(grid.has(row, a) && grid.has(row, b));
    assert(grid.cells.contains((row, a)) && grid.cells.contains((row, b)));
    assert forall|r: int, c: int| 0 <= r < grid.rows && 0 <= c < grid.cols implies (
    #[trigger] s.has(r, c) <==> t.has((names.row_to)(r), (names.col_to)(c))) by {
        assert(grid.has(r, a) <==> grid.has(r, b));
        assert(grid.has(r, c) <==> grid.has(r, swap(c)));
    }
    assert(is_renamed(s, t, names));
}

/// Taking the same number of columns from each class leaves the same matrix, up to order.
proof fn lemma_same_counts(grid: Grid, row: int, x: Set<int>, y: Set<int>)
    requires
        grid.wf(),
        in_row(grid, row, x),
        in_row(grid, row, y),
        forall|c: int|
            grid.has(row, c) ==> x.intersect(#[trigger] class_set(grid, c)).len() == y.intersect(
                class_set(grid, c),
            ).len(),
    ensures
        same_up_to_order(without_cols(grid, row, x), without_cols(grid, row, y)),
    decreases x.difference(y).len(),
{
    if x.difference(y).is_empty() {
        assert(y =~= x) by {
            assert forall|c: int| x.contains(c) implies y.contains(c) by {
                assert(!x.difference(y).contains(c));
            }
            assert forall|c: int| y.contains(c) implies x.contains(c) by {
                if !x.contains(c) {
                    let k = class_set(grid, c);
                    assert(grid.has(row, c));
                    assert(x.intersect(k).subset_of(y.intersect(k).remove(c)));
                    vstd::set_lib::lemma_len_subset(x.intersect(k), y.intersect(k).remove(c));
                }
            }
        }
        lemma_same_order_reflexive(without_cols(grid, row, x));
    } else {
        let a = x.difference(y).choose();
        let k = class_set(grid, a);
        assert(x.difference(y).contains(a));
        assert(grid.has(row, a));
        assert(k.contains(a));
        assert(exists|b: int| y.intersect(k).contains(b) && !x.contains(b)) by {
            if forall|b: int| y.intersect(k).contains(b) ==> x.contains(b) {
                assert(y.intersect(k).subset_of(x.intersect(k).remove(a)));
                vstd::set_lib::lemma_len_subset(y.intersect(k), x.intersect(k).remove(a));
            }
        }
        let b = choose|b: int| y.intersect(k).contains(b) && !x.contains(b);
        let z = x.remove(a).insert(b);
        lemma_swapped_cols(grid, row, x, a, b);
        assert(z.difference(y) =~= x.difference(y).remove(a));
        assert forall|c: int| grid.has(row, c) implies z.intersect(
            #[trigger] class_set(grid, c),
        ).len() == y.intersect(class_set(grid, c)).len() by {
            let kc = class_set(grid, c);
            assert(x.intersect(kc).len() == y.intersect(kc).len());
            lemma_same_chain(grid, c, a, b);
            lemma_same_chain(grid, c, b, a);
            if kc.contains(a) {
                assert(kc.contains(b));
                assert(z.intersect(kc) =~= x.intersect(kc).remove(a).insert(b));
            } else {
                assert(!kc.contains(b)) by {
                    lemma_same_chain(grid, c, b, a);
                    lemma_same_chain(grid, a, b, a);
                }
                assert(z.intersect(kc) =~= x.intersect(kc));
            }
        }
        lemma_same_counts(grid, row, z, y);
        lemma_same_order_chain(
            without_cols(grid, row, x),
            without_cols(grid, row, z),
            without_cols(grid, row, y),
        );
    }
}

proof fn lemma_digit_shift(n: int, a: int, r: int, q: int, c: int)
    requires
        a > 0,
        r > 0,
    ensures
        ((n + c * (a * r * q)) / a) % r == (n / a) % r,
{
    let j = c * (r * q);
    assert(c * (a * r * q) == j * a) by (nonlinear_arith)
        requires
            j == c * (r * q),
    ;
    vstd::arithmetic::div_mod::lemma_hoist_over_denominator(n, j, a as nat);
    assert(j == r * (c * q)) by (nonlinear_arith)
        requires
            j == c * (r * q),
    ;
    vstd::arithmetic::div_mod::lemma_mod_multiples_vanish(c * q, n / a, r);
}

/// The number of ways up to a place divides the number of ways up to a later place.
proof fn lemma_ways_divide(lists: Seq<Seq<usize>>, i: int) -> (q: int)
    requires
        0 <= i <= lists.len(),
    ensures
        ways(lists) == ways(lists.take(i)) * q,
    decreases lists.len() - i,
{
    if i == lists.len() {
        assert(lists.take(i) =~= lists);
        1
    } else {
        let less = lists.drop_last();
        let q = lemma_ways_divide(less, i);
        assert(less.take(i) =~= lists.take(i));
        let r = lists.last().len() as int + 1;
        assert(ways(less) * r == ways(lists.take(i)) * (q * r)) by (nonlinear_arith)
            requires
                ways(less) == ways(lists.take(i)) * q,
        ;
        q * r
    }
}

/// There is a choice with any given digits.
proof fn lemma_number_exists(lists: Seq<Seq<usize>>, counts: spec_fn(int) -> int) -> (n: nat)
    requires
        forall|i: int|
            0 <= i < lists.len() ==> 0 <= #[trigger] counts(i) <= lists[i].len(),
    ensures
        n < ways(lists),
        forall|i: int| 0 <= i < lists.len() ==> #[trigger] digit(lists, n, i) == counts(i),
    decreases lists.len(),
{
    if lists.len() == 0 {
        0
    } else {
        let less = lists.drop_last();
        let last = lists.len() - 1;
        assert forall|i: int| 0 <= i < less.len() implies 0 <= #[trigger] counts(i)
            <= less[i].len() by {
            assert(less[i] == lists[i]);
        }
        let low = lemma_number_exists(less, counts);
        let w = ways(less) as int;
        let c = counts(last);
        let r = lists[last].len() as int + 1;
        lemma_ways_positive(less);
        assert(0 <= c * w && low + c * w < w * r) by (nonlinear_arith)
            requires
                0 <= low < w,
                0 <= c < r,
        ;
        let n = (low + c * w) as nat;
        assert(lists.take(last) =~= less);
        assert forall|i: int| 0 <= i < lists.len() implies #[trigger] digit(lists, n, i) == counts(
            i,
        ) by {
            if i == last {
                assert(n as int / w == c && c % r == c) by {
                    vstd::arithmetic::div_mod::lemma_hoist_over_denominator(
                        low as int,
                        c,
                        w as nat,
                    );
                    vstd::arithmetic::div_mod::lemma_basic_div(low as int, w);
                    vstd::arithmetic::div_mod::lemma_small_mod(c as nat, r as nat);
                }
            } else {
                let a = ways(lists.take(i)) as int;
                let ri = lists[i].len() as int + 1;
                let q = lemma_ways_divide(less, i + 1);
                let more = less.take(i + 1);
                assert(more.drop_last() =~= lists.take(i));
                assert(more.last() == lists[i]);
                assert(ways(more) == a * ri);
                lemma_ways_positive(lists.take(i));
                lemma_digit_shift(low as int, a, ri, q, c);
                assert(digit(less, low, i) == counts(i));
                assert(less.take(i) =~= lists.take(i));
            }
        }
        n
    }
}

/// The number of nodes of `x` in class `i`.
spec fn count_in(lists: Seq<Seq<usize>>, x: Set<int>, i: int) -> int {
    x.intersect(Set::new(|c: int| 0 <= c <= usize::MAX && lists[i].contains(c as usize))).len() as int
}

proof fn lemma_taken(lists: Seq<Seq<usize>>, n: nat, i: int)
    requires
        0 <= i < lists.len(),
        forall|j: int| 0 <= j < lists.len() ==> (#[trigger] lists[j]).no_duplicates(),
        forall|j: int, x: int, k: int, y: int|
            0 <= j < lists.len() && 0 <= x < lists[j].len() && 0 <= k < lists.len() && 0 <= y
                < lists[k].len() && j != k ==> #[trigger] lists[j][x] != #[trigger] lists[k][y],
        0 <= digit(lists, n, i) <= lists[i].len(),
    ensures
        count_in(lists, taken_by(lists, n), i) == digit(lists, n, i),
        taken_by(lists, n).intersect(
            Set::new(|c: int| 0 <= c <= usize::MAX && lists[i].contains(c as usize)),
        ).finite(),
{
    let d = digit(lists, n, i);
    let class = Set::new(|c: int| 0 <= c <= usize::MAX && lists[i].contains(c as usize));
    let firsts = Set::new(|c: int| exists|x: int| 0 <= x < d && #[trigger] lists[i][x] == c);
    assert(taken_by(lists, n).intersect(class) =~= firsts) by {
        assert forall|c: int| taken_by(lists, n).intersect(class).contains(c) implies firsts.contains(
            c,
        ) by {
            let (j, x) = choose|j: int, x: int|
                0 <= j < lists.len() && 0 <= x < digit(lists, n, j) && x < lists[j].len()
                    && #[trigger] lists[j][x] == c;
            let y = choose|y: int| 0 <= y < lists[i].len() && lists[i][y] == c as usize;
            if j != i {
                assert(lists[j][x] != lists[i][y]);
            }
        }
        assert forall|c: int| firsts.contains(c) implies taken_by(lists, n).intersect(class).contains(
            c,
        ) by {
            let x = choose|x: int| 0 <= x < d && #[trigger] lists[i][x] == c;
            assert(takes(lists, n, c));
            assert(lists[i].contains(c as usize));
        }
    }
    lemma_firsts(lists[i], d);
}

proof fn lemma_firsts(list: Seq<usize>, d: int)
    requires
        list.no_duplicates(),
        0 <= d <= list.len(),
    ensures
        Set::new(|c: int| exists|x: int| 0 <= x < d && #[trigger] list[x] == c).finite(),
        Set::new(|c: int| exists|x: int| 0 <= x < d && #[trigger] list[x] == c).len() == d,
    decreases d,
{
    let now = Set::new(|c: int| exists|x: int| 0 <= x < d && #[trigger] list[x] == c);
    if d == 0 {
        assert(now =~= Set::empty());
    } else {
        let less = Set::new(|c: int| exists|x: int| 0 <= x < d - 1 && #[trigger] list[x] == c);
        lemma_firsts(list, d - 1);
        assert(now =~= less.insert(list[d - 1] as int)) by {
            assert forall|c: int| less.insert(list[d - 1] as int).contains(c) implies now.contains(
                c,
            ) by {
                if c == list[d - 1] {
                    assert(list[d - 1] == c);
                } else {
                    let x = choose|x: int| 0 <= x < d - 1 && #[trigger] list[x] == c;
                    assert(0 <= x < d && list[x] == c);
                }
            }
        }
    }
}

proof fn lemma_cols_of_row_finite(grid: Grid, row: int, cols: Set<int>)
    requires
        grid.wf(),
        forall|c: int| #[trigger] cols.contains(c) ==> grid.has(row, c),
    ensures
        cols.finite(),
{
    let nodes = cols.map(|c: int| (row, c));
    assert(nodes.subset_of(grid.cells));
    vstd::set_lib::lemma_len_subset(nodes, grid.cells);
    let back = |p: (int, int)| p.1;
    assert(nodes.map(back) =~= cols) by {
        assert forall|c: int| cols.contains(c) implies nodes.map(back).contains(c) by {
            assert(nodes.contains((row, c)));
            assert(back((row, c)) == c);
        }
    }
    vstd::set_lib::lemma_map_size_bound(nodes, cols, back);
}

/// Every way to take nodes from a row is matched by a generated choice.
proof fn lemma_choice_matches(grid: Grid, row: int, x: Set<int>) -> (n: nat)
    requires
        grid.wf(),
        grid.cols <= usize::MAX,
        in_row(grid, row, x),
        x.len() > 0,
    ensures
        1 <= n < ways(row_class_lists(grid, row)),
        same_up_to_order(
            without_cols(grid, row, x),
            without_cols(grid, row, taken_by(row_class_lists(grid, row), n)),
        ),
{
    let lists = row_class_lists(grid, row);
    lemma_row_classes(grid, row);
    let counts = |i: int| count_in(lists, x, i);
    assert forall|i: int| 0 <= i < lists.len() implies (#[trigger] lists[i]).no_duplicates() by {
        assert forall|a: int, b: int|
            0 <= a < lists[i].len() && 0 <= b < lists[i].len() && a != b implies lists[i][a]
            != lists[i][b] by {
            if a < b {
                assert(lists[i][a] < lists[i][b]);
            } else {
                assert(lists[i][b] < lists[i][a]);
            }
        }
    }
    assert forall|j: int, a: int, k: int, b: int|
        0 <= j < lists.len() && 0 <= a < lists[j].len() && 0 <= k < lists.len() && 0 <= b
            < lists[k].len() && j != k implies #[trigger] lists[j][a] != #[trigger] lists[k][b] by {
        assert(j == k <==> cols_same(grid, lists[j][a] as int, lists[k][b] as int));
    }
    assert forall|i: int| 0 <= i < lists.len() implies 0 <= #[trigger] counts(i) <= lists[i].len() by {
        assert(lists[i].no_duplicates());
        lemma_firsts(lists[i], lists[i].len() as int);
        let class = Set::new(|c: int| 0 <= c <= usize::MAX && lists[i].contains(c as usize));
        let all = Set::new(
            |c: int| exists|k: int| 0 <= k < lists[i].len() && #[trigger] lists[i][k] == c,
        );
        assert(class =~= all) by {
            assert forall|c: int| class.contains(c) implies all.contains(c) by {
                let k = choose|k: int| 0 <= k < lists[i].len() && lists[i][k] == c as usize;
                assert(lists[i][k] == c);
            }
        }
        assert(x.intersect(class).subset_of(class));
        vstd::set_lib::lemma_len_subset(x.intersect(class), class);
    }
    let n = lemma_number_exists(lists, counts);
    let y = taken_by(lists, n);
    assert forall|c: int| #[trigger] y.contains(c) implies grid.has(row, c) by {
        let (j, k) = choose|j: int, k: int|
            0 <= j < lists.len() && 0 <= k < digit(lists, n, j) && k < lists[j].len()
                && #[trigger] lists[j][k] == c;
    }
    lemma_cols_of_row_finite(grid, row, y);
    assert forall|c: int| grid.has(row, c) implies x.intersect(#[trigger] class_set(grid, c)).len()
        == y.intersect(class_set(grid, c)).len() by {
        let (i, k) = choose|i: int, k: int|
            0 <= i < lists.len() && 0 <= k < lists[i].len() && #[trigger] lists[i][k] == c;
        let class = Set::new(|d: int| 0 <= d <= usize::MAX && lists[i].contains(d as usize));
        assert(digit(lists, n, i) == counts(i));
        lemma_taken(lists, n, i);
        lemma_class_agrees(grid, row, lists, i, k, x);
        lemma_class_agrees(grid, row, lists, i, k, y);
    }
    lemma_same_counts(grid, row, x, y);
    if n == 0 {
        let c = x.choose();
        assert(x.contains(c));
        assert(grid.has(row, c));
        let (i, k) = choose|i: int, k: int|
            0 <= i < lists.len() && 0 <= k < lists[i].len() && #[trigger] lists[i][k] == c;
        let class = Set::new(|d: int| 0 <= d <= usize::MAX && lists[i].contains(d as usize));
        assert(x.intersect(class).contains(c));
        assert(x.intersect(class).len() > 0);
        assert(digit(lists, n, i) == counts(i));
        lemma_ways_positive(lists.take(i));
        assert(0int / (ways(lists.take(i)) as int) == 0) by {
            vstd::arithmetic::div_mod::lemma_div_basics(ways(lists.take(i)) as int);
        }
        vstd::arithmetic::div_mod::lemma_small_mod(0, (lists[i].len() + 1) as nat);
    }
    n
}

proof fn lemma_class_agrees(
    grid: Grid,
    row: int,
    lists: Seq<Seq<usize>>,
    i: int,
    k: int,
    x: Set<int>,
)
    requires
        grid.wf(),
        grid.cols <= usize::MAX,
        lists == row_class_lists(grid, row),
        0 <= i < lists.len(),
        0 <= k < lists[i].len(),
        in_row(grid, row, x),
    ensures
        x.intersect(class_set(grid, lists[i][k] as int)) == x.intersect(
            Set::new(|d: int| 0 <= d <= usize::MAX && lists[i].contains(d as usize)),
        ),
{
    lemma_row_classes(grid, row);
    let class = Set::new(|d: int| 0 <= d <= usize::MAX && lists[i].contains(d as usize));
    let c = lists[i][k] as int;
    assert(x.intersect(class_set(grid, c)) =~= x.intersect(class)) by {
        assert forall|d: int| x.contains(d) implies (class_set(grid, c).contains(d)
            <==> class.contains(d)) by {
            assert(grid.has(row, d));
            let (j, m) = choose|j: int, m: int|
                0 <= j < lists.len() && 0 <= m < lists[j].len() && #[trigger] lists[j][m] == d;
            assert(i == j <==> cols_same(grid, lists[i][k] as int, lists[j][m] as int));
            if class.contains(d) {
                let y = choose|y: int| 0 <= y < lists[i].len() && lists[i][y] == d as usize;
                assert(i == i <==> cols_same(grid, lists[i][k] as int, lists[i][y] as int));
            }
            if i == j {
                assert(lists[i].contains(d as usize));
            }
        }
    }
}

/// The first of the identical rows that follow each other up to `row`.
proof fn lemma_run_start(grid: Grid, row: int) -> (start: int)
    requires
        0 <= row < grid.rows,
        row_used(grid, row),
    ensures
        0 <= start <= row,
        row_used(grid, start),
        start == 0 || !rows_same(grid, start - 1, start),
        rows_same(grid, start, row),
    decreases row,
{
    if row == 0 || !rows_same(grid, row - 1, row) {
        row
    } else {
        let c = choose|c: int| grid.has(row, c);
        assert(grid.has(row - 1, c));
        let start = lemma_run_start(grid, row - 1);
        assert forall|d: int| #[trigger] grid.has(start, d) <==> #[trigger] grid.has(row, d) by {
            assert(grid.has(start, d) <==> grid.has(row - 1, d));
            assert(grid.has(row - 1, d) <==> grid.has(row, d));
        }
        start
    }
}

proof fn lemma_swapped_rows(grid: Grid, a: int, b: int, x: Set<int>)
    requires
        grid.wf(),
        0 <= a < grid.rows,
        0 <= b < grid.rows,
        rows_same(grid, a, b),
    ensures
        same_up_to_order(without_cols(grid, b, x), without_cols(grid, a, x)),
{
    let s = without_cols(grid, b, x);
    let t = without_cols(grid, a, x);
    let same = |c: int| c;
    let swap = |r: int| crate::grid::exchanged(a, b, r);
    let names = Renaming { row_to: swap, row_from: swap, col_to: same, col_from: same };
    assert forall|r: int, c: int| 0 <= r < grid.rows && 0 <= c < grid.cols implies (
    #[trigger] s.has(r, c) <==> t.has((names.row_to)(r), (names.col_to)(c))) by {
        assert(grid.has(a, c) <==> grid.has(b, c));
        assert(grid.has(r, c) <==> grid.has(swap(r), c));
    }
    assert(is_renamed(s, t, names));
}

/// Whether a machine word can count the ways to choose from the classes of each row from which moves
/// are generated.
pub open spec fn ways_fit(grid: Grid) -> bool {
    forall|r: int|
        0 <= r < grid.rows && is_fresh(grid, r) ==> ways(#[trigger] row_class_lists(grid, r))
            <= usize::MAX
}

/// A machine word can count the ways to choose where it can count the ways to take nodes from a row.
pub proof fn lemma_all_ways_fit(grid: Grid)
    requires
        grid.wf(),
        grid.cols <= usize::MAX,
        own_rows_fit(grid.cells),
    ensures
        ways_fit(grid),
{
    assert forall|r: int| 0 <= r < grid.rows && is_fresh(grid, r) implies ways(
        #[trigger] row_class_lists(grid, r),
    ) <= usize::MAX by {
        lemma_ways_fit(grid, r);
    }
}

/// The moves of one row are among those of all rows.
proof fn lemma_row_moves_counted(grid: Grid, row: int, end: nat)
    requires
        0 <= row < end,
        is_fresh(grid, row),
    ensures
        move_count(grid, row) <= moves_up_to(grid, end),
    decreases end,
{
    if row < end - 1 {
        lemma_row_moves_counted(grid, row, (end - 1) as nat);
    }
}

/// A machine word can count the ways to choose where it holds the number of generated moves and more.
pub proof fn lemma_few_moves_fit(grid: Grid)
    requires
        moves_up_to(grid, grid.rows) < usize::MAX - 1,
    ensures
        ways_fit(grid),
{
    assert forall|r: int| 0 <= r < grid.rows && is_fresh(grid, r) implies ways(
        #[trigger] row_class_lists(grid, r),
    ) <= usize::MAX by {
        lemma_row_moves_counted(grid, r, grid.rows);
    }
}

/// Whether generated move `m` of the `k`-th generated row leads to the matrix, up to order.
pub open spec fn move_matches(grid: Grid, k: int, m: int, after: Grid) -> bool {
    &&& 0 <= k < move_rows(grid).len()
    &&& 0 <= m < move_count(grid, move_rows(grid)[k] as int)
    &&& same_up_to_order(after, moved(grid, move_rows(grid)[k] as int, m as nat))
}

/// Where a machine word can count its moves, every move along a row is generated, up to the order of rows and columns.
pub proof fn lemma_moves_cover(grid: Grid, t: Position)
    requires
        grid.wf(),
        grid.rows <= usize::MAX,
        grid.cols <= usize::MAX,
        ways_fit(grid),
        is_option(grid.cells, t),
        in_one_row(grid.cells.difference(t)),
    ensures
        exists|k: int, m: int| move_matches(grid, k, m, (Grid { cells: t, ..grid })),
{
    let d = grid.cells.difference(t);
    assert(exists|p: (int, int)| d.contains(p)) by {
        if forall|p: (int, int)| !d.contains(p) {
            assert(t =~= grid.cells) by {
                assert forall|p: (int, int)| grid.cells.contains(p) implies t.contains(p) by {
                    assert(!d.contains(p));
                }
            }
        }
    }
    let p = choose|p: (int, int)| d.contains(p);
    let row = p.0;
    let x = Set::new(|c: int| d.contains((row, c)));
    assert(grid.has(row, p.1));
    assert forall|c: int| #[trigger] x.contains(c) implies grid.has(row, c) by {
        assert(d.contains((row, c)));
    }
    lemma_cols_of_row_finite(grid, row, x);
    assert(x.contains(p.1));
    assert(x.len() > 0);
    assert(without_cols(grid, row, x).cells =~= t) by {
        assert forall|q: (int, int)| without_cols(grid, row, x).cells.contains(q) implies t.contains(
            q,
        ) by {
            if !t.contains(q) {
                assert(d.contains(q));
                assert(q.0 == row);
                assert(x.contains(q.1));
            }
        }
        assert forall|q: (int, int)| t.contains(q) implies without_cols(grid, row, x).cells.contains(
            q,
        ) by {
            if q.0 == row && x.contains(q.1) {
                assert(d.contains(q));
            }
        }
    }
    let start = lemma_run_start(grid, row);
    lemma_swapped_rows(grid, start, row, x);
    assert forall|c: int| #[trigger] x.contains(c) implies grid.has(start, c) by {
        assert(grid.has(row, c));
    }
    let n = lemma_choice_matches(grid, start, x);
    let lists = row_class_lists(grid, start);
    assert(ways(lists) <= usize::MAX);
    let keep = |r: int| row_used(grid, r) && is_fresh(grid, r);
    lemma_listed(grid.rows, keep);
    assert(keep(start));
    assert(move_rows(grid).contains(start as usize));
    let k = choose|k: int| 0 <= k < move_rows(grid).len() && move_rows(grid)[k] == start as usize;
    let m = n - 1;
    assert(m + 1 == n);
    let after = Grid { cells: t, ..grid };
    assert(after == without_cols(grid, row, x));
    lemma_same_order_chain(
        after,
        without_cols(grid, start, x),
        moved(grid, start, m as nat),
    );
    assert(move_matches(grid, k, m, after));
}

} // verus!
