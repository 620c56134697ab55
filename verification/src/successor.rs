//! Generation of the positions that one move leads to.
use crate::bits::{has_bit, lemma_or_bits, lemma_single_bit, lemma_zero_bits, word_count, words_for};
use crate::colors::{lemma_same_order_isomorphic, same_up_to_order};
use crate::components::{row_used, values};
use crate::grid::{cols_same, lemma_from_fn_wf, lemma_rows_same, rows_same, Grid};
use crate::limits::{flipped, lemma_flipped_isomorphic, moves_fit};
use crate::matrix::BitMatrix;
use crate::moves::{capped_ways, class_of, classes, digit, heads, is_fresh, is_head};
use crate::moves::{lemma_all_ways_fit, lemma_head_exists, lemma_moved_is_option, lemma_moves_cover};
use crate::moves::{lemma_row_classes, lemma_same_chain, lemma_ways_positive, move_count};
use crate::moves::{move_matches, move_rows, moved, moves_up_to, row_class_lists, same_as, takes};
use crate::moves::{ways, ways_fit};
use crate::nim::{aligned, grundy, in_one_row, is_option, isomorphic, lemma_isomorphic};
use crate::nim::{nim_total, Position};
use crate::order::words_equal;
use crate::reading::given_of_both;
use crate::solver::{lemma_stands_for_isomorphic, stands_for, CanonicalGame, Canonicalizer};
use crate::sorting::{by_number, decides, goes_first, is_permutation, lemma_by_number, lemma_listed};
use crate::sorting::{lemma_lists_is_listed, lemma_permutation_covers, listed, lists, sort_indices};
use crate::sorting::sorting;
use std::sync::Arc;
use vstd::prelude::*;

verus! {

broadcast use lemma_from_fn_wf;

/// Successors of one position, in groups that can be visited in any order.
pub trait IndexedSuccessorGroups {
    /// The position whose moves are generated.
    spec fn position(&self) -> Position;

    /// The number of groups.
    spec fn group_count(&self) -> nat;

    /// The number of moves in a group.
    spec fn group_size(&self, group: int) -> nat;

    /// The position that a move leads to.
    spec fn after(&self, group: int, index: int) -> Position;

    /// Whether the groups are as they should be.
    spec fn wf(&self) -> bool;

    fn len(&self) -> (len: usize)
        requires
            self.wf(),
        ensures
            len == self.group_count(),
    ;

    fn is_empty(&self) -> (empty: bool)
        requires
            self.wf(),
        ensures
            empty == (self.group_count() == 0),
    {
        self.len() == 0
    }

    fn group_len(&self, group_index: usize) -> (len: usize)
        requires
            self.wf(),
            group_index < self.group_count(),
        ensures
            len == self.group_size(group_index as int),
            len < usize::MAX,
    ;

    fn successor(&self, group_index: usize, move_index: usize) -> (game: CanonicalGame)
        requires
            self.wf(),
            group_index < self.group_count(),
            move_index < self.group_size(group_index as int),
        ensures
            game.wf(),
            stands_for(self.after(group_index as int, move_index as int), game@),
    ;
}

/// Whether move `index` of group `group` leads to a position of nimber `value`.
pub open spec fn group_has_value<IG: IndexedSuccessorGroups>(
    groups: IG,
    group: int,
    index: int,
    value: nat,
) -> bool {
    &&& 0 <= group < groups.group_count()
    &&& 0 <= index < groups.group_size(group)
    &&& grundy(groups.after(group, index)) == value
}

/// Whether the groups hold moves only, and reach every nimber that a move reaches if a machine word
/// can count the moves.
pub open spec fn covers_moves<IG: IndexedSuccessorGroups>(groups: IG) -> bool {
    &&& forall|group: int, index: int|
        0 <= group < groups.group_count() && 0 <= index < groups.group_size(group) ==> is_option(
            groups.position(),
            #[trigger] groups.after(group, index),
        )
    &&& moves_fit(groups.position()) ==> forall|t: Position| #[trigger]
        is_option(groups.position(), t) ==> exists|group: int, index: int|
            group_has_value(groups, group, index, grundy(t))
}

/// Whether each of `games` stands for a position that a move from `position` leads to, and every
/// nimber that a move reaches is among theirs if a machine word can count the moves.
pub open spec fn are_successors(position: Position, games: Seq<CanonicalGame>) -> bool {
    &&& forall|i: int|
        0 <= i < games.len() ==> (#[trigger] games[i]).wf() && is_successor(position, games[i]@)
    &&& moves_fit(position) ==> forall|t: Position| #[trigger]
        is_option(position, t) ==> exists|i: int|
            0 <= i < games.len() && nim_total(values(#[trigger] games[i]@)) == grundy(t)
}

/// Whether `parts` stand for a position that a move from `position` leads to.
pub open spec fn is_successor(position: Position, parts: Seq<Grid>) -> bool {
    exists|t: Position| is_option(position, t) && #[trigger] stands_for(t, parts)
}

/// Generates the moves of a position.
pub trait SuccessorGenerator: Send + Sync {
    type SuccessorGroups: IndexedSuccessorGroups;

    fn canonicalize(&self, matrix: BitMatrix) -> (game: CanonicalGame)
        requires
            matrix.wf(),
        ensures
            game.wf(),
            stands_for(matrix@.cells, game@),
    ;

    fn successors(&self, component: &BitMatrix) -> (games: Vec<CanonicalGame>)
        requires
            component.wf(),
        ensures
            are_successors(component@.cells, games@),
    ;

    fn successor_groups(&self, component: &BitMatrix) -> (groups: Self::SuccessorGroups)
        requires
            component.wf(),
        ensures
            groups.wf(),
            groups.position() == component@.cells,
            covers_moves(groups),
    ;

    fn estimated_successors(&self, component: &BitMatrix) -> usize
        requires
            component.wf(),
    ;
}

/// Generates one representative for permutations of equivalent nodes on an edge.
///
/// Columns with identical bit patterns are interchangeable. A class containing
/// `k` columns therefore contributes `k + 1` choices: remove zero through all
/// `k` nodes in that class.
#[derive(Debug)]
pub struct CanonicalMoveGenerator<C> {
    canonicalizer: Arc<C>,
}

impl<C> Clone for CanonicalMoveGenerator<C> {
    fn clone(&self) -> (copy: Self)
        ensures
            copy.inner() == self.inner(),
    {
        CanonicalMoveGenerator { canonicalizer: self.canonicalizer.clone() }
    }
}

#[derive(Clone, Copy, Debug, PartialEq, Eq, Structural)]
enum Orientation {
    Original,
    Transposed,
}

/// The moves along one row of one of the two orientations.
#[derive(Debug)]
struct RowGroupSpec {
    orientation: Orientation,
    row: usize,
    column_classes: Vec<Vec<usize>>,
    len: usize,
}

/// The lists as they are held in memory.
spec fn lists_of(lists: Seq<Vec<usize>>) -> Seq<Seq<usize>> {
    lists.map_values(|list: Vec<usize>| list@)
}

/// Whether `spec` describes the moves along row `row` of `grid`.
spec fn describes(spec_: RowGroupSpec, orientation: Orientation, grid: Grid, row: int) -> bool {
    &&& spec_.orientation == orientation
    &&& spec_.row == row
    &&& lists_of(spec_.column_classes@) == row_class_lists(grid, row)
    &&& spec_.len == move_count(grid, row)
}

/// Whether two columns are the same, given the transposed matrix.
fn same_columns(transposed: &BitMatrix, a: usize, b: usize) -> (same: bool)
    requires
        transposed.wf(),
        a < transposed@.rows,
        b < transposed@.rows,
    ensures
        same == cols_same(transposed@.transposed(), a as int, b as int),
{
    proof {
        let grid = transposed@.transposed();
        lemma_rows_same(transposed@, a as int, b as int);
        assert forall|r: int, c: int| 0 <= c < transposed@.rows implies #[trigger] grid.has(r, c)
            == transposed@.has(c, r) by {
            if transposed@.has(c, r) {
                assert(transposed@.cells.contains((c, r)));
            }
        }
        if rows_same(transposed@, a as int, b as int) {
            assert forall|r: int| #[trigger] grid.has(r, a as int) <==> #[trigger] grid.has(
                r,
                b as int,
            ) by {
                assert(transposed@.has(a as int, r) <==> transposed@.has(b as int, r));
            }
        }
        if cols_same(grid, a as int, b as int) {
            assert forall|c: int| #[trigger] transposed@.has(a as int, c)
                <==> #[trigger] transposed@.has(b as int, c) by {
                assert(grid.has(c, a as int) <==> grid.has(c, b as int));
            }
        }
    }
    words_equal(transposed.row_words(a), transposed.row_words(b))
}

/// The columns with identical patterns, as classes, given the transposed matrix: the first column of
/// each class, and the classes.
fn column_classes(transposed: &BitMatrix) -> (found: (Vec<usize>, Vec<Vec<usize>>))
    requires
        transposed.wf(),
    ensures
        found.0@ == heads(transposed@.transposed()),
        lists_of(found.1@) == classes(transposed@.transposed()),
{
    let ghost grid = transposed@.transposed();
    let mut firsts: Vec<usize> = Vec::new();
    let mut found: Vec<Vec<usize>> = Vec::new();
    let ghost keep = |c: int| is_head(grid, c);
    let mut col: usize = 0;
    while col < transposed.rows()
        invariant
            transposed.wf(),
            grid == transposed@.transposed(),
            keep == (|c: int| is_head(grid, c)),
            col <= grid.cols,
            grid.cols == transposed@.rows,
            firsts@ == listed(col as nat, keep),
            found@.len() == firsts@.len(),
            forall|i: int|
                0 <= i < found@.len() ==> (#[trigger] found@[i])@ == listed(
                    col as nat,
                    same_as(grid, firsts@[i] as int),
                ),
        decreases grid.cols - col,
    {
        proof {
            lemma_listed(col as nat, keep);
        }
        let ghost before = found@;
        let ghost older = firsts@;
        let mut class: usize = 0;
        let mut matched: bool = false;
        while class < firsts.len() && !matched
            invariant
                transposed.wf(),
                grid == transposed@.transposed(),
                col < grid.cols,
                grid.cols == transposed@.rows,
                lists(firsts@, col as nat, keep),
                class <= firsts@.len(),
                !matched ==> forall|i: int|
                    0 <= i < class ==> !cols_same(grid, #[trigger] firsts@[i] as int, col as int),
                matched ==> class < firsts@.len() && cols_same(
                    grid,
                    firsts@[class as int] as int,
                    col as int,
                ),
            decreases firsts@.len() - class + if matched {
                0int
            } else {
                1int
            },
        {
            proof {
                assert(firsts@[class as int] < col);
            }
            if same_columns(transposed, firsts[class], col) {
                matched = true;
            } else {
                class = class + 1;
            }
        }
        if matched {
            let ghost k = class as int;
            let mut list: Vec<usize> = found[class].clone();
            list.push(col);
            found.set(class, list);
            proof {
                assert(keep(older[k] as int));
                assert(older[k] < col);
                assert(!keep(col as int)) by {
                    assert(cols_same(grid, older[k] as int, col as int));
                }
                assert(listed((col + 1) as nat, keep) == older);
                assert forall|i: int| 0 <= i < found@.len() implies (#[trigger] found@[i])@
                    == listed((col + 1) as nat, same_as(grid, older[i] as int)) by {
                    let same = same_as(grid, older[i] as int);
                    assert(before[i]@ == listed(col as nat, same));
                    if i != k {
                        assert(!same(col as int)) by {
                            if same(col as int) {
                                lemma_same_chain(grid, older[i] as int, col as int, older[k] as int);
                                lemma_same_chain(grid, older[k] as int, col as int, older[i] as int);
                                assert(keep(older[i] as int) && keep(older[k] as int));
                                if i < k {
                                    assert(older[i] < older[k]);
                                } else {
                                    assert(older[k] < older[i]);
                                }
                            }
                        }
                    } else {
                        assert(same(col as int));
                        assert(found@[i]@ =~= before[i]@.push(col));
                    }
                }
            }
        } else {
            let mut list: Vec<usize> = Vec::new();
            list.push(col);
            firsts.push(col);
            found.push(list);
            proof {
                assert(keep(col as int)) by {
                    assert forall|d: int| 0 <= d < col implies !(#[trigger] cols_same(
                        grid,
                        d,
                        col as int,
                    )) by {
                        if cols_same(grid, d, col as int) {
                            let h = lemma_head_exists(grid, d);
                            lemma_same_chain(grid, h, d, col as int);
                            assert(keep(h));
                            assert(older.contains(h as usize));
                            let i = choose|i: int| 0 <= i < older.len() && older[i] == h as usize;
                            assert(!cols_same(grid, older[i] as int, col as int));
                        }
                    }
                }
                assert(firsts@ =~= older.push(col));
                assert forall|i: int| 0 <= i < found@.len() implies (#[trigger] found@[i])@
                    == listed((col + 1) as nat, same_as(grid, firsts@[i] as int)) by {
                    let same = same_as(grid, firsts@[i] as int);
                    if i < before.len() {
                        assert(before[i]@ == listed(col as nat, same));
                        assert(!cols_same(grid, older[i] as int, col as int));
                    } else {
                        assert(same(col as int));
                        lemma_listed(col as nat, same);
                        let less = listed(col as nat, same);
                        assert(less.len() == 0) by {
                            if less.len() > 0 {
                                let d = less[0] as int;
                                assert(same(d));
                                lemma_same_chain(grid, col as int, d, d);
                                assert(cols_same(grid, d, col as int));
                            }
                        }
                        assert(found@[i]@ =~= less.push(col));
                    }
                }
            }
        }
        col = col + 1;
    }
    proof {
        assert(lists_of(found@) =~= classes(grid)) by {
            assert forall|i: int| 0 <= i < found@.len() implies lists_of(found@)[i]
                == classes(grid)[i] by {
                assert(found@[i]@ == listed(col as nat, same_as(grid, firsts@[i] as int)));
            }
        }
    }
    (firsts, found)
}

/// Multiplication that stops at the largest machine word.
fn capped_product(a: usize, b: usize) -> (product: usize)
    ensures
        product == if a * b <= usize::MAX {
            a * b
        } else {
            usize::MAX as int
        },
{
    match a.checked_mul(b) {
        Some(product) => product,
        None => usize::MAX,
    }
}

/// The classes that a row has nodes in, and the number of moves along the row.
fn row_moves(
    matrix: &BitMatrix,
    row: usize,
    firsts: &Vec<usize>,
    column_classes: &Vec<Vec<usize>>,
) -> (moves: (Vec<Vec<usize>>, usize))
    requires
        matrix.wf(),
        row < matrix@.rows,
        firsts@ == heads(matrix@),
        lists_of(column_classes@) == classes(matrix@),
    ensures
        lists_of(moves.0@) == row_class_lists(matrix@, row as int),
        moves.1 == move_count(matrix@, row as int),
        moves.1 < usize::MAX,
        moves.1 > 0 <==> row_used(matrix@, row as int),
{
    let ghost grid = matrix@;
    let ghost keep = |c: int| is_head(grid, c);
    let ghost keep_here = |c: int| is_head(grid, c) && grid.has(row as int, c);
    let mut row_classes: Vec<Vec<usize>> = Vec::new();
    let ghost mut here: Seq<usize> = Seq::empty();
    let mut product: usize = 1;
    let mut k: usize = 0;
    proof {
        lemma_listed(grid.cols, keep);
        assert(column_classes@.len() == lists_of(column_classes@).len());
        assert(firsts@.take(0) =~= Seq::empty());
    }
    while k < firsts.len()
        invariant
            matrix.wf(),
            grid == matrix@,
            row < grid.rows,
            keep == (|c: int| is_head(grid, c)),
            firsts@ == heads(grid),
            lists(firsts@, grid.cols, keep),
            column_classes@.len() == firsts@.len(),
            lists_of(column_classes@) == classes(grid),
            k <= firsts@.len(),
            row_classes@.len() == here.len(),
            forall|i: int|
                0 <= i < here.len() ==> (#[trigger] row_classes@[i])@ == class_of(
                    grid,
                    here[i] as int,
                ),
            forall|i: int|
                0 <= i < here.len() ==> firsts@.take(k as int).contains(#[trigger] here[i])
                    && grid.has(row as int, here[i] as int),
            forall|i: int, j: int| 0 <= i < j < here.len() ==> #[trigger] here[i] < #[trigger] here[j],
            forall|i: int|
                0 <= i < k && grid.has(row as int, #[trigger] firsts@[i] as int) ==> here.contains(
                    firsts@[i],
                ),
            product == capped_ways(lists_of(row_classes@)),
            product >= 1,
        decreases firsts@.len() - k,
    {
        let first: usize = firsts[k];
        let ghost older = here;
        let ghost before = row_classes@;
        proof {
            assert(firsts@[k as int] < grid.cols);
            assert(firsts@.take(k + 1) =~= firsts@.take(k as int).push(first));
            assert forall|x: usize| firsts@.take(k as int).contains(x) implies #[trigger] firsts@.take(k + 1).contains(
                x,
            ) && x < first by {
                let i = choose|i: int| 0 <= i < k && firsts@.take(k as int)[i] == x;
                assert(firsts@.take(k + 1)[i] == x);
                assert(firsts@[i] < firsts@[k as int]);
            }
            assert(firsts@.take(k + 1)[k as int] == first);
            assert(firsts@.take(k + 1).contains(first));
        }
        if matrix.get(row, first) {
            let class: Vec<usize> = column_classes[k].clone();
            proof {
                assert(class@ =~= column_classes@[k as int]@);
                assert(lists_of(column_classes@)[k as int] == classes(grid)[k as int]);
            }
            let size: usize = class.len();
            proof {
                lemma_listed(grid.cols, same_as(grid, first as int));
                lemma_ways_positive(lists_of(before));
            }
            product = capped_product(product, size + 1);
            row_classes.push(class);
            proof {
                here = older.push(first);
                assert(lists_of(row_classes@) =~= lists_of(before).push(class@));
                assert(lists_of(row_classes@).drop_last() =~= lists_of(before));
                lemma_capped_step(lists_of(before), class@);
                assert forall|i: int| 0 <= i <= k && grid.has(
                    row as int,
                    #[trigger] firsts@[i] as int,
                ) implies here.contains(firsts@[i]) by {
                    if i < k {
                        assert(older.contains(firsts@[i]));
                        let j = choose|j: int| 0 <= j < older.len() && older[j] == firsts@[i];
                        assert(here[j] == firsts@[i]);
                    } else {
                        assert(here[older.len() as int] == first);
                    }
                }
            }
        }
        k = k + 1;
    }
    proof {
        assert(firsts@.take(k as int) =~= firsts@);
        assert(lists(here, grid.cols, keep_here)) by {
            assert forall|i: int| 0 <= i < here.len() implies (#[trigger] here[i]) < grid.cols
                && keep_here(here[i] as int) by {
                assert(firsts@.contains(here[i]));
                let j = choose|j: int| 0 <= j < firsts@.len() && firsts@[j] == here[i];
                assert(keep(firsts@[j] as int));
            }
            assert forall|x: int| 0 <= x < grid.cols && keep_here(x) implies #[trigger] here.contains(
                x as usize,
            ) by {
                assert(keep(x));
                assert(firsts@.contains(x as usize));
                let j = choose|j: int| 0 <= j < firsts@.len() && firsts@[j] == x as usize;
                assert(grid.has(row as int, firsts@[j] as int));
            }
        }
        lemma_lists_is_listed(here, grid.cols, keep_here);
        assert(lists_of(row_classes@) =~= row_class_lists(grid, row as int));
        lemma_row_has_moves(grid, row as int);
    }
    (row_classes, product - 1)
}

proof fn lemma_capped_step(less: Seq<Seq<usize>>, class: Seq<usize>)
    ensures
        capped_ways(less.push(class)) == if capped_ways(less) * (class.len() + 1) <= usize::MAX {
            capped_ways(less) * (class.len() + 1)
        } else {
            usize::MAX as nat
        },
        capped_ways(less.push(class)) >= 1,
{
    let more = less.push(class);
    assert(more.drop_last() =~= less);
    lemma_ways_positive(less);
    lemma_ways_positive(more);
    let w = ways(less);
    let r = (class.len() + 1) as nat;
    if w > usize::MAX {
        assert(w * r >= w) by (nonlinear_arith)
            requires
                r >= 1,
        ;
        assert(usize::MAX * r >= usize::MAX) by (nonlinear_arith)
            requires
                r >= 1,
        ;
    }
}

/// A row offers moves exactly when it holds nodes.
pub proof fn lemma_row_has_moves(grid: Grid, row: int)
    requires
        grid.wf(),
        grid.cols <= usize::MAX,
    ensures
        capped_ways(row_class_lists(grid, row)) >= 1,
        move_count(grid, row) > 0 <==> row_used(grid, row),
{
    let lists = row_class_lists(grid, row);
    lemma_ways_positive(lists);
    lemma_row_classes(grid, row);
    if lists.len() == 0 {
        if row_used(grid, row) {
            let c = choose|c: int| grid.has(row, c);
            assert(grid.has(row, c));
        }
    } else {
        let last = lists.len() - 1;
        assert(lists[last].len() > 0);
        assert(grid.has(row, lists[last][0] as int));
        lemma_ways_positive(lists.drop_last());
        assert(ways(lists.drop_last()) * (lists.last().len() + 1) >= 2) by (nonlinear_arith)
            requires
                ways(lists.drop_last()) >= 1,
                lists.last().len() >= 1,
        ;
    }
}

/// Whether moves are generated from a row, if it holds nodes.
fn fresh_row(matrix: &BitMatrix, row: usize) -> (fresh: bool)
    requires
        matrix.wf(),
        row < matrix@.rows,
    ensures
        fresh == is_fresh(matrix@, row as int),
{
    proof {
        if row > 0 {
            lemma_rows_same(matrix@, row - 1, row as int);
        }
    }
    row == 0 || !words_equal(matrix.row_words(row - 1), matrix.row_words(row))
}

/// Adds the descriptions of the moves along the rows of `matrix`.
fn collect_group_specs(
    matrix: &BitMatrix,
    transposed: &BitMatrix,
    orientation: Orientation,
    specs: &mut Vec<RowGroupSpec>,
)
    requires
        matrix.wf(),
        transposed.wf(),
        transposed@ == matrix@.transposed(),
    ensures
        final(specs)@.len() == old(specs)@.len() + move_rows(matrix@).len(),
        forall|k: int|
            0 <= k < old(specs)@.len() ==> #[trigger] final(specs)@[k] == old(specs)@[k],
        forall|k: int|
            old(specs)@.len() <= k < final(specs)@.len() ==> describes(
                #[trigger] final(specs)@[k],
                orientation,
                matrix@,
                move_rows(matrix@)[k - old(specs)@.len()] as int,
            ),
{
    let ghost grid = matrix@;
    let ghost keep = |r: int| row_used(grid, r) && is_fresh(grid, r);
    proof {
        assert(transposed@.transposed() =~= grid) by {
            lemma_twice_transposed(grid);
        }
    }
    let (firsts, column_classes) = column_classes(transposed);
    let ghost start = specs@.len();
    let mut row: usize = 0;
    while row < matrix.rows()
        invariant
            matrix.wf(),
            grid == matrix@,
            keep == (|r: int| row_used(grid, r) && is_fresh(grid, r)),
            firsts@ == heads(grid),
            lists_of(column_classes@) == classes(grid),
            row <= grid.rows,
            start == old(specs)@.len(),
            specs@.len() == start + listed(row as nat, keep).len(),
            forall|k: int| 0 <= k < start ==> #[trigger] specs@[k] == old(specs)@[k],
            forall|k: int|
                start <= k < specs@.len() ==> describes(
                    #[trigger] specs@[k],
                    orientation,
                    grid,
                    listed(row as nat, keep)[k - start] as int,
                ),
        decreases grid.rows - row,
    {
        if fresh_row(matrix, row) {
            let (row_classes, len) = row_moves(matrix, row, &firsts, &column_classes);
            if len != 0 {
                let ghost before = specs@;
                specs.push(RowGroupSpec { orientation, row, column_classes: row_classes, len });
                proof {
                    assert(keep(row as int));
                    let older = listed(row as nat, keep);
                    assert(listed((row + 1) as nat, keep) == older.push(row));
                    assert forall|k: int| start <= k < specs@.len() implies describes(
                        #[trigger] specs@[k],
                        orientation,
                        grid,
                        older.push(row)[k - start] as int,
                    ) by {
                        if k < before.len() {
                            assert(specs@[k] == before[k]);
                            assert(describes(before[k], orientation, grid, older[k - start] as int));
                        }
                    }
                }
            }
        }
        row = row + 1;
    }
}

/// Transposing twice gives the matrix back.
proof fn lemma_twice_transposed(grid: Grid)
    requires
        grid.wf(),
    ensures
        grid.transposed().transposed() == grid,
{
    let twice = grid.transposed().transposed();
    assert forall|p: (int, int)| #[trigger] grid.cells.contains(p) <==> twice.cells.contains(p) by {
        if grid.cells.contains(p) {
            assert(grid.transposed().has(p.1, p.0));
        }
    }
    assert(twice =~= grid);
}

/// The columns that move `move_index` takes, as a mask of bits.
fn removal_mask(spec_: &RowGroupSpec, move_index: usize, columns: usize) -> (removed: Vec<u64>)
    requires
        move_index < usize::MAX,
        forall|i: int, x: int|
            0 <= i < spec_.column_classes@.len() && 0 <= x < spec_.column_classes@[i]@.len()
                ==> #[trigger] spec_.column_classes@[i]@[x] < columns,
        forall|i: int|
            0 <= i < spec_.column_classes@.len() ==> (#[trigger] spec_.column_classes@[i])@.len()
                < usize::MAX,
    ensures
        removed@.len() == words_for(columns as nat),
        forall|c: int|
            0 <= c < columns ==> (#[trigger] has_bit(removed@[c / 64], c % 64) <==> takes(
                lists_of(spec_.column_classes@),
                (move_index + 1) as nat,
                c,
            )),
{
    let ghost all = lists_of(spec_.column_classes@);
    let ghost n = (move_index + 1) as nat;
    let mut logical_index: usize = move_index + 1;
    let mut removed: Vec<u64> = vec![0; word_count(columns)];
    let mut k: usize = 0;
    proof {
        lemma_zero_bits();
        assert(all.take(0) =~= Seq::empty());
        assert(ways(all.take(0)) == 1);
        assert(n as int / 1 == n);
    }
    while k < spec_.column_classes.len()
        invariant
            all == lists_of(spec_.column_classes@),
            all.len() == spec_.column_classes@.len(),
            n == move_index + 1,
            forall|i: int, x: int|
                0 <= i < spec_.column_classes@.len() && 0 <= x < spec_.column_classes@[i]@.len()
                    ==> #[trigger] spec_.column_classes@[i]@[x] < columns,
            forall|i: int|
                0 <= i < spec_.column_classes@.len() ==> (#[trigger] spec_.column_classes@[i])@.len()
                    < usize::MAX,
            k <= all.len(),
            logical_index == n as int / (ways(all.take(k as int)) as int),
            removed@.len() == words_for(columns as nat),
            forall|c: int|
                0 <= c < columns ==> (#[trigger] has_bit(removed@[c / 64], c % 64) <==> takes_below(
                    all,
                    n,
                    c,
                    k as int,
                    0,
                )),
        decreases spec_.column_classes@.len() - k,
    {
        let class: &Vec<usize> = &spec_.column_classes[k];
        proof {
            assert(spec_.column_classes@[k as int]@.len() < usize::MAX);
            assert(all[k as int] == class@);
        }
        let radix: usize = class.len() + 1;
        let remove_count: usize = logical_index % radix;
        proof {
            let more = all.take(k + 1);
            assert(more.drop_last() =~= all.take(k as int));
            let w = ways(all.take(k as int)) as int;
            lemma_ways_positive(all.take(k as int));
            vstd::arithmetic::div_mod::lemma_div_denominator(n as int, w, radix as int);
            assert(ways(more) == w * radix);
            assert(digit(all, n, k as int) == remove_count);
        }
        logical_index = logical_index / radix;
        let mut x: usize = 0;
        while x < remove_count
            invariant
                all == lists_of(spec_.column_classes@),
                all.len() == spec_.column_classes@.len(),
                k < all.len(),
                class@ == all[k as int],
                *class == spec_.column_classes@[k as int],
                forall|i: int, x: int|
                    0 <= i < spec_.column_classes@.len() && 0 <= x < spec_.column_classes@[i]@.len()
                        ==> #[trigger] spec_.column_classes@[i]@[x] < columns,
                x <= remove_count <= class@.len(),
                digit(all, n, k as int) == remove_count,
                removed@.len() == words_for(columns as nat),
                forall|c: int|
                    0 <= c < columns ==> (#[trigger] has_bit(removed@[c / 64], c % 64)
                        <==> takes_below(all, n, c, k as int, x as int)),
            decreases remove_count - x,
        {
            let col: usize = class[x];
            let ghost before = removed@;
            proof {
                assert(spec_.column_classes@[k as int]@[x as int] < columns);
                assert(col as int / 64 < words_for(columns as nat));
            }
            let word: u64 = removed[col / 64];
            let bit: u64 = 1u64 << (col % 64) as u64;
            removed.set(col / 64, word | bit);
            proof {
                lemma_single_bit((col % 64) as u64);
                lemma_or_bits(word, bit);
                assert forall|c: int| 0 <= c < columns implies (#[trigger] has_bit(
                    removed@[c / 64],
                    c % 64,
                ) <==> takes_below(all, n, c, k as int, x + 1)) by {
                    assert(has_bit(before[c / 64], c % 64) <==> takes_below(
                        all,
                        n,
                        c,
                        k as int,
                        x as int,
                    ));
                    lemma_takes_step(all, n, c, k as int, x as int);
                    if c / 64 == col / 64 && c % 64 == col % 64 {
                        assert(c == col);
                    }
                }
            }
            x = x + 1;
        }
        proof {
            assert forall|c: int| 0 <= c < columns implies (#[trigger] has_bit(
                removed@[c / 64],
                c % 64,
            ) <==> takes_below(all, n, c, k + 1, 0)) by {
                lemma_takes_next(all, n, c, k as int);
            }
        }
        k = k + 1;
    }
    proof {
        assert forall|c: int| 0 <= c < columns implies (#[trigger] has_bit(
            removed@[c / 64],
            c % 64,
        ) <==> takes(all, n, c)) by {
            assert(takes_below(all, n, c, k as int, 0) <==> takes(all, n, c)) by {
                if takes(all, n, c) {
                    let (i, y) = choose|i: int, y: int|
                        0 <= i < all.len() && 0 <= y < digit(all, n, i) && y < all[i].len()
                            && #[trigger] all[i][y] == c;
                    assert(all[i][y] == c);
                }
            }
        }
    }
    removed
}

/// Whether choice `n` takes column `c` from the classes below `k` or the first `x` of class `k`.
spec fn takes_below(all: Seq<Seq<usize>>, n: nat, c: int, k: int, x: int) -> bool {
    exists|i: int, y: int|
        0 <= i < all.len() && 0 <= y < digit(all, n, i) && y < all[i].len() && (i < k || (i == k && y
            < x)) && #[trigger] all[i][y] == c
}

proof fn lemma_takes_step(all: Seq<Seq<usize>>, n: nat, c: int, k: int, x: int)
    requires
        0 <= k < all.len(),
        0 <= x < digit(all, n, k),
        x < all[k].len(),
    ensures
        takes_below(all, n, c, k, x + 1) <==> takes_below(all, n, c, k, x) || all[k][x] == c,
{
    if takes_below(all, n, c, k, x + 1) {
        let (i, y) = choose|i: int, y: int|
            0 <= i < all.len() && 0 <= y < digit(all, n, i) && y < all[i].len() && (i < k || (i == k
                && y < x + 1)) && #[trigger] all[i][y] == c;
        if !(i == k && y == x) {
            assert(all[i][y] == c && (i < k || (i == k && y < x)));
        }
    }
    if takes_below(all, n, c, k, x) {
        let (i, y) = choose|i: int, y: int|
            0 <= i < all.len() && 0 <= y < digit(all, n, i) && y < all[i].len() && (i < k || (i == k
                && y < x)) && #[trigger] all[i][y] == c;
        assert(all[i][y] == c && (i < k || (i == k && y < x + 1)));
    }
    if all[k][x] == c {
        assert(all[k][x] == c && k == k && x < x + 1);
    }
}

proof fn lemma_takes_next(all: Seq<Seq<usize>>, n: nat, c: int, k: int)
    requires
        0 <= k < all.len(),
    ensures
        takes_below(all, n, c, k + 1, 0) <==> takes_below(all, n, c, k, digit(all, n, k)),
{
    if takes_below(all, n, c, k + 1, 0) {
        let (i, y) = choose|i: int, y: int|
            0 <= i < all.len() && 0 <= y < digit(all, n, i) && y < all[i].len() && (i < k + 1 || (i
                == k + 1 && y < 0)) && #[trigger] all[i][y] == c;
        assert(all[i][y] == c && (i < k || (i == k && y < digit(all, n, k))));
    }
    if takes_below(all, n, c, k, digit(all, n, k)) {
        let (i, y) = choose|i: int, y: int|
            0 <= i < all.len() && 0 <= y < digit(all, n, i) && y < all[i].len() && (i < k || (i == k
                && y < digit(all, n, k))) && #[trigger] all[i][y] == c;
        assert(all[i][y] == c && i < k + 1);
    }
}

/// The number of moves that are generated along the rows of a matrix, or the largest machine word
/// if there are more.
fn representative_move_count(matrix: &BitMatrix) -> (count: usize)
    requires
        matrix.wf(),
    ensures
        count == if moves_up_to(matrix@, matrix@.rows) <= usize::MAX {
            moves_up_to(matrix@, matrix@.rows)
        } else {
            usize::MAX as nat
        },
{
    let transposed = matrix.transposed();
    proof {
        lemma_twice_transposed(matrix@);
    }
    let (firsts, column_classes) = column_classes(&transposed);
    let mut count: usize = 0;
    let mut row: usize = 0;
    while row < matrix.rows()
        invariant
            matrix.wf(),
            firsts@ == heads(matrix@),
            lists_of(column_classes@) == classes(matrix@),
            row <= matrix@.rows,
            count == if moves_up_to(matrix@, row as nat) <= usize::MAX {
                moves_up_to(matrix@, row as nat)
            } else {
                usize::MAX as nat
            },
        decreases matrix@.rows - row,
    {
        if fresh_row(matrix, row) {
            let (_, len) = row_moves(matrix, row, &firsts, &column_classes);
            count = count.saturating_add(len);
        }
        row = row + 1;
    }
    count
}

/// The number of generated moves, or the highest number of a machine word if there are more.
pub open spec fn estimated_moves(grid: Grid) -> nat {
    let all = moves_up_to(grid, grid.rows) + moves_up_to(grid.transposed(), grid.cols);
    if all <= usize::MAX {
        all
    } else {
        usize::MAX as nat
    }
}

/// The number of groups of moves: one for each generated row, then one for each generated column.
pub open spec fn group_total(grid: Grid) -> nat {
    move_rows(grid).len() + move_rows(grid.transposed()).len()
}

/// The number of moves in group `k`.
pub open spec fn group_moves(grid: Grid, k: int) -> nat {
    let rows = move_rows(grid);
    if k < rows.len() {
        move_count(grid, rows[k] as int)
    } else {
        move_count(grid.transposed(), move_rows(grid.transposed())[k - rows.len()] as int)
    }
}

/// The position after move `m` of group `k`.
pub open spec fn position_after(grid: Grid, k: int, m: int) -> Position {
    let rows = move_rows(grid);
    if k < rows.len() {
        moved(grid, rows[k] as int, m as nat).cells
    } else {
        let row = move_rows(grid.transposed())[k - rows.len()] as int;
        flipped(moved(grid.transposed(), row, m as nat).cells)
    }
}

/// The matrix after move `m` of group `k`: moves along columns give the transposed matrix.
pub open spec fn raw_after(grid: Grid, k: int, m: int) -> Grid {
    let rows = move_rows(grid);
    if k < rows.len() {
        moved(grid, rows[k] as int, m as nat)
    } else {
        moved(grid.transposed(), move_rows(grid.transposed())[k - rows.len()] as int, m as nat)
    }
}

/// The matrices after the moves of the first `k` groups, group by group.
pub open spec fn raws_up_to(grid: Grid, k: nat) -> Seq<Grid>
    decreases k,
{
    if k == 0 {
        Seq::empty()
    } else {
        raws_up_to(grid, (k - 1) as nat) + Seq::new(
            group_moves(grid, k - 1),
            |m: int| raw_after(grid, k - 1, m),
        )
    }
}

/// The matrices after all generated moves, group by group.
pub open spec fn raws(grid: Grid) -> Seq<Grid> {
    raws_up_to(grid, group_total(grid))
}

/// Whether the game is what the canonicalizer makes of the matrix `grid`.
pub open spec fn is_canonicalized<C: Canonicalizer>(
    canonicalizer: &C,
    grid: Grid,
    game: CanonicalGame,
) -> bool {
    exists|raw: BitMatrix| #[trigger]
        call_ensures(C::canonicalize, (canonicalizer, raw), game) && raw@ == grid
}

/// What the canonicalizer makes of a matrix.
fn canonicalized<C: Canonicalizer>(canonicalizer: &C, matrix: BitMatrix) -> (game: CanonicalGame)
    requires
        matrix.wf(),
    ensures
        game.wf(),
        stands_for(matrix@.cells, game@),
        call_ensures(C::canonicalize, (canonicalizer, matrix), game),
        is_canonicalized(canonicalizer, matrix@, game),
{
    let ghost raw = matrix;
    let game: CanonicalGame = given_of_both(C::canonicalize, canonicalizer, matrix);
    proof {
        assert(call_ensures(C::canonicalize, (canonicalizer, raw), game));
    }
    game
}

/// Whether taking one or more nodes of one row of `grid` leaves `after`.
pub open spec fn is_row_result(grid: Grid, after: Grid) -> bool {
    &&& after.rows == grid.rows
    &&& after.cols == grid.cols
    &&& is_option(grid.cells, after.cells)
    &&& in_one_row(grid.cells.difference(after.cells))
}

proof fn lemma_raws_prefix(grid: Grid, k: nat, end: nat)
    requires
        k <= end,
    ensures
        raws_up_to(grid, k).len() == positions_up_to(grid, k).len(),
        raws_up_to(grid, k).len() <= raws_up_to(grid, end).len(),
        forall|i: int|
            0 <= i < raws_up_to(grid, k).len() ==> #[trigger] raws_up_to(grid, k)[i] == raws_up_to(
                grid,
                end,
            )[i],
    decreases end, end - k,
{
    if k < end {
        lemma_raws_prefix(grid, k, (end - 1) as nat);
    } else if k > 0 {
        lemma_raws_prefix(grid, (k - 1) as nat, (k - 1) as nat);
    }
}

/// Where in the list the matrix after a move is.
proof fn lemma_raw_at(grid: Grid, k: int, m: int)
    requires
        0 <= k < group_total(grid),
        0 <= m < group_moves(grid, k),
    ensures
        raws(grid).len() == positions(grid).len(),
        positions_up_to(grid, k as nat).len() + m < raws(grid).len(),
        raws(grid)[positions_up_to(grid, k as nat).len() + m] == raw_after(grid, k, m),
{
    lemma_raws_prefix(grid, k as nat, group_total(grid));
    lemma_raws_prefix(grid, (k + 1) as nat, group_total(grid));
    lemma_raws_prefix(grid, group_total(grid), group_total(grid));
    let i = positions_up_to(grid, k as nat).len() + m;
    assert(raws_up_to(grid, (k + 1) as nat)[i] == raw_after(grid, k, m));
}

/// Every listed matrix has its group and its place in the group.
proof fn lemma_raw_found(grid: Grid, i: int, end: nat) -> (at: (int, int))
    requires
        0 <= i < raws_up_to(grid, end).len(),
    ensures
        0 <= at.0 < end,
        0 <= at.1 < group_moves(grid, at.0),
        raws_up_to(grid, end)[i] == raw_after(grid, at.0, at.1),
    decreases end,
{
    let less = raws_up_to(grid, (end - 1) as nat);
    if i < less.len() {
        lemma_raw_found(grid, i, (end - 1) as nat)
    } else {
        (end - 1, i - less.len())
    }
}

/// Every generated matrix is left by taking nodes of one row of the matrix, or of the transposed
/// matrix.
pub proof fn lemma_generated_are_moves(grid: Grid, i: int)
    requires
        grid.wf(),
        grid.rows <= usize::MAX,
        grid.cols <= usize::MAX,
        0 <= i < raws(grid).len(),
    ensures
        is_row_result(grid, raws(grid)[i]) || is_row_result(grid.transposed(), raws(grid)[i]),
{
    let at = lemma_raw_found(grid, i, group_total(grid));
    let rows = move_rows(grid);
    if at.0 < rows.len() {
        lemma_moved_is_option(grid, rows[at.0] as int, at.1 as nat);
    } else {
        let row = move_rows(grid.transposed())[at.0 - rows.len()] as int;
        lemma_moved_is_option(grid.transposed(), row, at.1 as nat);
    }
}

/// Every matrix that is left by taking nodes of one row of the matrix, or of the transposed matrix, is
/// generated up to the order of rows and columns, if a machine word can count the moves.
pub proof fn lemma_every_move_generated(grid: Grid, after: Grid) -> (i: int)
    requires
        grid.wf(),
        grid.rows <= usize::MAX,
        grid.cols <= usize::MAX,
        ways_fit(grid),
        ways_fit(grid.transposed()),
        is_row_result(grid, after) || is_row_result(grid.transposed(), after),
    ensures
        0 <= i < raws(grid).len(),
        same_up_to_order(after, raws(grid)[i]),
{
    let rows = move_rows(grid);
    lemma_transposed_cells(grid);
    if is_row_result(grid, after) {
        lemma_moves_cover(grid, after.cells);
        assert((Grid { cells: after.cells, ..grid }) == after);
        let (k, m) = choose|k: int, m: int| move_matches(grid, k, m, after);
        lemma_raw_at(grid, k, m);
        positions_up_to(grid, k as nat).len() + m
    } else {
        let turned = grid.transposed();
        lemma_moves_cover(turned, after.cells);
        assert((Grid { cells: after.cells, ..turned }) == after);
        let (k, m) = choose|k: int, m: int| move_matches(turned, k, m, after);
        lemma_raw_at(grid, k + rows.len(), m);
        positions_up_to(grid, (k + rows.len()) as nat).len() + m
    }
}

/// The positions after the moves of the first `k` groups, group by group.
pub open spec fn positions_up_to(grid: Grid, k: nat) -> Seq<Position>
    decreases k,
{
    if k == 0 {
        Seq::empty()
    } else {
        positions_up_to(grid, (k - 1) as nat) + Seq::new(
            group_moves(grid, k - 1),
            |m: int| position_after(grid, k - 1, m),
        )
    }
}

/// The positions after all generated moves, group by group.
pub open spec fn positions(grid: Grid) -> Seq<Position> {
    positions_up_to(grid, group_total(grid))
}

proof fn lemma_positions_prefix(grid: Grid, k: nat, end: nat)
    requires
        k <= end,
    ensures
        positions_up_to(grid, k).len() <= positions_up_to(grid, end).len(),
        forall|i: int|
            0 <= i < positions_up_to(grid, k).len() ==> #[trigger] positions_up_to(grid, k)[i]
                == positions_up_to(grid, end)[i],
    decreases end - k,
{
    if k < end {
        lemma_positions_prefix(grid, k, (end - 1) as nat);
    }
}

proof fn lemma_position_at(grid: Grid, k: int, m: int)
    requires
        0 <= k < group_total(grid),
        0 <= m < group_moves(grid, k),
    ensures
        positions_up_to(grid, k as nat).len() + m < positions(grid).len(),
        positions(grid)[positions_up_to(grid, k as nat).len() + m] == position_after(grid, k, m),
{
    lemma_positions_prefix(grid, (k + 1) as nat, group_total(grid));
    let i = positions_up_to(grid, k as nat).len() + m;
    assert(positions_up_to(grid, (k + 1) as nat)[i] == position_after(grid, k, m));
}

/// Every generated position has its group and its place in the group.
proof fn lemma_position_found(grid: Grid, i: int, end: nat) -> (at: (int, int))
    requires
        0 <= i < positions_up_to(grid, end).len(),
    ensures
        0 <= at.0 < end,
        0 <= at.1 < group_moves(grid, at.0),
        positions_up_to(grid, end)[i] == position_after(grid, at.0, at.1),
    decreases end,
{
    let less = positions_up_to(grid, (end - 1) as nat);
    if i < less.len() {
        lemma_position_found(grid, i, (end - 1) as nat)
    } else {
        (end - 1, i - less.len())
    }
}

proof fn lemma_transposed_cells(grid: Grid)
    requires
        grid.wf(),
    ensures
        grid.transposed().cells == flipped(grid.cells),
        flipped(flipped(grid.cells)) == grid.cells,
{
    assert(grid.transposed().cells =~= flipped(grid.cells)) by {
        assert forall|p: (int, int)| flipped(grid.cells).contains(p) implies grid.transposed().cells.contains(
            p,
        ) by {
            assert(grid.cells.contains((p.1, p.0)));
        }
    }
    assert(flipped(flipped(grid.cells)) =~= grid.cells);
}

/// A move of the flipped position is a move of the position.
proof fn lemma_flipped_option(s: Position, t: Position)
    requires
        s.finite(),
        is_option(s, t),
    ensures
        is_option(flipped(s), flipped(t)),
        grundy(flipped(t)) == grundy(t),
{
    vstd::set_lib::lemma_len_subset(t, s);
    lemma_flipped_isomorphic(s);
    lemma_flipped_isomorphic(t);
    lemma_isomorphic(s, flipped(s));
    lemma_isomorphic(t, flipped(t));
    assert(flipped(t).subset_of(flipped(s)));
    let d = s.difference(t);
    let e = flipped(s).difference(flipped(t));
    assert forall|p: (int, int)| #[trigger] e.contains(p) implies d.contains((p.1, p.0)) by {}
    assert(aligned(e)) by {
        if in_one_row(d) {
            assert(crate::nim::in_one_col(e)) by {
                assert forall|p: (int, int), q: (int, int)|
                    e.contains(p) && e.contains(q) implies p.1 == q.1 by {
                    let x = (p.1, p.0);
                    let y = (q.1, q.0);
                    assert(d.contains(x) && d.contains(y));
                    assert(x.0 == y.0);
                }
            }
        } else {
            assert(in_one_row(e)) by {
                assert forall|p: (int, int), q: (int, int)|
                    e.contains(p) && e.contains(q) implies p.0 == q.0 by {
                    let x = (p.1, p.0);
                    let y = (q.1, q.0);
                    assert(d.contains(x) && d.contains(y));
                    assert(x.1 == y.1);
                }
            }
        }
    }
}

/// Generated moves are moves.
pub proof fn lemma_generated_is_option(grid: Grid, k: int, m: int)
    requires
        grid.wf(),
        grid.rows <= usize::MAX,
        grid.cols <= usize::MAX,
        0 <= k < group_total(grid),
        0 <= m < group_moves(grid, k),
    ensures
        is_option(grid.cells, position_after(grid, k, m)),
{
    let rows = move_rows(grid);
    lemma_transposed_cells(grid);
    if k < rows.len() {
        lemma_moved_is_option(grid, rows[k] as int, m as nat);
    } else {
        let row = move_rows(grid.transposed())[k - rows.len()] as int;
        lemma_moved_is_option(grid.transposed(), row, m as nat);
        lemma_flipped_option(
            grid.transposed().cells,
            moved(grid.transposed(), row, m as nat).cells,
        );
    }
}

/// A machine word can count the ways to choose, along rows and along columns, where it can count the
/// moves.
pub proof fn lemma_both_ways_fit(grid: Grid)
    requires
        grid.wf(),
        grid.rows <= usize::MAX,
        grid.cols <= usize::MAX,
        moves_fit(grid.cells),
    ensures
        ways_fit(grid),
        ways_fit(grid.transposed()),
{
    lemma_transposed_cells(grid);
    lemma_all_ways_fit(grid);
    lemma_all_ways_fit(grid.transposed());
}

/// Whether generated move `m` of group `k` leads to a position of nimber `v`.
pub open spec fn generated_value(grid: Grid, k: int, m: int, v: nat) -> bool {
    &&& 0 <= k < group_total(grid)
    &&& 0 <= m < group_moves(grid, k)
    &&& grundy(position_after(grid, k, m)) == v
}

/// The generated moves reach every nimber that a move reaches, if a machine word can count the
/// moves.
pub proof fn lemma_generated_cover(grid: Grid, t: Position)
    requires
        grid.wf(),
        grid.rows <= usize::MAX,
        grid.cols <= usize::MAX,
        ways_fit(grid),
        ways_fit(grid.transposed()),
        is_option(grid.cells, t),
    ensures
        exists|k: int, m: int| generated_value(grid, k, m, grundy(t)),
{
    lemma_transposed_cells(grid);
    let rows = move_rows(grid);
    let d = grid.cells.difference(t);
    if in_one_row(d) {
        lemma_moves_cover(grid, t);
        let after = Grid { cells: t, ..grid };
        let (k, m) = choose|k: int, m: int| move_matches(grid, k, m, after);
        let found = moved(grid, rows[k] as int, m as nat);
        lemma_moved_is_option(grid, rows[k] as int, m as nat);
        vstd::set_lib::lemma_set_subset_finite(grid.cells, t);
        lemma_same_order_isomorphic(after, found);
        lemma_isomorphic(t, found.cells);
        assert(generated_value(grid, k, m, grundy(t)));
    } else {
        let turned = grid.transposed();
        let u = flipped(t);
        lemma_flipped_option(grid.cells, t);
        assert(in_one_row(turned.cells.difference(u))) by {
            assert forall|p: (int, int), q: (int, int)|
                turned.cells.difference(u).contains(p) && turned.cells.difference(u).contains(
                    q,
                ) implies p.0 == q.0 by {
                assert(d.contains((p.1, p.0)) && d.contains((q.1, q.0)));
            }
        }
        lemma_moves_cover(turned, u);
        let wanted = Grid { cells: u, ..turned };
        let (k, m) = choose|k: int, m: int| move_matches(turned, k, m, wanted);
        let after = moved(turned, move_rows(turned)[k] as int, m as nat);
        lemma_moved_is_option(turned, move_rows(turned)[k] as int, m as nat);
        vstd::set_lib::lemma_set_subset_finite(turned.cells, u);
        lemma_same_order_isomorphic(wanted, after);
        lemma_isomorphic(u, after.cells);
        lemma_flipped_isomorphic(t);
        vstd::set_lib::lemma_set_subset_finite(grid.cells, t);
        lemma_isomorphic(t, u);
        lemma_flipped_isomorphic(after.cells);
        lemma_isomorphic(after.cells, flipped(after.cells));
        assert(generated_value(grid, k + rows.len(), m, grundy(t)));
    }
}

/// The moves of one component, along its rows and along its columns.
pub struct CanonicalSuccessorGroups<C> {
    canonicalizer: Arc<C>,
    original: BitMatrix,
    transposed: BitMatrix,
    specs: Vec<RowGroupSpec>,
}

impl<C: Canonicalizer> CanonicalSuccessorGroups<C> {
    /// The component.
    pub closed spec fn grid(&self) -> Grid {
        self.original@
    }

    /// The canonicalizer.
    pub closed spec fn inner(&self) -> C {
        *self.canonicalizer
    }

    closed spec fn stored(&self) -> bool {
        let rows = move_rows(self.original@);
        &&& self.original.wf()
        &&& self.transposed.wf()
        &&& self.transposed@ == self.original@.transposed()
        &&& self.specs@.len() == group_total(self.original@)
        &&& forall|k: int|
            0 <= k < rows.len() ==> describes(
                #[trigger] self.specs@[k],
                Orientation::Original,
                self.original@,
                rows[k] as int,
            )
        &&& forall|k: int|
            rows.len() <= k < self.specs@.len() ==> describes(
                #[trigger] self.specs@[k],
                Orientation::Transposed,
                self.transposed@,
                move_rows(self.transposed@)[k - rows.len()] as int,
            )
    }

    fn new(component: &BitMatrix, canonicalizer: Arc<C>) -> (groups: Self)
        requires
            component.wf(),
        ensures
            groups.stored(),
            groups.grid() == component@,
            groups.inner() == *canonicalizer,
    {
        let original = component.clone();
        let transposed = component.transposed();
        let mut specs: Vec<RowGroupSpec> = Vec::new();
        proof {
            lemma_twice_transposed(component@);
        }
        collect_group_specs(&original, &transposed, Orientation::Original, &mut specs);
        let ghost first = specs@;
        collect_group_specs(&transposed, &original, Orientation::Transposed, &mut specs);
        let groups = CanonicalSuccessorGroups { canonicalizer, original, transposed, specs };
        proof {
            let rows = move_rows(component@);
            assert forall|k: int| 0 <= k < rows.len() implies describes(
                #[trigger] groups.specs@[k],
                Orientation::Original,
                component@,
                rows[k] as int,
            ) by {
                assert(groups.specs@[k] == first[k]);
            }
        }
        groups
    }

    /// The matrix after a move, not yet canonicalized. Moves along columns give the transposed
    /// matrix.
    fn raw_successor(&self, group_index: usize, move_index: usize) -> (result: BitMatrix)
        requires
            self.stored(),
            group_index < group_total(self.grid()),
            move_index < group_moves(self.grid(), group_index as int),
        ensures
            result.wf(),
            isomorphic(
                position_after(self.grid(), group_index as int, move_index as int),
                result@.cells,
            ),
            position_after(self.grid(), group_index as int, move_index as int).finite(),
            result@ == raw_after(self.grid(), group_index as int, move_index as int),
    {
        let spec_: &RowGroupSpec = &self.specs[group_index];
        let ghost rows = move_rows(self.original@);
        let matrix: &BitMatrix = match spec_.orientation {
            Orientation::Original => &self.original,
            Orientation::Transposed => &self.transposed,
        };
        let ghost grid = matrix@;
        let ghost k = group_index as int;
        let ghost row = spec_.row as int;
        let ghost all = lists_of(spec_.column_classes@);
        proof {
            assert(self.specs@[k] == *spec_);
            let keep = |r: int| row_used(grid, r) && is_fresh(grid, r);
            lemma_listed(grid.rows, keep);
            if k < rows.len() {
                assert(describes(*spec_, Orientation::Original, self.original@, rows[k] as int));
            } else {
                assert(describes(
                    *spec_,
                    Orientation::Transposed,
                    self.transposed@,
                    move_rows(self.transposed@)[k - rows.len()] as int,
                ));
            }
            lemma_row_classes(grid, row);
            lemma_row_has_moves(grid, row);
            assert forall|i: int, x: int|
                0 <= i < spec_.column_classes@.len() && 0 <= x < spec_.column_classes@[i]@.len()
                    implies #[trigger] spec_.column_classes@[i]@[x] < grid.cols by {
                assert(grid.has(row, all[i][x] as int));
                assert(grid.cells.contains((row, all[i][x] as int)));
            }
            assert forall|i: int|
                0 <= i < spec_.column_classes@.len() implies (#[trigger] spec_.column_classes@[i])@.len()
                < usize::MAX by {
                assert(all[i].len() <= grid.cols) by {
                    let c = crate::moves::row_heads(grid, row)[i] as int;
                    lemma_listed(grid.cols, same_as(grid, c));
                }
                assert(grid.rows > 0);
            }
        }
        let removed: Vec<u64> = removal_mask(spec_, move_index, matrix.cols());
        let mut result: BitMatrix = matrix.clone();
        result.clear_row_bits(spec_.row, removed.as_slice());
        proof {
            let m = move_index as nat;
            let after = moved(grid, row, m);
            assert(result@.cells =~= after.cells) by {
                assert forall|p: (int, int)| #[trigger] result@.cells.contains(p)
                    <==> after.cells.contains(p) by {
                    if grid.cells.contains(p) && p.0 == row {
                        assert(has_bit(removed@[p.1 / 64], p.1 % 64) <==> takes(all, m + 1, p.1));
                    }
                }
            }
            lemma_moved_is_option(grid, row, m);
            if k < rows.len() {
                crate::nim::lemma_isomorphic_reflexive(after.cells);
            } else {
                lemma_flipped_isomorphic(flipped(after.cells));
                assert(flipped(flipped(after.cells)) =~= after.cells);
                lemma_flipped_isomorphic(after.cells);
                lemma_isomorphic(after.cells, flipped(after.cells));
            }
        }
        result
    }
}

impl<C: Canonicalizer> IndexedSuccessorGroups for CanonicalSuccessorGroups<C> {
    open spec fn position(&self) -> Position {
        self.grid().cells
    }

    open spec fn group_count(&self) -> nat {
        group_total(self.grid())
    }

    open spec fn group_size(&self, group: int) -> nat {
        group_moves(self.grid(), group)
    }

    open spec fn after(&self, group: int, index: int) -> Position {
        position_after(self.grid(), group, index)
    }

    closed spec fn wf(&self) -> bool {
        self.stored()
    }

    fn len(&self) -> usize {
        self.specs.len()
    }

    fn group_len(&self, group_index: usize) -> usize {
        proof {
            let rows = move_rows(self.original@);
            let k = group_index as int;
            if k < rows.len() {
                assert(describes(
                    self.specs@[k],
                    Orientation::Original,
                    self.original@,
                    rows[k] as int,
                ));
                lemma_row_has_moves(self.original@, rows[k] as int);
            } else {
                assert(describes(
                    self.specs@[k],
                    Orientation::Transposed,
                    self.transposed@,
                    move_rows(self.transposed@)[k - rows.len()] as int,
                ));
                lemma_row_has_moves(
                    self.transposed@,
                    move_rows(self.transposed@)[k - rows.len()] as int,
                );
            }
        }
        proof {
            assert(self.group_size(group_index as int) == group_moves(
                self.grid(),
                group_index as int,
            ));
        }
        self.specs[group_index].len
    }

    fn successor(&self, group_index: usize, move_index: usize) -> (game: CanonicalGame)
        ensures
            is_canonicalized(
                &self.inner(),
                raw_after(self.grid(), group_index as int, move_index as int),
                game,
            ),
    {
        proof {
            assert(self.group_size(group_index as int) == group_moves(
                self.grid(),
                group_index as int,
            ));
            assert(self.after(group_index as int, move_index as int) == position_after(
                self.grid(),
                group_index as int,
                move_index as int,
            ));
        }
        let raw = self.raw_successor(group_index, move_index);
        let ghost cells = raw@.cells;
        let game = canonicalized(&*self.canonicalizer, raw);
        proof {
            lemma_stands_for_isomorphic(
                position_after(self.grid(), group_index as int, move_index as int),
                cells,
                game@,
            );
        }
        game
    }
}

proof fn lemma_groups_cover<C: Canonicalizer>(groups: CanonicalSuccessorGroups<C>)
    requires
        groups.stored(),
    ensures
        covers_moves(groups),
{
    let grid = groups.grid();
    assert forall|group: int, index: int|
        0 <= group < groups.group_count() && 0 <= index < groups.group_size(group) implies is_option(
        groups.position(),
        #[trigger] groups.after(group, index),
    ) by {
        lemma_generated_is_option(grid, group, index);
    }
    if moves_fit(groups.position()) {
        lemma_both_ways_fit(groups.grid());
        assert forall|t: Position| #[trigger] is_option(groups.position(), t) implies exists|
            group: int,
            index: int,
        | group_has_value(groups, group, index, grundy(t)) by {
            lemma_generated_cover(grid, t);
            let (k, m) = choose|k: int, m: int| generated_value(grid, k, m, grundy(t));
            assert(group_has_value(groups, k, m, grundy(t)));
        }
    }
}

/// The successors of one component, one after the other.
pub struct CanonicalSuccessors<C> {
    groups: CanonicalSuccessorGroups<C>,
    group_index: usize,
    move_index: usize,
}

impl<C: Canonicalizer> CanonicalSuccessors<C> {
    /// The component.
    pub closed spec fn grid(&self) -> Grid {
        self.groups.grid()
    }

    /// The canonicalizer.
    pub closed spec fn inner(&self) -> C {
        self.groups.inner()
    }

    /// How many successors have been handed out.
    pub closed spec fn count(&self) -> int {
        positions_up_to(self.groups.grid(), self.group_index as nat).len() + self.move_index
    }

    pub closed spec fn wf(&self) -> bool {
        &&& self.groups.stored()
        &&& self.group_index <= group_total(self.groups.grid())
        &&& self.group_index < group_total(self.groups.grid()) ==> self.move_index <= group_moves(
            self.groups.grid(),
            self.group_index as int,
        )
        &&& self.group_index == group_total(self.groups.grid()) ==> self.move_index == 0
    }

    fn new(groups: CanonicalSuccessorGroups<C>) -> (successors: Self)
        requires
            groups.stored(),
        ensures
            successors.wf(),
            successors.grid() == groups.grid(),
            successors.inner() == groups.inner(),
            successors.count() == 0,
    {
        CanonicalSuccessors { groups, group_index: 0, move_index: 0 }
    }

    /// The next successor, if there is one.
    pub fn next(&mut self) -> (successor: Option<CanonicalGame>)
        requires
            old(self).wf(),
        ensures
            final(self).wf(),
            final(self).grid() == old(self).grid(),
            final(self).inner() == old(self).inner(),
            match successor {
                Some(game) => {
                    &&& old(self).count() < positions(old(self).grid()).len()
                    &&& final(self).count() == old(self).count() + 1
                    &&& game.wf()
                    &&& stands_for(positions(old(self).grid())[old(self).count()], game@)
                    &&& is_canonicalized(
                        &old(self).inner(),
                        raws(old(self).grid())[old(self).count()],
                        game,
                    )
                },
                None => {
                    &&& old(self).count() == positions(old(self).grid()).len()
                    &&& final(self).count() == old(self).count()
                },
            },
    {
        let ghost grid = self.groups.grid();
        while self.group_index < self.groups.len()
            invariant
                self.wf(),
                self.groups.grid() == grid,
                grid == old(self).grid(),
                self.inner() == old(self).inner(),
                self.count() == old(self).count(),
            decreases group_total(grid) - self.group_index,
        {
            let group_len: usize = self.groups.group_len(self.group_index);
            if self.move_index < group_len {
                let successor = self.groups.successor(self.group_index, self.move_index);
                proof {
                    lemma_position_at(grid, self.group_index as int, self.move_index as int);
                    lemma_raw_at(grid, self.group_index as int, self.move_index as int);
                }
                self.move_index = self.move_index + 1;
                return Some(successor);
            }
            self.group_index = self.group_index + 1;
            self.move_index = 0;
        }
        None
    }
}

/// A successor and how many nodes the move to it takes.
#[derive(Debug, PartialEq, Eq)]
pub struct OrderedSuccessor {
    pub removed_nodes: usize,
    pub game: CanonicalGame,
}

impl<C> CanonicalMoveGenerator<C> {
    pub closed spec fn inner(&self) -> C {
        *self.canonicalizer
    }

    pub fn new(canonicalizer: C) -> (generator: Self)
        ensures
            generator.inner() == canonicalizer,
    {
        CanonicalMoveGenerator { canonicalizer: Arc::new(canonicalizer) }
    }

    pub fn canonicalizer(&self) -> (canonicalizer: &C)
        ensures
            *canonicalizer == self.inner(),
    {
        &self.canonicalizer
    }
}

/// The numbers of nodes that the generated moves leave.
pub open spec fn nodes_left(grid: Grid) -> Seq<usize> {
    positions(grid).map_values(|position: Position| position.len() as usize)
}

/// The generated moves, those that take more nodes first.
pub open spec fn by_nodes_taken(grid: Grid) -> Seq<usize> {
    sorting(positions(grid).len(), by_number(nodes_left(grid)))
}

/// Whether `matrices` are the first generated matrices, and `left` are their numbers of nodes.
spec fn are_raw(grid: Grid, matrices: Seq<BitMatrix>, left: Seq<usize>) -> bool {
    &&& left.len() == matrices.len()
    &&& forall|i: int|
        0 <= i < matrices.len() ==> {
            &&& (#[trigger] matrices[i]).wf()
            &&& positions(grid)[i].finite()
            &&& isomorphic(positions(grid)[i], matrices[i]@.cells)
            &&& matrices[i]@ == raws(grid)[i]
        }
    &&& forall|i: int|
        0 <= i < left.len() ==> #[trigger] left[i] == positions(grid)[i].len() && left[i]
            == matrices[i]@.cells.len()
}

impl<C: Canonicalizer> CanonicalMoveGenerator<C> {
    /// The successors, those that take more nodes first.
    pub fn ordered_successors(&self, component: &BitMatrix) -> (successors: Vec<OrderedSuccessor>)
        requires
            component.wf(),
        ensures
            successors@.len() == positions(component@).len(),
            is_permutation(by_nodes_taken(component@), positions(component@).len()),
            forall|k: int|
                0 <= k < successors@.len() ==> {
                    let position = positions(component@)[by_nodes_taken(component@)[k] as int];
                    &&& (#[trigger] successors@[k]).removed_nodes == component@.cells.len()
                        - position.len()
                    &&& position.len() == raws(
                        component@,
                    )[by_nodes_taken(component@)[k] as int].cells.len()
                    &&& successors@[k].game.wf()
                    &&& stands_for(position, successors@[k].game@)
                    &&& is_canonicalized(
                        &self.inner(),
                        raws(component@)[by_nodes_taken(component@)[k] as int],
                        successors@[k].game,
                    )
                },
            forall|k: int|
                0 <= k < successors@.len() ==> (#[trigger] successors@[k]).removed_nodes >= 1,
            forall|i: int, j: int|
                0 <= i < j < successors@.len() ==> (#[trigger] successors@[i]).removed_nodes >= (
                #[trigger] successors@[j]).removed_nodes,
            forall|k: int|
                0 <= k < successors@.len() ==> (#[trigger] by_nodes_taken(component@)[k])
                    < successors@.len(),
            forall|i: int|
                0 <= i < successors@.len() ==> by_nodes_taken(component@).contains(
                    #[trigger] (i as usize),
                ),
    {
        let ghost grid = component@;
        let original_nodes: usize = component.count_ones();
        let groups = CanonicalSuccessorGroups::new(component, self.canonicalizer.clone());
        let mut matrices: Vec<BitMatrix> = Vec::new();
        let mut left: Vec<usize> = Vec::new();
        let mut group_index: usize = 0;
        while group_index < groups.len()
            invariant
                groups.stored(),
                groups.grid() == grid,
                component.wf(),
                component@ == grid,
                original_nodes == grid.cells.len(),
                group_index <= group_total(grid),
                matrices@.len() == positions_up_to(grid, group_index as nat).len(),
                are_raw(grid, matrices@, left@),
            decreases group_total(grid) - group_index,
        {
            let group_len: usize = groups.group_len(group_index);
            let ghost done = positions_up_to(grid, group_index as nat);
            let mut move_index: usize = 0;
            while move_index < group_len
                invariant
                    groups.stored(),
                    groups.grid() == grid,
                    group_index < group_total(grid),
                    group_len == group_moves(grid, group_index as int),
                    move_index <= group_len,
                    done == positions_up_to(grid, group_index as nat),
                    matrices@.len() == done.len() + move_index,
                    are_raw(grid, matrices@, left@),
                decreases group_len - move_index,
            {
                let raw = groups.raw_successor(group_index, move_index);
                proof {
                    lemma_position_at(grid, group_index as int, move_index as int);
                    lemma_raw_at(grid, group_index as int, move_index as int);
                    lemma_isomorphic(
                        position_after(grid, group_index as int, move_index as int),
                        raw@.cells,
                    );
                }
                let ghost earlier = matrices@;
                let ghost last = raw;
                left.push(raw.count_ones());
                matrices.push(raw);
                proof {
                    assert(matrices@ == earlier.push(last));
                    assert forall|i: int| 0 <= i < matrices@.len() implies {
                        &&& (#[trigger] matrices@[i]).wf()
                        &&& positions(grid)[i].finite()
                        &&& isomorphic(positions(grid)[i], matrices@[i]@.cells)
                        &&& matrices@[i]@ == raws(grid)[i]
                    } by {
                        if i < earlier.len() {
                            assert(matrices@[i] == earlier[i]);
                        } else {
                            assert(matrices@[i] == last);
                        }
                    }
                }
                move_index = move_index + 1;
            }
            group_index = group_index + 1;
        }
        proof {
            assert(left@ =~= nodes_left(grid));
            lemma_by_number(left@);
            assert(left@.len() == left.len());
        }
        let ghost lt = by_number(left@);
        let less = |i: usize, j: usize| -> (b: bool)
            requires
                i < left@.len(),
                j < left@.len(),
            ensures
                b == (left@[i as int] < left@[j as int]),
            { left[i] < left[j] };
        proof {
            assert(decides(less, left@.len(), lt));
        }
        let order: Vec<usize> = sort_indices(left.len(), &less, Ghost(lt));
        let mut successors: Vec<OrderedSuccessor> = Vec::new();
        let mut k: usize = 0;
        while k < order.len()
            invariant
                component.wf(),
                component@ == grid,
                original_nodes == grid.cells.len(),
                order@ == by_nodes_taken(grid),
                is_permutation(order@, positions(grid).len()),
                matrices@.len() == positions(grid).len(),
                are_raw(grid, matrices@, left@),
                k <= order@.len(),
                successors@.len() == k,
                forall|j: int|
                    0 <= j < k ==> {
                        let position = positions(grid)[order@[j] as int];
                        &&& (#[trigger] successors@[j]).removed_nodes == grid.cells.len()
                            - position.len()
                        &&& position.len() == raws(grid)[order@[j] as int].cells.len()
                        &&& successors@[j].game.wf()
                        &&& stands_for(position, successors@[j].game@)
                        &&& successors@[j].removed_nodes >= 1
                        &&& is_canonicalized(
                            &self.inner(),
                            raws(grid)[order@[j] as int],
                            successors@[j].game,
                        )
                    },
            decreases order@.len() - k,
        {
            let index: usize = order[k];
            proof {
                assert(order@[k as int] < positions(grid).len());
                let at = lemma_position_found(grid, index as int, group_total(grid));
                lemma_generated_is_option(grid, at.0, at.1);
                assert(matrices@[index as int].wf());
            }
            let raw = matrices[index].clone();
            let ghost cells = raw@.cells;
            let game = canonicalized(&*self.canonicalizer, raw);
            proof {
                lemma_stands_for_isomorphic(positions(grid)[index as int], cells, game@);
            }
            successors.push(OrderedSuccessor { removed_nodes: original_nodes - left[index], game });
            k = k + 1;
        }
        proof {
            lemma_permutation_covers(order@, positions(grid).len());
            assert forall|i: int, j: int| 0 <= i < j < successors@.len() implies (
            #[trigger] successors@[i]).removed_nodes >= (#[trigger] successors@[j]).removed_nodes by {
                assert(goes_first(lt, order@[i] as int, order@[j] as int));
                assert(order@[i] < left@.len() && order@[j] < left@.len());
            }
        }
        successors
    }
}

impl<C: Canonicalizer> SuccessorGenerator for CanonicalMoveGenerator<C> {
    type SuccessorGroups = CanonicalSuccessorGroups<C>;

    fn canonicalize(&self, matrix: BitMatrix) -> (game: CanonicalGame)
        ensures
            call_ensures(C::canonicalize, (&self.inner(), matrix), game),
    {
        canonicalized(&*self.canonicalizer, matrix)
    }

    fn successors(&self, component: &BitMatrix) -> (games: Vec<CanonicalGame>)
        ensures
            games@.len() == positions(component@).len(),
            forall|i: int|
                0 <= i < games@.len() ==> stands_for(
                    positions(component@)[i],
                    (#[trigger] games@[i])@,
                ) && is_canonicalized(&self.inner(), raws(component@)[i], games@[i]),
    {
        let ghost grid = component@;
        let mut successors = CanonicalSuccessors::new(
            CanonicalSuccessorGroups::new(component, self.canonicalizer.clone()),
        );
        let mut games: Vec<CanonicalGame> = Vec::new();
        loop
            invariant
                successors.wf(),
                successors.grid() == grid,
                successors.count() == games@.len(),
                games@.len() <= positions(grid).len(),
                forall|i: int|
                    0 <= i < games@.len() ==> (#[trigger] games@[i]).wf() && stands_for(
                        positions(grid)[i],
                        games@[i]@,
                    ) && is_canonicalized(&self.inner(), raws(grid)[i], games@[i]),
                successors.inner() == self.inner(),
            ensures
                games@.len() == positions(grid).len(),
            decreases positions(grid).len() - games@.len(),
        {
            match successors.next() {
                Some(game) => {
                    games.push(game);
                },
                None => {
                    break;
                },
            }
        }
        proof {
            lemma_are_successors(grid, games@);
        }
        games
    }

    fn successor_groups(&self, component: &BitMatrix) -> (groups: CanonicalSuccessorGroups<C>)
        ensures
            groups.grid() == component@,
            groups.inner() == self.inner(),
    {
        let groups = CanonicalSuccessorGroups::new(component, self.canonicalizer.clone());
        proof {
            lemma_groups_cover(groups);
        }
        groups
    }

    fn estimated_successors(&self, component: &BitMatrix) -> (count: usize)
        ensures
            count == estimated_moves(component@),
    {
        let transposed = component.transposed();
        let along_rows: usize = representative_move_count(component);
        let along_cols: usize = representative_move_count(&transposed);
        along_rows.saturating_add(along_cols)
    }
}

/// Every generated position is reached by a move.
pub proof fn lemma_positions_are_options(grid: Grid, i: int)
    requires
        grid.wf(),
        grid.rows <= usize::MAX,
        grid.cols <= usize::MAX,
        0 <= i < positions(grid).len(),
    ensures
        is_option(grid.cells, positions(grid)[i]),
{
    let at = lemma_position_found(grid, i, group_total(grid));
    lemma_generated_is_option(grid, at.0, at.1);
}

/// Every nimber that a move reaches is that of a generated position, if a machine word can count the
/// moves.
pub proof fn lemma_positions_cover(grid: Grid, t: Position) -> (i: int)
    requires
        grid.wf(),
        grid.rows <= usize::MAX,
        grid.cols <= usize::MAX,
        ways_fit(grid),
        ways_fit(grid.transposed()),
        is_option(grid.cells, t),
    ensures
        0 <= i < positions(grid).len(),
        grundy(positions(grid)[i]) == grundy(t),
{
    lemma_generated_cover(grid, t);
    let (k, m) = choose|k: int, m: int| generated_value(grid, k, m, grundy(t));
    lemma_position_at(grid, k, m);
    positions_up_to(grid, k as nat).len() + m
}

proof fn lemma_are_successors(grid: Grid, games: Seq<CanonicalGame>)
    requires
        grid.wf(),
        grid.rows <= usize::MAX,
        grid.cols <= usize::MAX,
        games.len() == positions(grid).len(),
        forall|i: int|
            0 <= i < games.len() ==> (#[trigger] games[i]).wf() && stands_for(
                positions(grid)[i],
                games[i]@,
            ),
    ensures
        are_successors(grid.cells, games),
{
    assert forall|i: int| 0 <= i < games.len() implies (#[trigger] games[i]).wf() && is_successor(
        grid.cells,
        games[i]@,
    ) by {
        lemma_positions_are_options(grid, i);
        assert(is_option(grid.cells, positions(grid)[i]) && stands_for(
            positions(grid)[i],
            games[i]@,
        ));
    }
    if moves_fit(grid.cells) {
        lemma_both_ways_fit(grid);
        assert forall|t: Position| #[trigger] is_option(grid.cells, t) implies exists|i: int|
            0 <= i < games.len() && nim_total(values(#[trigger] games[i]@)) == grundy(t) by {
            let i = lemma_positions_cover(grid, t);
            assert(games[i].wf());
            assert(nim_total(values(games[i]@)) == grundy(t));
        }
    }
}

/// The next subset of `mask` after `word`, where subsets are counted as numbers; the empty one
/// after the last.
pub open spec fn next_subset(word: u64, mask: u64) -> u64 {
    vstd::wrapping::u64_specs::wrapping_sub(word, mask) & mask
}

/// `next_subset` gives the next larger subset, and the empty one only after the whole mask.
pub proof fn lemma_next_subset(word: u64, mask: u64, other: u64)
    requires
        word & mask == word,
        other & mask == other,
    ensures
        next_subset(word, mask) & mask == next_subset(word, mask),
        next_subset(word, mask) == 0 <==> word == mask,
        word != mask ==> word < next_subset(word, mask),
        word < other ==> next_subset(word, mask) <= other,
{
    let less = vstd::wrapping::u64_specs::wrapping_sub(word, mask);
    assert(less == ((word - mask) as u64)) by {
        if word >= mask {
            assert(less == word - mask);
        } else {
            assert(less == word - mask + 0x1_0000_0000_0000_0000);
            assert(((word - mask) as u64) == (0x1_0000_0000_0000_0000 + word - mask) as u64)
                by (bit_vector);
        }
    }
    assert((less & mask) & mask == less & mask) by (bit_vector);
    assert(less == ((word - mask) as u64) && word & mask == word ==> (less & mask == 0 <==> word
        == mask)) by (bit_vector);
    assert(less == ((word - mask) as u64) && word & mask == word && word != mask ==> word < less
        & mask) by (bit_vector);
    assert(less == ((word - mask) as u64) && word & mask == word && other & mask == other && word
        < other ==> less & mask <= other) by (bit_vector);
}

/// Increments a bitset while skipping every bit absent from `allowed`.
///
/// Each word acts as one digit whose values are all subsets of its allowed
/// bits. Carrying between words makes this work for arbitrarily wide rows.
pub fn increment_masked(value: &mut Vec<u64>, allowed: &[u64]) -> (more: bool)
    ensures
        final(value)@.len() == old(value)@.len(),
        more ==> exists|k: int| #[trigger]
            incremented_at(old(value)@, final(value)@, allowed@, k) && k < old(value)@.len() && k
                < allowed@.len() && final(value)@[k] != 0,
        !more ==> incremented_at(old(value)@, final(value)@, allowed@, shorter(old(value)@, allowed@)),
{
    let ghost before = value@;
    let mut k: usize = 0;
    while k < value.len() && k < allowed.len()
        invariant
            before == old(value)@,
            k <= value@.len(),
            k <= allowed@.len(),
            value@.len() == before.len(),
            forall|i: int|
                0 <= i < k ==> #[trigger] value@[i] == 0 && next_subset(before[i], allowed@[i]) == 0,
            forall|i: int| k <= i < before.len() ==> #[trigger] value@[i] == before[i],
        decreases before.len() - k,
    {
        let ghost earlier = value@;
        proof {
            assert(earlier[k as int] == before[k as int]);
        }
        let word: u64 = value[k].wrapping_sub(allowed[k]) & allowed[k];
        value.set(k, word);
        proof {
            assert(word == next_subset(before[k as int], allowed@[k as int]));
            assert(value@ == earlier.update(k as int, word));
            assert forall|i: int| 0 <= i < k implies #[trigger] value@[i] == 0 && next_subset(
                before[i],
                allowed@[i],
            ) == 0 by {
                assert(earlier[i] == 0);
            }
            assert forall|i: int| k < i < before.len() implies #[trigger] value@[i] == before[i] by {
                assert(earlier[i] == before[i]);
            }
        }
        if word != 0 {
            proof {
                assert(value@[k as int] == word);
                assert(incremented_at(before, value@, allowed@, k as int));
            }
            return true;
        }
        k = k + 1;
    }
    proof {
        let end = shorter(before, allowed@);
        assert(k == end);
        assert forall|i: int| 0 <= i < end implies #[trigger] value@[i] == 0 && next_subset(
            before[i],
            allowed@[i],
        ) == 0 by {
            assert(0 <= i < k);
        }
        assert forall|i: int| end < i < before.len() implies #[trigger] value@[i] == before[i] by {
            assert(k <= i);
        }
        assert(end < before.len() ==> value@[end] == before[end]);
        assert(incremented_at(before, value@, allowed@, end));
    }
    false
}

/// The length of the shorter list.
pub open spec fn shorter(a: Seq<u64>, b: Seq<u64>) -> int {
    if a.len() < b.len() {
        a.len() as int
    } else {
        b.len() as int
    }
}

/// Whether the words below `k` have run through all their subsets, word `k` has gone to the next
/// one, and later words have not changed.
pub open spec fn incremented_at(before: Seq<u64>, after: Seq<u64>, allowed: Seq<u64>, k: int) -> bool {
    &&& 0 <= k <= before.len()
    &&& k <= allowed.len()
    &&& forall|i: int|
        0 <= i < k ==> #[trigger] after[i] == 0 && next_subset(before[i], allowed[i]) == 0
    &&& k < before.len() && k < allowed.len() ==> after[k] == next_subset(before[k], allowed[k])
    &&& k < before.len() && k == allowed.len() ==> after[k] == before[k]
    &&& forall|i: int| k < i < before.len() ==> #[trigger] after[i] == before[i]
}

} // verus!
