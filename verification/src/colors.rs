//! Colour refinement of the rows and columns of a matrix.
use crate::grid::{lemma_from_fn_wf, Grid};
use crate::matrix::BitMatrix;
use crate::nim::{isomorphic, keeps_lines, relabels};
use crate::order::{lemma_lex_asymmetric, lemma_lex_total, lemma_lex_transitive, lex_lt};
use crate::order::{lemma_number_values_injective, lex_lt_at, number_values, numbers_equal};
use crate::order::numbers_precede;
use crate::sorting::{ascending, decides, goes_first, is_ranking, is_sorting, lemma_permutation_covers};
use crate::sorting::{number_leq, sort_indices, sort_numbers};
use vstd::multiset::Multiset;
use vstd::prelude::*;
use vstd::relations::total_ordering;

verus! {

broadcast use lemma_from_fn_wf;

/// A colour for every row and every column.
#[verifier::ext_equal]
pub struct Colors {
    pub rows: Seq<usize>,
    pub cols: Seq<usize>,
}

/// What distinguishes row `r`: its side, its colour, and the sorted colours of the columns that it
/// shares a set cell with.
pub open spec fn row_signature(grid: Grid, colors: Colors, r: int) -> Seq<int> {
    seq![0int, colors.rows[r] as int] + number_values(
        ascending(grid.row_list(r).map_values(|c: usize| colors.cols[c as int])),
    )
}

/// What distinguishes column `c`: its side, its colour, and the sorted colours of the rows that it
/// shares a set cell with.
pub open spec fn col_signature(grid: Grid, colors: Colors, c: int) -> Seq<int> {
    seq![1int, colors.cols[c] as int] + number_values(
        ascending(grid.transposed().row_list(c).map_values(|r: usize| colors.rows[r as int])),
    )
}

/// The signatures of all rows, then of all columns.
pub open spec fn signatures(grid: Grid, colors: Colors) -> Seq<Seq<int>> {
    Seq::new(
        grid.rows + grid.cols,
        |i: int|
            if i < grid.rows {
                row_signature(grid, colors, i)
            } else {
                col_signature(grid, colors, i - grid.rows)
            },
    )
}

/// The different signatures that go before `signature`.
pub open spec fn preceding(all: Seq<Seq<int>>, signature: Seq<int>) -> Set<Seq<int>> {
    Set::new(|other: Seq<int>| all.contains(other) && lex_lt(other, signature))
}

/// The colour of the vertex with the given signature: how many different signatures go before it.
pub open spec fn rank(all: Seq<Seq<int>>, signature: Seq<int>) -> usize {
    preceding(all, signature).len() as usize
}

/// The colours after one more round of refinement.
pub open spec fn next_colors(grid: Grid, colors: Colors) -> Colors {
    let all = signatures(grid, colors);
    Colors {
        rows: Seq::new(grid.rows, |r: int| rank(all, all[r])),
        cols: Seq::new(grid.cols, |c: int| rank(all, all[grid.rows + c])),
    }
}

/// The colours after `k` rounds of refinement.
pub open spec fn colors_after(grid: Grid, k: nat) -> Colors
    decreases k,
{
    if k == 0 {
        Colors { rows: Seq::new(grid.rows, |r: int| 0), cols: Seq::new(grid.cols, |c: int| 0) }
    } else {
        next_colors(grid, colors_after(grid, (k - 1) as nat))
    }
}

/// The number of colours after `k` rounds of refinement, with none before the first.
pub open spec fn count_after(grid: Grid, k: nat) -> nat {
    if k == 0 {
        0
    } else {
        signatures(grid, colors_after(grid, (k - 1) as nat)).to_set().len()
    }
}

/// Whether round `k` changes the number of colours.
pub open spec fn changes_count(grid: Grid, k: nat) -> bool {
    count_after(grid, k) != count_after(grid, (k - 1) as nat)
}

/// Whether round `k` is the first that leaves the number of colours as it was.
pub open spec fn is_stable_round(grid: Grid, k: nat) -> bool {
    &&& k > 0
    &&& !changes_count(grid, k)
    &&& forall|j: nat| 0 < j < k ==> #[trigger] changes_count(grid, j)
}

/// The colours after the first round that leaves their number as it was.
pub open spec fn refined_colors(grid: Grid) -> Colors {
    colors_after(grid, choose|k: nat| is_stable_round(grid, k))
}

/// Whether rank follows the order of signatures.
pub open spec fn by_signature(all: Seq<Seq<int>>) -> spec_fn(int, int) -> bool {
    |i: int, j: int| lex_lt(all[i], all[j])
}

/// The order of signatures ranks the vertices.
pub proof fn lemma_by_signature(all: Seq<Seq<int>>)
    ensures
        is_ranking(all.len(), by_signature(all)),
{
    let lt = by_signature(all);
    assert forall|i: int, j: int| 0 <= i < all.len() && 0 <= j < all.len() implies !(
    #[trigger] lt(i, j) && lt(j, i)) by {
        lemma_lex_asymmetric(all[i], all[j]);
    }
    assert forall|i: int, j: int, k: int|
        0 <= i < all.len() && 0 <= j < all.len() && 0 <= k < all.len() && !(#[trigger] lt(j, i)) && !(
        #[trigger] lt(k, j)) implies !lt(k, i) by {
        if lt(k, i) {
            lemma_lex_total(all[k], all[j]);
            lemma_lex_total(all[j], all[i]);
            if lex_lt(all[j], all[k]) {
                lemma_lex_transitive(all[j], all[k], all[i]);
            }
        }
    }
}

/// The vertices have as many signatures as there are at most, and ranks stay below their number.
proof fn lemma_ranks(all: Seq<Seq<int>>)
    ensures
        all.to_set().finite(),
        all.to_set().len() <= all.len(),
        forall|s: Seq<int>|
            all.contains(s) ==> (#[trigger] preceding(all, s)).finite() && preceding(all, s).len()
                < all.to_set().len(),
{
    vstd::seq_lib::seq_to_set_is_finite(all);
    all.lemma_cardinality_of_set();
    assert forall|s: Seq<int>| all.contains(s) implies (#[trigger] preceding(all, s)).finite()
        && preceding(all, s).len() < all.to_set().len() by {
        lemma_lex_asymmetric(s, s);
        let fewer = all.to_set().remove(s);
        assert(preceding(all, s).subset_of(fewer));
        vstd::set_lib::lemma_len_subset(preceding(all, s), fewer);
    }
}

/// Different signatures have different ranks.
proof fn lemma_ranks_differ(all: Seq<Seq<int>>, s: Seq<int>, t: Seq<int>)
    requires
        all.contains(s),
        all.contains(t),
        s != t,
    ensures
        preceding(all, s).len() != preceding(all, t).len(),
{
    lemma_lex_total(s, t);
    if lex_lt(s, t) {
        lemma_lower_rank(all, s, t);
    } else {
        lemma_lower_rank(all, t, s);
    }
}

proof fn lemma_lower_rank(all: Seq<Seq<int>>, s: Seq<int>, t: Seq<int>)
    requires
        all.contains(s),
        all.contains(t),
        lex_lt(s, t),
    ensures
        preceding(all, s).len() < preceding(all, t).len(),
{
    lemma_ranks(all);
    lemma_lex_asymmetric(s, s);
    let fewer = preceding(all, t).remove(s);
    assert(preceding(all, t).contains(s));
    assert(preceding(all, s).subset_of(fewer)) by {
        assert forall|u: Seq<int>| preceding(all, s).contains(u) implies fewer.contains(u) by {
            lemma_lex_transitive(u, s, t);
        }
    }
    vstd::set_lib::lemma_len_subset(preceding(all, s), fewer);
}

/// The signatures of a round show as many colours as the round before has found.
proof fn lemma_shown_colors(grid: Grid, k: nat)
    requires
        grid.rows + grid.cols <= usize::MAX,
        k > 0,
    ensures
        signatures(grid, colors_after(grid, k)).to_set().map(|s: Seq<int>| s[1]).len()
            == count_after(grid, k),
{
    let now = signatures(grid, colors_after(grid, k));
    lemma_ranks(now);
    let colors = colors_after(grid, (k - 1) as nat);
    let old = signatures(grid, colors);
    lemma_ranks(old);
    let of_old = |s: Seq<int>| preceding(old, s).len() as int;
    let of_now = |s: Seq<int>| s[1];
    let values = old.to_set().map(of_old);
    assert(vstd::relations::injective_on(of_old, old.to_set())) by {
        assert forall|s: Seq<int>, t: Seq<int>|
            old.to_set().contains(s) && old.to_set().contains(t) && #[trigger] of_old(s)
                == #[trigger] of_old(t) implies s == t by {
            if s != t {
                lemma_ranks_differ(old, s, t);
            }
        }
    }
    vstd::set_lib::lemma_map_size(old.to_set(), values, of_old);
    assert(now.to_set().map(of_now) =~= values) by {
        assert forall|i: int| 0 <= i < old.len() implies of_now(#[trigger] now[i]) == of_old(
            old[i],
        ) by {
            assert(old.contains(old[i]));
        }
        assert forall|v: int| now.to_set().map(of_now).contains(v) implies values.contains(v) by {
            let s = choose|s: Seq<int>| now.to_set().contains(s) && v == of_now(s);
            let i = choose|i: int| 0 <= i < now.len() && now[i] == s;
            assert(old.to_set().contains(old[i]));
            assert(v == of_old(old[i]));
        }
        assert forall|v: int| values.contains(v) implies now.to_set().map(of_now).contains(v) by {
            let s = choose|s: Seq<int>| old.to_set().contains(s) && v == of_old(s);
            let i = choose|i: int| 0 <= i < old.len() && old[i] == s;
            assert(now.to_set().contains(now[i]));
            assert(v == of_now(now[i]));
        }
    }
}

/// Refinement only splits colours, so their number does not fall.
proof fn lemma_counts_grow(grid: Grid, k: nat)
    requires
        grid.rows + grid.cols <= usize::MAX,
    ensures
        count_after(grid, k) <= count_after(grid, k + 1),
        count_after(grid, k + 1) <= grid.rows + grid.cols,
{
    let now = signatures(grid, colors_after(grid, k));
    lemma_ranks(now);
    if k > 0 {
        lemma_shown_colors(grid, k);
        let of_now = |s: Seq<int>| s[1];
        vstd::set_lib::lemma_map_size_bound(now.to_set(), now.to_set().map(of_now), of_now);
    }
}

/// The signatures as they are held in memory.
spec fn held(signatures: Seq<Vec<usize>>) -> Seq<Seq<int>> {
    Seq::new(signatures.len(), |i: int| number_values(signatures[i]@))
}

/// The signatures of all rows of `matrix`, on side `side`, given colours of rows and of columns.
fn row_signatures(
    matrix: &BitMatrix,
    side: usize,
    row_colors: &Vec<usize>,
    col_colors: &Vec<usize>,
) -> (signatures: Vec<Vec<usize>>)
    requires
        matrix.wf(),
        row_colors@.len() == matrix@.rows,
        col_colors@.len() == matrix@.cols,
    ensures
        signatures@.len() == matrix@.rows,
        forall|r: int|
            0 <= r < signatures@.len() ==> number_values((#[trigger] signatures@[r])@) == seq![
                side as int,
                row_colors@[r] as int,
            ] + number_values(
                ascending(matrix@.row_list(r).map_values(|c: usize| col_colors@[c as int])),
            ),
{
    let mut signatures: Vec<Vec<usize>> = Vec::new();
    let mut row: usize = 0;
    while row < matrix.rows()
        invariant
            matrix.wf(),
            row_colors@.len() == matrix@.rows,
            col_colors@.len() == matrix@.cols,
            row <= matrix@.rows,
            signatures@.len() == row,
            forall|r: int|
                0 <= r < signatures@.len() ==> number_values((#[trigger] signatures@[r])@) == seq![
                    side as int,
                    row_colors@[r] as int,
                ] + number_values(
                    ascending(matrix@.row_list(r).map_values(|c: usize| col_colors@[c as int])),
                ),
        decreases matrix@.rows - row,
    {
        let ones: Vec<usize> = matrix.row_ones(row);
        let mut neighbours: Vec<usize> = Vec::new();
        let mut k: usize = 0;
        while k < ones.len()
            invariant
                matrix.wf(),
                col_colors@.len() == matrix@.cols,
                crate::matrix::lists_row(matrix@, row as int, ones@),
                k <= ones@.len(),
                neighbours@.len() == k,
                forall|i: int|
                    0 <= i < k ==> #[trigger] neighbours@[i] == col_colors@[ones@[i] as int],
            decreases ones@.len() - k,
        {
            proof {
                assert(matrix@.cells.contains((row as int, ones@[k as int] as int)));
            }
            neighbours.push(col_colors[ones[k]]);
            k = k + 1;
        }
        proof {
            assert(neighbours@ =~= matrix@.row_list(row as int).map_values(
                |c: usize| col_colors@[c as int],
            ));
        }
        let sorted: Vec<usize> = sort_numbers(&neighbours);
        let mut signature: Vec<usize> = Vec::new();
        signature.push(side);
        signature.push(row_colors[row]);
        signature.extend_from_slice(sorted.as_slice());
        proof {
            assert(number_values(signature@) =~= seq![side as int, row_colors@[row as int] as int]
                + number_values(sorted@));
        }
        signatures.push(signature);
        row = row + 1;
    }
    signatures
}

/// The ranks of the signatures, and how many different ones there are.
fn compress_signatures(rows: Vec<Vec<usize>>, cols: Vec<Vec<usize>>) -> (compressed: (
    Vec<usize>,
    Vec<usize>,
    usize,
))
    requires
        rows@.len() + cols@.len() <= usize::MAX,
    ensures
        ({
            let all = held(rows@ + cols@);
            &&& compressed.0@ == Seq::new(rows@.len(), |r: int| rank(all, all[r]))
            &&& compressed.1@ == Seq::new(cols@.len(), |c: int| rank(all, all[rows@.len() + c]))
            &&& compressed.2 == all.to_set().len()
        }),
{
    let row_count: usize = rows.len();
    let col_count: usize = cols.len();
    let ghost joined = rows@ + cols@;
    let mut indexed: Vec<Vec<usize>> = rows;
    let mut more: Vec<Vec<usize>> = cols;
    indexed.append(&mut more);
    proof {
        assert(indexed@ =~= joined);
    }
    let ghost all = held(indexed@);
    let ghost lt = by_signature(all);
    let less = |i: usize, j: usize| -> (b: bool)
        requires
            i < indexed@.len(),
            j < indexed@.len(),
        ensures
            b == lex_lt(number_values(indexed@[i as int]@), number_values(indexed@[j as int]@)),
        { numbers_precede(indexed[i].as_slice(), indexed[j].as_slice()) };
    proof {
        lemma_by_signature(all);
        assert(decides(less, all.len(), lt));
    }
    let order: Vec<usize> = sort_indices(indexed.len(), &less, Ghost(lt));
    let mut colors: Vec<usize> = vec![0; indexed.len()];
    let mut color: usize = 0;
    let ghost mut seen: Set<Seq<int>> = Set::empty();
    let mut k: usize = 0;
    while k < order.len()
        invariant
            k <= order@.len(),
            order@.len() == indexed@.len(),
            indexed@.len() <= usize::MAX,
            all == held(indexed@),
            lt == by_signature(all),
            is_sorting(order@, all.len(), lt),
            is_ranking(all.len(), lt),
            colors@.len() == all.len(),
            seen.finite(),
            k == 0 ==> color == 0 && seen.len() == 0,
            k > 0 ==> seen.len() == color + 1,
            color <= k,
            forall|s: Seq<int>| #[trigger]
                seen.contains(s) <==> exists|i: int| 0 <= i < k && s == all[#[trigger] order@[i] as int],
            forall|i: int|
                0 <= i < k ==> colors@[#[trigger] order@[i] as int] == preceding(
                    all,
                    all[order@[i] as int],
                ).len(),
        decreases order@.len() - k,
    {
        let vertex: usize = order[k];
        let ghost s = all[vertex as int];
        proof {
            assert(vertex < all.len());
            lemma_lex_asymmetric(s, s);
            lemma_permutation_covers(order@, all.len());
            assert forall|t: Seq<int>| all.contains(t) && lex_lt(t, s) implies seen.contains(t) by {
                let v = choose|v: int| 0 <= v < all.len() && all[v] == t;
                assert(order@.contains(v as usize));
                let i = choose|i: int| 0 <= i < order@.len() && order@[i] == v as usize;
                if i >= k {
                    lemma_lex_asymmetric(t, s);
                    if i > k {
                        assert(goes_first(lt, order@[k as int] as int, order@[i] as int));
                    }
                }
                assert(t == all[order@[i] as int]);
            }
            assert forall|t: Seq<int>| seen.contains(t) implies all.contains(t) && !lex_lt(s, t) by {
                let i = choose|i: int| 0 <= i < k && t == all[#[trigger] order@[i] as int];
                assert(goes_first(lt, order@[i] as int, order@[k as int] as int));
                assert(order@[i] < all.len());
                lemma_lex_asymmetric(s, t);
            }
        }
        if k > 0 {
            let previous: usize = order[k - 1];
            let ghost last = all[previous as int];
            proof {
                assert(previous < all.len());
                assert(goes_first(lt, previous as int, vertex as int));
                assert(seen.contains(last));
                lemma_lex_total(s, last);
                if all[previous as int] == s {
                    crate::order::lemma_number_values_injective(
                        indexed@[previous as int]@,
                        indexed@[vertex as int]@,
                    );
                }
                assert forall|t: Seq<int>| seen.contains(t) && t != last implies lex_lt(t, last) by {
                    let i = choose|i: int| 0 <= i < k && t == all[#[trigger] order@[i] as int];
                    assert(i != k - 1);
                    assert(goes_first(lt, order@[i] as int, order@[k - 1] as int));
                    lemma_lex_total(t, last);
                }
            }
            if !numbers_equal(indexed[previous].as_slice(), indexed[vertex].as_slice()) {
                color = color + 1;
                proof {
                    assert(s != last);
                    assert(lex_lt(last, s)) by {
                        lemma_lex_asymmetric(s, last);
                    }
                    assert(preceding(all, s) =~= seen) by {
                        assert forall|t: Seq<int>| seen.contains(t) implies preceding(all, s).contains(
                            t,
                        ) by {
                            if t != last {
                                lemma_lex_transitive(t, last, s);
                            }
                        }
                    }
                    assert(!seen.contains(s));
                }
            } else {
                proof {
                    assert(s == last);
                    assert(preceding(all, s) =~= seen.remove(s));
                    assert(seen.insert(s) =~= seen);
                }
            }
        } else {
            proof {
                assert(preceding(all, s) =~= seen);
            }
        }
        let ghost before = colors@;
        colors.set(vertex, color);
        proof {
            let more = seen.insert(s);
            assert forall|t: Seq<int>| #[trigger] more.contains(t) <==> exists|i: int|
                0 <= i < k + 1 && t == all[#[trigger] order@[i] as int] by {
                if t == s {
                    assert(t == all[order@[k as int] as int]);
                } else if more.contains(t) {
                    assert(seen.contains(t));
                    let i = choose|i: int| 0 <= i < k && t == all[#[trigger] order@[i] as int];
                    assert(0 <= i < k + 1 && t == all[order@[i] as int]);
                } else {
                    assert(!seen.contains(t));
                }
            }
            assert forall|i: int| 0 <= i < k + 1 implies colors@[#[trigger] order@[i] as int]
                == preceding(all, all[order@[i] as int]).len() by {
                if i < k {
                    assert(order@[i] != order@[k as int]);
                    assert(before[order@[i] as int] == preceding(all, all[order@[i] as int]).len());
                }
            }
            seen = more;
        }
        k = k + 1;
    }
    proof {
        lemma_permutation_covers(order@, all.len());
        lemma_ranks(all);
        assert(seen =~= all.to_set()) by {
            assert forall|t: Seq<int>| all.to_set().contains(t) implies seen.contains(t) by {
                let v = choose|v: int| 0 <= v < all.len() && all[v] == t;
                assert(order@.contains(v as usize));
                let i = choose|i: int| 0 <= i < order@.len() && order@[i] == v as usize;
                assert(t == all[order@[i] as int]);
            }
            assert forall|t: Seq<int>| seen.contains(t) implies all.to_set().contains(t) by {
                let i = choose|i: int| 0 <= i < k && t == all[#[trigger] order@[i] as int];
                assert(order@[i] < all.len());
            }
        }
        assert forall|v: int| 0 <= v < all.len() implies #[trigger] colors@[v] == rank(
            all,
            all[v],
        ) by {
            assert(order@.contains(v as usize));
            let i = choose|i: int| 0 <= i < order@.len() && order@[i] == v as usize;
            assert(colors@[order@[i] as int] == preceding(all, all[order@[i] as int]).len());
        }
    }
    let count: usize = if indexed.len() == 0 {
        0
    } else {
        color + 1
    };
    let col_colors: Vec<usize> = colors.split_off(row_count);
    proof {
        assert(colors@ =~= Seq::new(row_count as nat, |r: int| rank(all, all[r])));
        assert(col_colors@ =~= Seq::new(col_count as nat, |c: int| rank(all, all[row_count + c])));
    }
    (colors, col_colors, count)
}

/// The colours after one more round, and how many there are.
fn refine_once(
    matrix: &BitMatrix,
    transposed: &BitMatrix,
    row_colors: &Vec<usize>,
    col_colors: &Vec<usize>,
) -> (refined: (Vec<usize>, Vec<usize>, usize))
    requires
        matrix.wf(),
        transposed.wf(),
        transposed@ == matrix@.transposed(),
        row_colors@.len() == matrix@.rows,
        col_colors@.len() == matrix@.cols,
    ensures
        ({
            let colors = Colors { rows: row_colors@, cols: col_colors@ };
            &&& (Colors { rows: refined.0@, cols: refined.1@ }) == next_colors(matrix@, colors)
            &&& refined.2 == signatures(matrix@, colors).to_set().len()
        }),
{
    let of_rows: Vec<Vec<usize>> = row_signatures(matrix, 0, row_colors, col_colors);
    let of_cols: Vec<Vec<usize>> = row_signatures(transposed, 1, col_colors, row_colors);
    let ghost joined = of_rows@ + of_cols@;
    let ghost colors = Colors { rows: row_colors@, cols: col_colors@ };
    let refined = compress_signatures(of_rows, of_cols);
    proof {
        let all = signatures(matrix@, colors);
        assert(held(joined) =~= all) by {
            assert forall|i: int| 0 <= i < all.len() implies held(joined)[i] == all[i] by {
                if i < matrix@.rows {
                    assert(joined[i] == of_rows@[i]);
                } else {
                    assert(joined[i] == of_cols@[i - matrix@.rows]);
                }
            }
        }
        assert(refined.0@ =~= next_colors(matrix@, colors).rows);
        assert(refined.1@ =~= next_colors(matrix@, colors).cols);
    }
    refined
}

/// One-dimensional Weisfeiler-Lehman refinement on the bipartite graph.
///
/// Previous colours are part of the signatures, so colour classes only split.
/// The process therefore stabilizes after at most `rows + columns` splits.
pub fn refine_colors(matrix: &BitMatrix) -> (colors: (Vec<usize>, Vec<usize>))
    requires
        matrix.wf(),
    ensures
        (Colors { rows: colors.0@, cols: colors.1@ }) == refined_colors(matrix@),
        colors.0@.len() == matrix@.rows,
        colors.1@.len() == matrix@.cols,
{
    let transposed = matrix.transposed();
    let mut row_colors: Vec<usize> = vec![0; matrix.rows()];
    let mut col_colors: Vec<usize> = vec![0; matrix.cols()];
    let mut previous_color_count: usize = 0;
    let ghost mut round: nat = 0;
    proof {
        let blank = colors_after(matrix@, 0);
        assert(row_colors@ =~= blank.rows);
        assert(col_colors@ =~= blank.cols);
    }
    loop
        invariant
            matrix.wf(),
            transposed.wf(),
            transposed@ == matrix@.transposed(),
            (Colors { rows: row_colors@, cols: col_colors@ }) == colors_after(matrix@, round),
            row_colors@.len() == matrix@.rows,
            col_colors@.len() == matrix@.cols,
            previous_color_count == count_after(matrix@, round),
            previous_color_count <= matrix@.rows + matrix@.cols,
            forall|j: nat| 0 < j <= round ==> #[trigger] changes_count(matrix@, j),
        decreases matrix@.rows + matrix@.cols - previous_color_count,
    {
        let (new_rows, new_cols, color_count) = refine_once(
            matrix,
            &transposed,
            &row_colors,
            &col_colors,
        );
        proof {
            lemma_counts_grow(matrix@, round);
            round = round + 1;
        }
        row_colors = new_rows;
        col_colors = new_cols;
        if color_count == previous_color_count {
            proof {
                assert(is_stable_round(matrix@, round));
                lemma_stable_round_unique(
                    matrix@,
                    round,
                    choose|k: nat| is_stable_round(matrix@, k),
                );
            }
            return (row_colors, col_colors);
        }
        previous_color_count = color_count;
    }
}

/// Some round leaves the number of colours as it was.
proof fn lemma_stable_round_exists(grid: Grid, k: nat)
    requires
        grid.rows + grid.cols <= usize::MAX,
        count_after(grid, k) <= grid.rows + grid.cols,
        forall|j: nat| 0 < j <= k ==> #[trigger] changes_count(grid, j),
    ensures
        exists|r: nat| is_stable_round(grid, r),
    decreases grid.rows + grid.cols - count_after(grid, k),
{
    lemma_counts_grow(grid, k);
    if !changes_count(grid, k + 1) {
        assert(is_stable_round(grid, k + 1));
    } else {
        lemma_stable_round_exists(grid, k + 1);
    }
}

/// There is a refined colour for every row and every column.
pub proof fn lemma_refined_lengths(grid: Grid)
    requires
        grid.rows + grid.cols <= usize::MAX,
    ensures
        refined_colors(grid).rows.len() == grid.rows,
        refined_colors(grid).cols.len() == grid.cols,
{
    lemma_stable_round_exists(grid, 0);
}

proof fn lemma_stable_round_unique(grid: Grid, j: nat, k: nat)
    requires
        is_stable_round(grid, j),
        is_stable_round(grid, k),
    ensures
        j == k,
{
    if j < k {
        assert(changes_count(grid, j));
    } else if k < j {
        assert(changes_count(grid, k));
    }
}

/// Whether `there` takes the numbers below `n` to each other, one to one, and `back` takes them back.
pub open spec fn is_exchange(n: nat, there: spec_fn(int) -> int, back: spec_fn(int) -> int) -> bool {
    &&& forall|x: int| 0 <= x < n ==> 0 <= #[trigger] there(x) < n && back(there(x)) == x
    &&& forall|x: int| 0 <= x < n ==> 0 <= #[trigger] back(x) < n && there(back(x)) == x
}

/// Names for the lines of a matrix: where each row and each column goes, and where it came from.
pub struct Renaming {
    pub row_to: spec_fn(int) -> int,
    pub row_from: spec_fn(int) -> int,
    pub col_to: spec_fn(int) -> int,
    pub col_from: spec_fn(int) -> int,
}

/// Whether `b` is `a` with its lines renamed.
pub open spec fn is_renamed(a: Grid, b: Grid, names: Renaming) -> bool {
    &&& a.rows == b.rows
    &&& a.cols == b.cols
    &&& is_exchange(a.rows, names.row_to, names.row_from)
    &&& is_exchange(a.cols, names.col_to, names.col_from)
    &&& forall|r: int, c: int|
        0 <= r < a.rows && 0 <= c < a.cols ==> (#[trigger] a.has(r, c) <==> b.has(
            (names.row_to)(r),
            (names.col_to)(c),
        ))
}

/// Whether `b` is `a` up to the order of rows and of columns.
pub open spec fn same_up_to_order(a: Grid, b: Grid) -> bool {
    exists|names: Renaming| is_renamed(a, b, names)
}

/// A matrix is itself up to order.
pub proof fn lemma_same_order_reflexive(grid: Grid)
    ensures
        same_up_to_order(grid, grid),
{
    let same = |x: int| x;
    let names = Renaming { row_to: same, row_from: same, col_to: same, col_from: same };
    assert(is_renamed(grid, grid, names));
}

/// Being the same up to order can be chained.
pub proof fn lemma_same_order_chain(a: Grid, b: Grid, c: Grid)
    requires
        same_up_to_order(a, b),
        same_up_to_order(b, c),
    ensures
        same_up_to_order(a, c),
{
    let f = choose|names: Renaming| is_renamed(a, b, names);
    let g = choose|names: Renaming| is_renamed(b, c, names);
    let names = Renaming {
        row_to: |r: int| (g.row_to)((f.row_to)(r)),
        row_from: |r: int| (f.row_from)((g.row_from)(r)),
        col_to: |r: int| (g.col_to)((f.col_to)(r)),
        col_from: |r: int| (f.col_from)((g.col_from)(r)),
    };
    assert(is_renamed(a, c, names)) by {
        assert forall|x: int| 0 <= x < a.rows implies 0 <= #[trigger] (names.row_to)(x) < a.rows
            && (names.row_from)((names.row_to)(x)) == x by {
            assert(0 <= (f.row_to)(x) < a.rows);
            assert(0 <= (g.row_to)((f.row_to)(x)) < a.rows);
        }
        assert forall|x: int| 0 <= x < a.rows implies 0 <= #[trigger] (names.row_from)(x) < a.rows
            && (names.row_to)((names.row_from)(x)) == x by {
            assert(0 <= (g.row_from)(x) < a.rows);
            assert(0 <= (f.row_from)((g.row_from)(x)) < a.rows);
        }
        assert forall|x: int| 0 <= x < a.cols implies 0 <= #[trigger] (names.col_to)(x) < a.cols
            && (names.col_from)((names.col_to)(x)) == x by {
            assert(0 <= (f.col_to)(x) < a.cols);
            assert(0 <= (g.col_to)((f.col_to)(x)) < a.cols);
        }
        assert forall|x: int| 0 <= x < a.cols implies 0 <= #[trigger] (names.col_from)(x) < a.cols
            && (names.col_to)((names.col_from)(x)) == x by {
            assert(0 <= (g.col_from)(x) < a.cols);
            assert(0 <= (f.col_from)((g.col_from)(x)) < a.cols);
        }
        assert forall|r: int, c2: int| 0 <= r < a.rows && 0 <= c2 < a.cols implies (
        #[trigger] a.has(r, c2) <==> c.has((names.row_to)(r), (names.col_to)(c2))) by {
            assert(0 <= (f.row_to)(r) < a.rows && 0 <= (f.col_to)(c2) < a.cols);
            assert(a.has(r, c2) <==> b.has((f.row_to)(r), (f.col_to)(c2)));
            assert(b.has((f.row_to)(r), (f.col_to)(c2)) <==> c.has(
                (g.row_to)((f.row_to)(r)),
                (g.col_to)((f.col_to)(c2)),
            ));
        }
    }
}

/// Matrices that are the same up to order are the same game.
pub proof fn lemma_same_order_isomorphic(a: Grid, b: Grid)
    requires
        a.wf(),
        b.wf(),
        same_up_to_order(a, b),
    ensures
        isomorphic(a.cells, b.cells),
{
    let names = choose|names: Renaming| is_renamed(a, b, names);
    let f = |p: (int, int)| ((names.row_to)(p.0), (names.col_to)(p.1));
    assert(b.cells =~= a.cells.map(f)) by {
        assert forall|p: (int, int)| a.cells.contains(p) implies b.cells.contains(f(p)) by {
            assert(a.has(p.0, p.1));
        }
        assert forall|q: (int, int)| b.cells.contains(q) implies a.cells.map(f).contains(q) by {
            let p = ((names.row_from)(q.0), (names.col_from)(q.1));
            assert(0 <= p.0 < a.rows && 0 <= p.1 < a.cols);
            assert(f(p) == q);
            assert(a.has(p.0, p.1) <==> b.has(q.0, q.1));
            assert(a.cells.contains(p));
        }
    }
    assert(keeps_lines(a.cells, f)) by {
        assert forall|p: (int, int), q: (int, int)| #![trigger f(p), f(q)]
            a.cells.contains(p) && a.cells.contains(q) implies {
            &&& (p.0 == q.0 <==> f(p).0 == f(q).0)
            &&& (p.1 == q.1 <==> f(p).1 == f(q).1)
        } by {
            assert((names.row_from)((names.row_to)(p.0)) == p.0);
            assert((names.row_from)((names.row_to)(q.0)) == q.0);
            assert((names.col_from)((names.col_to)(p.1)) == p.1);
            assert((names.col_from)((names.col_to)(q.1)) == q.1);
        }
    }
    assert(relabels(a.cells, b.cells, f));
}

/// Whether `f` on rows and `g` on columns exchange lines in pairs so that the set cells stay the
/// same.
pub open spec fn is_automorphism(
    grid: Grid,
    f: spec_fn(int) -> int,
    g: spec_fn(int) -> int,
) -> bool {
    is_renamed(grid, grid, Renaming { row_to: f, row_from: f, col_to: g, col_from: g })
}

/// A list has no more members than one that holds a different member for each of its own.
pub proof fn lemma_injected(a: Seq<usize>, b: Seq<usize>, pair: spec_fn(usize) -> usize)
    requires
        a.no_duplicates(),
        b.no_duplicates(),
        forall|i: int| 0 <= i < a.len() ==> b.contains(#[trigger] pair(a[i])),
        forall|i: int, j: int|
            0 <= i < a.len() && 0 <= j < a.len() && i != j ==> #[trigger] pair(a[i])
                != #[trigger] pair(a[j]),
    ensures
        a.len() <= b.len(),
{
    let image = a.map_values(pair);
    assert(image.no_duplicates()) by {
        assert forall|i: int, j: int|
            0 <= i < image.len() && 0 <= j < image.len() && i != j implies image[i] != image[j] by {
            assert(pair(a[i]) != pair(a[j]));
        }
    }
    image.unique_seq_to_set();
    b.unique_seq_to_set();
    vstd::seq_lib::seq_to_set_is_finite(image);
    vstd::seq_lib::seq_to_set_is_finite(b);
    assert(image.to_set().subset_of(b.to_set())) by {
        assert forall|x: usize| image.to_set().contains(x) implies b.to_set().contains(x) by {
            let i = choose|i: int| 0 <= i < image.len() && image[i] == x;
            assert(b.contains(pair(a[i])));
        }
    }
    vstd::set_lib::lemma_len_subset(image.to_set(), b.to_set());
}

proof fn lemma_row_list(grid: Grid, r: int)
    requires
        grid.wf(),
        grid.cols <= usize::MAX,
    ensures
        grid.row_list(r).no_duplicates(),
        forall|x: usize| #[trigger] grid.row_list(r).contains(x) <==> grid.has(r, x as int),
{
    let keep = |c: int| grid.has(r, c);
    let list = grid.row_list(r);
    crate::sorting::lemma_listed(grid.cols, keep);
    assert forall|x: usize| #[trigger] list.contains(x) <==> grid.has(r, x as int) by {
        if list.contains(x) {
            let i = choose|i: int| 0 <= i < list.len() && list[i] == x;
            assert(keep(list[i] as int));
        }
        if grid.has(r, x as int) {
            assert(grid.cells.contains((r, x as int)));
            assert(keep(x as int));
            assert(list.contains(x as int as usize));
        }
    }
    assert(list.no_duplicates()) by {
        assert forall|i: int, j: int|
            0 <= i < list.len() && 0 <= j < list.len() && i != j implies list[i] != list[j] by {
            if i < j {
                assert(list[i] < list[j]);
            } else {
                assert(list[j] < list[i]);
            }
        }
    }
}

proof fn lemma_same_neighbours(
    a: Grid,
    b: Grid,
    r: int,
    s: int,
    there: spec_fn(int) -> int,
    back: spec_fn(int) -> int,
    before: Seq<usize>,
    after: Seq<usize>,
)
    requires
        a.wf(),
        b.wf(),
        a.cols == b.cols,
        a.cols <= usize::MAX,
        before.len() == a.cols,
        after.len() == a.cols,
        is_exchange(a.cols, there, back),
        forall|c: int| 0 <= c < a.cols ==> (#[trigger] a.has(r, c) <==> b.has(s, there(c))),
        forall|c: int| 0 <= c < a.cols ==> #[trigger] after[there(c)] == before[c],
    ensures
        ascending(a.row_list(r).map_values(|c: usize| before[c as int])) == ascending(
            b.row_list(s).map_values(|c: usize| after[c as int]),
        ),
{
    let old = a.row_list(r);
    let new = b.row_list(s);
    let pair = |c: usize| there(c as int) as usize;
    let unpair = |c: usize| back(c as int) as usize;
    let value = |c: usize| before[c as int];
    let renamed_value = |c: usize| after[c as int];
    lemma_row_list(a, r);
    lemma_row_list(b, s);
    assert forall|i: int| 0 <= i < old.len() implies new.contains(#[trigger] pair(old[i])) && 0
        <= old[i] < a.cols by {
        assert(old.contains(old[i]));
        assert(a.cells.contains((r, old[i] as int)));
        assert(b.has(s, there(old[i] as int)));
        assert(new.contains(pair(old[i])));
    }
    assert forall|i: int| 0 <= i < new.len() implies old.contains(#[trigger] unpair(new[i])) && 0
        <= new[i] < a.cols by {
        assert(new.contains(new[i]));
        assert(b.cells.contains((s, new[i] as int)));
        let c = back(new[i] as int);
        assert(there(c) == new[i]);
        assert(a.has(r, c) <==> b.has(s, there(c)));
        assert(old.contains(unpair(new[i])));
    }
    assert forall|i: int, j: int|
        0 <= i < old.len() && 0 <= j < old.len() && i != j implies #[trigger] pair(old[i])
        != #[trigger] pair(old[j]) by {
        assert(new.contains(pair(old[i])) && new.contains(pair(old[j])));
        assert(back(there(old[i] as int)) == old[i] && back(there(old[j] as int)) == old[j]);
    }
    assert forall|i: int, j: int|
        0 <= i < new.len() && 0 <= j < new.len() && i != j implies #[trigger] unpair(new[i])
        != #[trigger] unpair(new[j]) by {
        assert(old.contains(unpair(new[i])) && old.contains(unpair(new[j])));
        assert(there(back(new[i] as int)) == new[i] && there(back(new[j] as int)) == new[j]);
    }
    lemma_injected(old, new, pair);
    lemma_injected(new, old, unpair);
    assert forall|i: int| 0 <= i < old.len() implies #[trigger] value(old[i]) == renamed_value(
        pair(old[i]),
    ) by {
        assert(new.contains(pair(old[i])));
        assert(after[there(old[i] as int)] == before[old[i] as int]);
    }
    crate::sorting::lemma_paired_values(old, new, pair, value, renamed_value);
    crate::sorting::lemma_ascending_same(old.map_values(value), new.map_values(renamed_value));
}

/// Whether `after` has for the renamed lines of `grid` the colours that `before` has for the lines.
pub open spec fn same_colors(grid: Grid, names: Renaming, before: Colors, after: Colors) -> bool {
    &&& before.rows.len() == grid.rows && after.rows.len() == grid.rows
    &&& before.cols.len() == grid.cols && after.cols.len() == grid.cols
    &&& forall|r: int|
        0 <= r < grid.rows ==> #[trigger] after.rows[(names.row_to)(r)] == before.rows[r]
    &&& forall|c: int|
        0 <= c < grid.cols ==> #[trigger] after.cols[(names.col_to)(c)] == before.cols[c]
}

/// Renamed lines have the same signatures.
proof fn lemma_renamed_signatures(
    a: Grid,
    b: Grid,
    names: Renaming,
    before: Colors,
    after: Colors,
)
    requires
        a.wf(),
        b.wf(),
        a.rows + a.cols <= usize::MAX,
        is_renamed(a, b, names),
        same_colors(a, names, before, after),
    ensures
        forall|r: int|
            0 <= r < a.rows ==> #[trigger] signatures(b, after)[(names.row_to)(r)] == signatures(
                a,
                before,
            )[r],
        forall|c: int|
            0 <= c < a.cols ==> signatures(b, after)[b.rows + #[trigger] (names.col_to)(c)]
                == signatures(a, before)[a.rows + c],
        signatures(b, after).to_set() == signatures(a, before).to_set(),
{
    let old = signatures(a, before);
    let new = signatures(b, after);
    assert forall|r: int| 0 <= r < a.rows implies #[trigger] new[(names.row_to)(r)] == old[r] by {
        let s = (names.row_to)(r);
        assert(0 <= s < a.rows);
        assert(after.rows[s] == before.rows[r]);
        lemma_same_neighbours(a, b, r, s, names.col_to, names.col_from, before.cols, after.cols);
    }
    assert forall|c: int| 0 <= c < a.cols implies new[b.rows + #[trigger] (names.col_to)(c)]
        == old[a.rows + c] by {
        let d = (names.col_to)(c);
        let turned = a.transposed();
        let renamed = b.transposed();
        assert(0 <= d < a.cols);
        assert(after.cols[d] == before.cols[c]);
        assert forall|r: int| 0 <= r < turned.cols implies (#[trigger] turned.has(c, r)
            <==> renamed.has(d, (names.row_to)(r))) by {
            assert(a.has(r, c) <==> b.has((names.row_to)(r), d));
        }
        lemma_same_neighbours(
            turned,
            renamed,
            c,
            d,
            names.row_to,
            names.row_from,
            before.rows,
            after.rows,
        );
    }
    assert forall|s: Seq<int>| old.to_set().contains(s) <==> new.to_set().contains(s) by {
        if old.to_set().contains(s) {
            let i = choose|i: int| 0 <= i < old.len() && old[i] == s;
            if i < a.rows {
                assert(new[(names.row_to)(i)] == s);
            } else {
                let d = (names.col_to)(i - a.rows);
                assert(new[b.rows + d] == s);
            }
        }
        if new.to_set().contains(s) {
            let i = choose|i: int| 0 <= i < new.len() && new[i] == s;
            if i < a.rows {
                let r = (names.row_from)(i);
                assert(new[(names.row_to)(r)] == old[r]);
            } else {
                let c = (names.col_from)(i - a.rows);
                assert((names.col_to)(c) == i - a.rows);
                assert(old[a.rows + c] == s);
            }
        }
    }
    assert(old.to_set() =~= new.to_set());
}

/// Renaming lines keeps their colours in every round.
proof fn lemma_renamed_colors_after(a: Grid, b: Grid, names: Renaming, k: nat)
    requires
        a.wf(),
        b.wf(),
        a.rows + a.cols <= usize::MAX,
        is_renamed(a, b, names),
    ensures
        same_colors(a, names, colors_after(a, k), colors_after(b, k)),
        count_after(a, k) == count_after(b, k),
    decreases k,
{
    if k == 0 {
        assert forall|r: int| 0 <= r < a.rows implies #[trigger] colors_after(b, 0).rows[(
        names.row_to)(r)] == colors_after(a, 0).rows[r] by {
            assert(0 <= (names.row_to)(r) < a.rows);
        }
        assert forall|c: int| 0 <= c < a.cols implies #[trigger] colors_after(b, 0).cols[(
        names.col_to)(c)] == colors_after(a, 0).cols[c] by {
            assert(0 <= (names.col_to)(c) < a.cols);
        }
    } else {
        let before = colors_after(a, (k - 1) as nat);
        let after = colors_after(b, (k - 1) as nat);
        let old = signatures(a, before);
        let new = signatures(b, after);
        lemma_renamed_colors_after(a, b, names, (k - 1) as nat);
        lemma_renamed_signatures(a, b, names, before, after);
        assert forall|s: Seq<int>| #[trigger] rank(old, s) == rank(new, s) by {
            assert forall|t: Seq<int>| old.contains(t) == new.contains(t) by {
                assert(old.to_set().contains(t) == new.to_set().contains(t));
            }
            assert(preceding(old, s) =~= preceding(new, s));
        }
        assert forall|r: int| 0 <= r < a.rows implies #[trigger] colors_after(b, k).rows[(
        names.row_to)(r)] == colors_after(a, k).rows[r] by {
            assert(0 <= (names.row_to)(r) < a.rows);
            assert(new[(names.row_to)(r)] == old[r]);
            assert(rank(old, old[r]) == rank(new, old[r]));
        }
        assert forall|c: int| 0 <= c < a.cols implies #[trigger] colors_after(b, k).cols[(
        names.col_to)(c)] == colors_after(a, k).cols[c] by {
            assert(0 <= (names.col_to)(c) < a.cols);
            assert(new[b.rows + (names.col_to)(c)] == old[a.rows + c]);
            assert(rank(old, old[a.rows + c]) == rank(new, old[a.rows + c]));
        }
    }
}

/// Renaming lines keeps their refined colours.
pub proof fn lemma_renamed_colors(a: Grid, b: Grid, names: Renaming)
    requires
        a.wf(),
        b.wf(),
        a.rows + a.cols <= usize::MAX,
        is_renamed(a, b, names),
    ensures
        same_colors(a, names, refined_colors(a), refined_colors(b)),
{
    lemma_stable_round_exists(a, 0);
    lemma_stable_round_exists(b, 0);
    let j = choose|k: nat| is_stable_round(a, k);
    let k = choose|k: nat| is_stable_round(b, k);
    assert forall|n: nat| n > 0 implies #[trigger] changes_count(a, n) == changes_count(b, n) by {
        lemma_renamed_colors_after(a, b, names, n);
        lemma_renamed_colors_after(a, b, names, (n - 1) as nat);
    }
    assert(is_stable_round(b, j)) by {
        assert forall|n: nat| 0 < n < j implies #[trigger] changes_count(b, n) by {
            assert(changes_count(a, n));
        }
        assert(!changes_count(a, j));
    }
    lemma_stable_round_unique(b, j, k);
    lemma_renamed_colors_after(a, b, names, j);
}

/// Lines that an automorphism exchanges have the same refined colour.
pub proof fn lemma_colors_invariant(grid: Grid, f: spec_fn(int) -> int, g: spec_fn(int) -> int)
    requires
        grid.wf(),
        grid.rows + grid.cols <= usize::MAX,
        is_automorphism(grid, f, g),
    ensures
        forall|r: int|
            0 <= r < grid.rows ==> #[trigger] refined_colors(grid).rows[f(r)] == refined_colors(
                grid,
            ).rows[r],
        forall|c: int|
            0 <= c < grid.cols ==> #[trigger] refined_colors(grid).cols[g(c)] == refined_colors(
                grid,
            ).cols[c],
{
    lemma_renamed_colors(
        grid,
        grid,
        Renaming { row_to: f, row_from: f, col_to: g, col_from: g },
    );
}

/// Refined colours are smaller than the number of lines.
pub proof fn lemma_refined_bounded(grid: Grid)
    requires
        grid.rows + grid.cols <= usize::MAX,
    ensures
        forall|r: int|
            0 <= r < grid.rows ==> (#[trigger] refined_colors(grid).rows[r]) < grid.rows + grid.cols,
        forall|c: int|
            0 <= c < grid.cols ==> (#[trigger] refined_colors(grid).cols[c]) < grid.rows + grid.cols,
{
    lemma_stable_round_exists(grid, 0);
    let k = choose|k: nat| is_stable_round(grid, k);
    let all = signatures(grid, colors_after(grid, (k - 1) as nat));
    lemma_ranks(all);
    assert forall|r: int| 0 <= r < grid.rows implies (#[trigger] refined_colors(grid).rows[r])
        < grid.rows + grid.cols by {
        assert(all.contains(all[r]));
        assert(preceding(all, all[r]).len() < all.to_set().len());
    }
    assert forall|c: int| 0 <= c < grid.cols implies (#[trigger] refined_colors(grid).cols[c])
        < grid.rows + grid.cols by {
        assert(all.contains(all[grid.rows + c]));
        assert(preceding(all, all[grid.rows + c]).len() < all.to_set().len());
    }
}

/// The colours of the columns that row `r` shares a set cell with.
pub open spec fn seen_by_row(grid: Grid, colors: Colors, r: int) -> Multiset<usize> {
    grid.row_list(r).map_values(|c: usize| colors.cols[c as int]).to_multiset()
}

/// The colours of the rows that column `c` shares a set cell with.
pub open spec fn seen_by_col(grid: Grid, colors: Colors, c: int) -> Multiset<usize> {
    grid.transposed().row_list(c).map_values(|r: usize| colors.rows[r as int]).to_multiset()
}

/// Whether lines of one colour see the same colours.
pub open spec fn is_stable(grid: Grid, colors: Colors) -> bool {
    &&& forall|r: int, s: int|
        0 <= r < grid.rows && 0 <= s < grid.rows && colors.rows[r] == colors.rows[s]
            ==> #[trigger] seen_by_row(grid, colors, r) == #[trigger] seen_by_row(grid, colors, s)
    &&& forall|c: int, d: int|
        0 <= c < grid.cols && 0 <= d < grid.cols && colors.cols[c] == colors.cols[d]
            ==> #[trigger] seen_by_col(grid, colors, c) == #[trigger] seen_by_col(grid, colors, d)
}

/// Whether the colours are the numbers below `count`, each of them used, those of rows below those of
/// columns.
pub open spec fn is_numbered(grid: Grid, colors: Colors, count: nat) -> bool {
    &&& forall|r: int| 0 <= r < grid.rows ==> (#[trigger] colors.rows[r]) < count
    &&& forall|c: int| 0 <= c < grid.cols ==> (#[trigger] colors.cols[c]) < count
    &&& forall|r: int, c: int|
        0 <= r < grid.rows && 0 <= c < grid.cols ==> #[trigger] colors.rows[r]
            < #[trigger] colors.cols[c]
    &&& forall|v: int| #![trigger is_used(grid, colors, v)]
        0 <= v < count ==> is_used(grid, colors, v)
}

/// Whether a row or a column has the colour `v`.
pub open spec fn is_used(grid: Grid, colors: Colors, v: int) -> bool {
    ||| exists|r: int| 0 <= r < grid.rows && #[trigger] colors.rows[r] == v
    ||| exists|c: int| 0 <= c < grid.cols && #[trigger] colors.cols[c] == v
}

/// Mapping the members of the same collection gives the same collection.
proof fn lemma_mapped_same(a: Seq<usize>, b: Seq<usize>, f: spec_fn(usize) -> usize)
    requires
        a.to_multiset() == b.to_multiset(),
    ensures
        a.map_values(f).to_multiset() == b.map_values(f).to_multiset(),
    decreases a.len(),
{
    broadcast use vstd::seq_lib::group_to_multiset_ensures;

    a.to_multiset_ensures();
    b.to_multiset_ensures();
    if a.len() == 0 {
        assert(a.map_values(f) =~= b.map_values(f));
    } else {
        let x = a.last();
        let fewer = a.drop_last();
        assert(a =~= fewer.push(x));
        assert(b.to_multiset().contains(x)) by {
            assert(a.contains(x));
            assert(a.to_multiset().contains(x));
        }
        assert(b.contains(x));
        let j = choose|j: int| 0 <= j < b.len() && b[j] == x;
        let rest = b.remove(j);
        assert(b.to_multiset() =~= rest.to_multiset().insert(x));
        assert(a.to_multiset() =~= fewer.to_multiset().insert(x));
        assert(fewer.to_multiset() =~= rest.to_multiset()) by {
            assert(fewer.to_multiset() =~= a.to_multiset().remove(x));
            assert(rest.to_multiset() =~= b.to_multiset().remove(x));
        }
        lemma_mapped_same(fewer, rest, f);
        assert(a.map_values(f) =~= fewer.map_values(f).push(f(x)));
        assert(rest.map_values(f) =~= b.map_values(f).remove(j));
        assert(b.map_values(f)[j] == f(x));
        assert(b.map_values(f).to_multiset() =~= rest.map_values(f).to_multiset().insert(f(x)));
    }
}

/// Signatures of the last round that show the same colour are the same: the round has split no colour.
proof fn lemma_no_split(grid: Grid, k: nat)
    requires
        grid.rows + grid.cols <= usize::MAX,
        k >= 2,
        count_after(grid, k) == count_after(grid, (k - 1) as nat),
    ensures
        forall|i: int, j: int|
            0 <= i < grid.rows + grid.cols && 0 <= j < grid.rows + grid.cols && (
            #[trigger] signatures(grid, colors_after(grid, (k - 1) as nat))[i])[1] == (
            #[trigger] signatures(grid, colors_after(grid, (k - 1) as nat))[j])[1] ==> signatures(
                grid,
                colors_after(grid, (k - 1) as nat),
            )[i] == signatures(grid, colors_after(grid, (k - 1) as nat))[j],
{
    let now = signatures(grid, colors_after(grid, (k - 1) as nat));
    let old = signatures(grid, colors_after(grid, (k - 2) as nat));
    let of_now = |s: Seq<int>| s[1];
    let values = now.to_set().map(of_now);
    lemma_ranks(now);
    lemma_shown_colors(grid, (k - 1) as nat);
    assert forall|i: int, j: int|
        0 <= i < grid.rows + grid.cols && 0 <= j < grid.rows + grid.cols && (#[trigger] now[i])[1]
            == (#[trigger] now[j])[1] implies now[i] == now[j] by {
        if now[i] != now[j] {
            let fewer = now.to_set().remove(now[i]);
            assert(now.to_set().contains(now[i]) && now.to_set().contains(now[j]));
            assert(fewer.map(of_now) =~= values) by {
                assert forall|v: int| values.contains(v) implies fewer.map(of_now).contains(v) by {
                    let s = choose|s: Seq<int>| now.to_set().contains(s) && v == of_now(s);
                    if s == now[i] {
                        assert(fewer.contains(now[j]) && of_now(now[j]) == v);
                    } else {
                        assert(fewer.contains(s));
                    }
                }
                assert forall|v: int| fewer.map(of_now).contains(v) implies values.contains(v) by {
                    let s = choose|s: Seq<int>| fewer.contains(s) && v == of_now(s);
                    assert(now.to_set().contains(s));
                }
            }
            vstd::set_lib::lemma_map_size_bound(fewer, values, of_now);
        }
    }
}

/// The refined colours are stable: lines of one colour see the same colours. They are numbered without
/// gaps, rows before columns.
pub proof fn lemma_refined_stable(grid: Grid)
    requires
        grid.rows + grid.cols <= usize::MAX,
    ensures
        is_stable(grid, refined_colors(grid)),
        exists|count: nat| is_numbered(grid, refined_colors(grid), count),
{
    lemma_stable_round_exists(grid, 0);
    let k = choose|k: nat| is_stable_round(grid, k);
    let before = colors_after(grid, (k - 1) as nat);
    let after = colors_after(grid, k);
    let all = signatures(grid, before);
    lemma_ranks(all);
    lemma_numbered(grid, before);
    assert(after == next_colors(grid, before));
    assert(is_numbered(grid, refined_colors(grid), all.to_set().len()));
    if k >= 2 {
        lemma_no_split(grid, k);
        let of_col = |x: usize|
            after.cols[choose|c: int| 0 <= c < grid.cols && #[trigger] before.cols[c] == x];
        let of_row = |x: usize|
            after.rows[choose|r: int| 0 <= r < grid.rows && #[trigger] before.rows[r] == x];
        assert forall|c: int| 0 <= c < grid.cols implies #[trigger] after.cols[c] == of_col(
            before.cols[c],
        ) by {
            let d = choose|d: int| 0 <= d < grid.cols && #[trigger] before.cols[d] == before.cols[c];
            assert(all[grid.rows + c][1] == before.cols[c]);
            assert(all[grid.rows + d][1] == before.cols[d]);
            assert(all[grid.rows + c] == all[grid.rows + d]);
        }
        assert forall|r: int| 0 <= r < grid.rows implies #[trigger] after.rows[r] == of_row(
            before.rows[r],
        ) by {
            let s = choose|s: int| 0 <= s < grid.rows && #[trigger] before.rows[s] == before.rows[r];
            assert(all[r][1] == before.rows[r]);
            assert(all[s][1] == before.rows[s]);
            assert(all[r] == all[s]);
        }
        assert forall|r: int, s: int|
            0 <= r < grid.rows && 0 <= s < grid.rows && after.rows[r] == after.rows[s] implies
            #[trigger] seen_by_row(grid, after, r) == #[trigger] seen_by_row(grid, after, s) by {
            lemma_same_rank(all, r, s);
            lemma_seen(
                grid,
                before.cols,
                after.cols,
                of_col,
                r,
                s,
                seq![0int, before.rows[r] as int],
                seq![0int, before.rows[s] as int],
            );
        }
        assert forall|c: int, d: int|
            0 <= c < grid.cols && 0 <= d < grid.cols && after.cols[c] == after.cols[d] implies
            #[trigger] seen_by_col(grid, after, c) == #[trigger] seen_by_col(grid, after, d) by {
            let i = grid.rows + c;
            let j = grid.rows + d;
            lemma_same_rank(all, i, j);
            lemma_seen(
                grid.transposed(),
                before.rows,
                after.rows,
                of_row,
                c,
                d,
                seq![1int, before.cols[c] as int],
                seq![1int, before.cols[d] as int],
            );
        }
    } else {
        assert(all.to_set().len() == 0);
        if all.len() > 0 {
            assert(all.to_set().contains(all[0]));
        }
    }
}

/// Vertices of the same rank have the same signature.
proof fn lemma_same_rank(all: Seq<Seq<int>>, i: int, j: int)
    requires
        0 <= i < all.len(),
        0 <= j < all.len(),
        all.len() <= usize::MAX,
        rank(all, all[i]) == rank(all, all[j]),
    ensures
        all[i] == all[j],
{
    lemma_ranks(all);
    assert(all.contains(all[i]) && all.contains(all[j]));
    assert(preceding(all, all[i]).len() < all.to_set().len());
    assert(preceding(all, all[j]).len() < all.to_set().len());
    if all[i] != all[j] {
        lemma_ranks_differ(all, all[i], all[j]);
    }
}

/// Rows that see the same colours see the same colours after these are replaced one for one.
proof fn lemma_seen(
    grid: Grid,
    before: Seq<usize>,
    after: Seq<usize>,
    f: spec_fn(usize) -> usize,
    r: int,
    s: int,
    head: Seq<int>,
    other_head: Seq<int>,
)
    requires
        grid.cols <= usize::MAX,
        before.len() == grid.cols,
        after.len() == grid.cols,
        head.len() == other_head.len(),
        forall|c: int| 0 <= c < grid.cols ==> #[trigger] after[c] == f(before[c]),
        head + number_values(ascending(grid.row_list(r).map_values(|c: usize| before[c as int])))
            == other_head + number_values(
            ascending(grid.row_list(s).map_values(|c: usize| before[c as int])),
        ),
    ensures
        grid.row_list(r).map_values(|c: usize| after[c as int]).to_multiset() == grid.row_list(
            s,
        ).map_values(|c: usize| after[c as int]).to_multiset(),
{
    let old = |c: usize| before[c as int];
    let new = |c: usize| after[c as int];
    let a = grid.row_list(r).map_values(old);
    let b = grid.row_list(s).map_values(old);
    let x = number_values(ascending(a));
    let y = number_values(ascending(b));
    assert(x =~= (head + x).subrange(head.len() as int, (head + x).len() as int));
    assert(y =~= (other_head + y).subrange(other_head.len() as int, (other_head + y).len() as int));
    lemma_number_values_injective(ascending(a), ascending(b));
    let leq = number_leq();
    assert(total_ordering(leq));
    a.lemma_sort_by_ensures(leq);
    b.lemma_sort_by_ensures(leq);
    lemma_mapped_same(a, b, f);
    lemma_row_members(grid, r);
    lemma_row_members(grid, s);
    assert(a.map_values(f) =~= grid.row_list(r).map_values(new));
    assert(b.map_values(f) =~= grid.row_list(s).map_values(new));
}

proof fn lemma_row_members(grid: Grid, r: int)
    requires
        grid.cols <= usize::MAX,
    ensures
        forall|i: int| 0 <= i < grid.row_list(r).len() ==> #[trigger] grid.row_list(r)[i] < grid.cols,
{
    crate::sorting::lemma_listed(grid.cols, |c: int| grid.has(r, c));
}

/// The colours of a round are numbered without gaps, rows before columns.
proof fn lemma_numbered(grid: Grid, before: Colors)
    requires
        grid.rows + grid.cols <= usize::MAX,
    ensures
        is_numbered(
            grid,
            next_colors(grid, before),
            signatures(grid, before).to_set().len(),
        ),
{
    let all = signatures(grid, before);
    let after = next_colors(grid, before);
    let count = all.to_set().len();
    lemma_ranks(all);
    assert forall|i: int| 0 <= i < all.len() implies preceding(all, #[trigger] all[i]).len() < count
        && rank(all, all[i]) == preceding(all, all[i]).len() by {
        assert(all.contains(all[i]));
    }
    assert forall|r: int| 0 <= r < grid.rows implies (#[trigger] after.rows[r]) < count by {
        assert(rank(all, all[r]) < count);
    }
    assert forall|c: int| 0 <= c < grid.cols implies (#[trigger] after.cols[c]) < count by {
        assert(rank(all, all[grid.rows + c]) < count);
    }
    assert forall|r: int, c: int| 0 <= r < grid.rows && 0 <= c < grid.cols implies
        #[trigger] after.rows[r] < #[trigger] after.cols[c] by {
        let s = all[r];
        let t = all[grid.rows + c];
        assert(s[0] == 0 && t[0] == 1);
        assert(lex_lt_at(s, t, 0));
        assert(all.contains(s) && all.contains(t));
        lemma_lower_rank(all, s, t);
        assert(rank(all, s) == preceding(all, s).len());
        assert(rank(all, t) == preceding(all, t).len());
    }
    let of = |s: Seq<int>| preceding(all, s).len() as int;
    let values = all.to_set().map(of);
    assert(vstd::relations::injective_on(of, all.to_set())) by {
        assert forall|s: Seq<int>, t: Seq<int>|
            all.to_set().contains(s) && all.to_set().contains(t) && #[trigger] of(s)
                == #[trigger] of(t) implies s == t by {
            if s != t {
                lemma_ranks_differ(all, s, t);
            }
        }
    }
    vstd::set_lib::lemma_map_size(all.to_set(), values, of);
    let range = vstd::set_lib::set_int_range(0, count as int);
    vstd::set_lib::lemma_int_range(0, count as int);
    assert(values.subset_of(range)) by {
        assert forall|v: int| values.contains(v) implies range.contains(v) by {
            let s = choose|s: Seq<int>| all.to_set().contains(s) && v == of(s);
            assert(all.contains(s));
        }
    }
    vstd::set_lib::lemma_subset_equality(values, range);
    assert forall|v: int| #![trigger is_used(grid, after, v)] 0 <= v < count implies is_used(
        grid,
        after,
        v,
    ) by {
        assert(range.contains(v));
        let s = choose|s: Seq<int>| all.to_set().contains(s) && v == of(s);
        let i = choose|i: int| 0 <= i < all.len() && all[i] == s;
        assert(rank(all, all[i]) == v);
        if i < grid.rows {
            assert(after.rows[i] == v);
        } else {
            assert(after.cols[i - grid.rows] == v);
        }
    }
}

} // verus!
