//! Dense solver representation and inexpensive, deliberately incomplete
//! canonicalization.
//!
//! Rows and columns are the two families of maze corridors. A set bit is a
//! remaining game node at their intersection. Consequently, relabelings are
//! row permutations, column permutations, and (per connected component)
//! transposition.
use crate::board::Maze;
use crate::components::{grids, is_part, lemma_parts, lemma_squeezed_isomorphic, node_count, parts};
use crate::components::{split_components, squeezed, values};
use crate::grid::{countable, grid_lt, lemma_from_fn_wf, lemma_grid_order, Grid};
use crate::matrix::BitMatrix;
use crate::nim::{grundy, isomorphic, lemma_isomorphic, lemma_isomorphic_transitive};
use crate::nim::{lemma_nim_sum_associates, lemma_nim_sum_cancels, lemma_nim_sum_commutes};
use crate::nim::{nim_sum, nim_total, relabels, Position};
use crate::ordering::{canonical_component, canonical_part, lemma_canonical_part_isomorphic};
use crate::sorting::{decides, goes_first, is_ranking, is_sorting, lemma_gathered, sort_indices};
use vstd::prelude::*;

pub use crate::compile::compile_maze;

verus! {

broadcast use lemma_from_fn_wf;

/// Whether the independent parts `parts` may stand for the game on `position`: their nimbers add
/// up to its nimber, they have no more nodes, and each is a part of its game.
pub open spec fn stands_for(position: Position, parts: Seq<Grid>) -> bool {
    &&& nim_total(values(parts)) == grundy(position)
    &&& node_count(parts) <= position.len()
    &&& forall|i: int| 0 <= i < parts.len() ==> is_part(position, #[trigger] parts[i])
}

/// What stands for a game stands for every isomorphic one.
pub proof fn lemma_stands_for_isomorphic(a: Position, b: Position, parts: Seq<Grid>)
    requires
        a.finite(),
        isomorphic(a, b),
        stands_for(b, parts),
    ensures
        stands_for(a, parts),
{
    lemma_isomorphic(a, b);
    assert forall|i: int| 0 <= i < parts.len() implies is_part(a, #[trigger] parts[i]) by {
        let t = choose|t: Position| t.subset_of(b) && #[trigger] isomorphic(t, parts[i].cells);
        lemma_is_part_through(a, b, t, parts[i]);
    }
}

/// Turns a matrix into independent components that stand for its game.
pub trait Canonicalizer: Send + Sync {
    fn canonicalize(&self, matrix: BitMatrix) -> (game: CanonicalGame)
        requires
            matrix.wf(),
        ensures
            game.wf(),
            stands_for(matrix@.cells, game@),
    ;
}

/// The canonicalizer that orders rows and columns by colour refinement.
#[derive(Clone, Copy, Debug, Default)]
pub struct PseudoCanonicalizer;

/// The normal forms of the independent parts of a matrix.
pub open spec fn canonical_parts(grid: Grid) -> Seq<Grid> {
    parts(squeezed(grid)).map_values(|part: Grid| canonical_part(part))
}

/// Whether `kept` holds those of `parts` that occur an odd number of times, once each.
pub open spec fn odd_members(parts: Seq<Grid>, kept: Seq<Grid>) -> bool {
    &&& kept.no_duplicates()
    &&& forall|g: Grid| #[trigger]
        kept.contains(g) <==> parts.to_multiset().count(g) % 2 == 1
}

/// Whether each of `parts` goes before the next.
pub open spec fn strictly_ascending(parts: Seq<Grid>) -> bool {
    forall|i: int, j: int|
        0 <= i < j < parts.len() ==> grid_lt(#[trigger] parts[i], #[trigger] parts[j])
}

/// Whether `kept` is `parts` sorted and without pairs of equal parts.
pub open spec fn is_cancelled(parts: Seq<Grid>, kept: Seq<Grid>) -> bool {
    odd_members(parts, kept) && strictly_ascending(kept)
}

impl Canonicalizer for PseudoCanonicalizer {
    fn canonicalize(&self, matrix: BitMatrix) -> (game: CanonicalGame)
        ensures
            is_cancelled(canonical_parts(matrix@), game@),
    {
        let split: Vec<BitMatrix> = split_components(&matrix);
        let mut components: Vec<BitMatrix> = Vec::new();
        let mut k: usize = 0;
        while k < split.len()
            invariant
                k <= split@.len(),
                forall|i: int| 0 <= i < split@.len() ==> (#[trigger] split@[i]).wf(),
                components@.len() == k,
                forall|i: int| 0 <= i < k ==> (#[trigger] components@[i]).wf(),
                forall|i: int|
                    0 <= i < k ==> (#[trigger] components@[i])@ == canonical_part(split@[i]@),
            decreases split@.len() - k,
        {
            components.push(canonical_component(&split[k]));
            k = k + 1;
        }
        proof {
            let whole = parts(squeezed(matrix@));
            assert forall|i: int| 0 <= i < components@.len() implies grids(components@)[i]
                == canonical_parts(matrix@)[i] by {
                assert(components@[i]@ == canonical_part(split@[i]@));
                assert(grids(split@)[i] == whole[i]);
            }
            assert(grids(split@).len() == whole.len());
            assert(grids(components@) =~= canonical_parts(matrix@));
        }
        let game = CanonicalGame::from_components(components);
        proof {
            lemma_cancelled_stands_for(matrix@, game@);
        }
        game
    }
}

/// Canonicalized independent game components, sorted for direct hashing.
///
/// The canonicalization is intentionally heuristic: it may retain more than
/// one representation of an isomorphism class, but every transformation it
/// performs preserves the represented game.
#[derive(Debug, PartialEq, Eq, PartialOrd, Ord, Hash)]
pub struct CanonicalGame {
    components: Vec<BitMatrix>,
}

impl View for CanonicalGame {
    type V = Seq<Grid>;

    closed spec fn view(&self) -> Seq<Grid> {
        grids(self.components@)
    }
}

/// Copies the matrices.
pub fn copy_matrices(matrices: &Vec<BitMatrix>) -> (copies: Vec<BitMatrix>)
    ensures
        grids(copies@) == grids(matrices@),
        forall|i: int|
            0 <= i < matrices@.len() && matrices@[i].wf() ==> (#[trigger] copies@[i]).wf(),
{
    let mut copies: Vec<BitMatrix> = Vec::new();
    let mut k: usize = 0;
    while k < matrices.len()
        invariant
            k <= matrices@.len(),
            copies@.len() == k,
            forall|i: int| 0 <= i < k ==> (#[trigger] copies@[i])@ == matrices@[i]@,
            forall|i: int| 0 <= i < k && matrices@[i].wf() ==> (#[trigger] copies@[i]).wf(),
        decreases matrices@.len() - k,
    {
        copies.push(matrices[k].clone());
        k = k + 1;
    }
    proof {
        assert(grids(copies@) =~= grids(matrices@));
    }
    copies
}

impl Clone for CanonicalGame {
    fn clone(&self) -> (copy: Self)
        ensures
            copy@ == self@,
            self.wf() ==> copy.wf(),
    {
        let components: Vec<BitMatrix> = copy_matrices(&self.components);
        proof {
            assert(grids(components@).len() == grids(self.components@).len());
        }
        CanonicalGame { components }
    }
}

impl CanonicalGame {
    /// Whether the components are matrices as they should be.
    pub closed spec fn stored(&self) -> bool {
        forall|i: int| 0 <= i < self.components@.len() ==> (#[trigger] self.components@[i]).wf()
    }

    /// What holds of every game.
    pub open spec fn wf(&self) -> bool {
        &&& self.stored()
        &&& forall|i: int|
            0 <= i < self@.len() ==> (#[trigger] self@[i]).wf() && countable(
                self@[i].rows,
                self@[i].cols,
            )
    }

    proof fn lemma_wf(&self)
        requires
            self.stored(),
        ensures
            self.wf(),
    {
        assert forall|i: int| 0 <= i < self@.len() implies (#[trigger] self@[i]).wf() && countable(
            self@[i].rows,
            self@[i].cols,
        ) by {
            assert(self.components@[i].wf());
        }
    }

    pub fn from_matrix(matrix: &BitMatrix) -> (game: Self)
        requires
            matrix.wf(),
        ensures
            game.wf(),
            is_cancelled(canonical_parts(matrix@), game@),
            stands_for(matrix@.cells, game@),
    {
        PseudoCanonicalizer.canonicalize(matrix.clone())
    }

    pub fn from_maze(maze: &Maze) -> (game: Self)
        requires
            maze.wf(),
            countable(maze@.compiled().rows, maze@.compiled().cols),
        ensures
            game.wf(),
            is_cancelled(canonical_parts(maze@.compiled()), game@),
            stands_for(maze@.compiled().cells, game@),
    {
        Self::from_matrix(&compile_maze(maze))
    }

    pub fn components(&self) -> (components: &[BitMatrix])
        requires
            self.wf(),
        ensures
            grids(components@) == self@,
            components@.len() == self@.len(),
            forall|i: int| 0 <= i < components@.len() ==> (#[trigger] components@[i]).wf(),
            forall|i: int| 0 <= i < components@.len() ==> (#[trigger] components@[i])@ == self@[i],
    {
        self.components.as_slice()
    }

    pub fn is_empty(&self) -> (empty: bool)
        ensures
            empty == (self@.len() == 0),
    {
        self.components.len() == 0
    }

    /// The game of one component alone.
    pub fn component(&self, index: usize) -> (game: Self)
        requires
            self.wf(),
            index < self@.len(),
        ensures
            game.wf(),
            game@ == seq![self@[index as int]],
    {
        let mut components: Vec<BitMatrix> = Vec::new();
        components.push(self.components[index].clone());
        let game = CanonicalGame { components };
        proof {
            game.lemma_wf();
            assert(game@ =~= seq![self@[index as int]]);
        }
        game
    }

    /// The game of the given components, as they are.
    pub fn from_canonical_components(components: Vec<BitMatrix>) -> (game: Self)
        requires
            forall|i: int| 0 <= i < components@.len() ==> (#[trigger] components@[i]).wf(),
        ensures
            game.wf(),
            game@ == grids(components@),
    {
        let game = CanonicalGame { components };
        proof {
            game.lemma_wf();
        }
        game
    }

    /// Whether both games have the same components in the same order.
    pub fn same(&self, other: &Self) -> (same: bool)
        requires
            self.wf(),
            other.wf(),
        ensures
            same == (self@ == other@),
    {
        if self.components.len() != other.components.len() {
            proof {
                assert(self@.len() != other@.len());
            }
            return false;
        }
        let mut k: usize = 0;
        while k < self.components.len()
            invariant
                self.wf(),
                other.wf(),
                k <= self.components@.len(),
                self.components@.len() == other.components@.len(),
                forall|i: int| 0 <= i < k ==> #[trigger] self@[i] == other@[i],
            decreases self.components@.len() - k,
        {
            if !self.components[k].same(&other.components[k]) {
                proof {
                    assert(self@[k as int] != other@[k as int]);
                }
                return false;
            }
            k = k + 1;
        }
        proof {
            assert(self@ =~= other@);
        }
        true
    }

    /// Sorts the components and drops pairs of equal ones.
    ///
    /// Equal independent components have equal nimbers, so pairs XOR to 0.
    fn from_components(components: Vec<BitMatrix>) -> (game: Self)
        requires
            forall|i: int| 0 <= i < components@.len() ==> (#[trigger] components@[i]).wf(),
        ensures
            game.wf(),
            is_cancelled(grids(components@), game@),
    {
        let ghost all = grids(components@);
        let ghost lt = by_grid(all);
        let less = |i: usize, j: usize| -> (b: bool)
            requires
                i < components@.len(),
                j < components@.len(),
                components@[i as int].wf(),
                components@[j as int].wf(),
            ensures
                b == grid_lt(components@[i as int]@, components@[j as int]@),
            { components[i].precedes(&components[j]) };
        proof {
            lemma_by_grid(all);
            assert(decides(less, all.len(), lt)) by {
                assert forall|i: usize, j: usize|
                    i < all.len() && j < all.len() implies #[trigger] less.requires((i, j)) by {
                    assert(components@[i as int].wf() && components@[j as int].wf());
                }
            }
        }
        let order: Vec<usize> = sort_indices(components.len(), &less, Ghost(lt));
        let ghost sorted = Seq::new(all.len(), |k: int| all[order@[k] as int]);
        let mut reduced: Vec<BitMatrix> = Vec::new();
        let mut index: usize = 0;
        proof {
            lemma_gathered(all, order@);
            lemma_sorted_grids(all, order@, sorted);
            let none = sorted.take(0);
            assert(none.to_multiset().len() == 0) by {
                broadcast use vstd::seq_lib::group_to_multiset_ensures;
            }
            assert forall|g: Grid| none.to_multiset().count(g) == 0 by {
                broadcast use vstd::seq_lib::group_to_multiset_ensures;
                assert(!none.contains(g));
            }
            assert(grids(reduced@) =~= Seq::empty());
        }
        while index < order.len()
            invariant
                all == grids(components@),
                forall|i: int| 0 <= i < components@.len() ==> (#[trigger] components@[i]).wf(),
                order@.len() == components@.len(),
                forall|k: int| 0 <= k < order@.len() ==> #[trigger] order@[k] < components@.len(),
                sorted == Seq::new(all.len(), |k: int| all[order@[k] as int]),
                ascending_grids(sorted),
                index <= order@.len(),
                forall|i: int| 0 <= i < reduced@.len() ==> (#[trigger] reduced@[i]).wf(),
                is_cancelled(sorted.take(index as int), grids(reduced@)),
                forall|i: int, j: int|
                    0 <= i < index <= j < sorted.len() ==> #[trigger] sorted[i] != #[trigger] sorted[j],
            decreases order@.len() - index,
        {
            let first: usize = order[index];
            let ghost g = sorted[index as int];
            let mut end: usize = index + 1;
            proof {
                assert(order@[index as int] < components@.len());
            }
            while end < order.len() && components[order[end]].same(&components[first])
                invariant
                    all == grids(components@),
                    forall|i: int| 0 <= i < components@.len() ==> (#[trigger] components@[i]).wf(),
                    order@.len() == components@.len(),
                    forall|k: int| 0 <= k < order@.len() ==> #[trigger] order@[k] < components@.len(),
                    sorted == Seq::new(all.len(), |k: int| all[order@[k] as int]),
                    index < end <= order@.len(),
                    first == order@[index as int],
                    g == sorted[index as int],
                    g == components@[first as int]@,
                    forall|j: int| index <= j < end ==> #[trigger] sorted[j] == g,
                ensures
                    index < end <= order@.len(),
                    forall|j: int| index <= j < end ==> #[trigger] sorted[j] == g,
                    end < order@.len() ==> sorted[end as int] != g,
                decreases order@.len() - end,
            {
                end = end + 1;
            }
            let ghost before = grids(reduced@);
            if (end - index) % 2 == 1 {
                reduced.push(components[first].clone());
                proof {
                    assert(grids(reduced@) =~= before.push(g));
                }
            }
            proof {
                lemma_run_cancelled(sorted, index as int, end as int, before, grids(reduced@));
                assert forall|i: int, j: int| 0 <= i < end <= j < sorted.len() implies
                    #[trigger] sorted[i] != #[trigger] sorted[j] by {
                    if i >= index {
                        lemma_past_run(sorted, end as int, j);
                    }
                }
            }
            index = end;
        }
        let game = CanonicalGame { components: reduced };
        proof {
            game.lemma_wf();
            assert(sorted.take(index as int) =~= sorted);
        }
        game
    }
}

/// The rank of places in `all` by the matrix there.
spec fn by_grid(all: Seq<Grid>) -> spec_fn(int, int) -> bool {
    |i: int, j: int| grid_lt(all[i], all[j])
}

proof fn lemma_by_grid(all: Seq<Grid>)
    requires
        forall|i: int| 0 <= i < all.len() ==> (#[trigger] all[i]).wf(),
    ensures
        is_ranking(all.len(), by_grid(all)),
{
    let lt = by_grid(all);
    assert forall|i: int, j: int| 0 <= i < all.len() && 0 <= j < all.len() implies !(
    #[trigger] lt(i, j) && lt(j, i)) by {
        lemma_grid_order(all[i], all[j], all[j]);
    }
    assert forall|i: int, j: int, k: int|
        0 <= i < all.len() && 0 <= j < all.len() && 0 <= k < all.len() && !(#[trigger] lt(j, i)) && !(
        #[trigger] lt(k, j)) implies !lt(k, i) by {
        if lt(k, i) {
            lemma_grid_order(all[j], all[k], all[i]);
            lemma_grid_order(all[i], all[j], all[j]);
        }
    }
}

/// Whether no matrix of `sorted` goes before an earlier one.
spec fn ascending_grids(sorted: Seq<Grid>) -> bool {
    &&& forall|i: int| 0 <= i < sorted.len() ==> (#[trigger] sorted[i]).wf()
    &&& forall|i: int, j: int|
        0 <= i < j < sorted.len() ==> !grid_lt(#[trigger] sorted[j], #[trigger] sorted[i])
}

proof fn lemma_sorted_grids(all: Seq<Grid>, order: Seq<usize>, sorted: Seq<Grid>)
    requires
        forall|i: int| 0 <= i < all.len() ==> (#[trigger] all[i]).wf(),
        is_sorting(order, all.len(), by_grid(all)),
        sorted == Seq::new(all.len(), |k: int| all[order[k] as int]),
    ensures
        ascending_grids(sorted),
{
    assert forall|i: int| 0 <= i < sorted.len() implies (#[trigger] sorted[i]).wf() by {
        assert(order[i] < all.len());
    }
    assert forall|i: int, j: int| 0 <= i < j < sorted.len() implies !grid_lt(
        #[trigger] sorted[j],
        #[trigger] sorted[i],
    ) by {
        assert(goes_first(by_grid(all), order[i] as int, order[j] as int));
        lemma_grid_order(sorted[i], sorted[j], sorted[j]);
    }
}

proof fn lemma_past_run(sorted: Seq<Grid>, end: int, j: int)
    requires
        ascending_grids(sorted),
        0 < end <= j < sorted.len(),
        sorted[end - 1] != sorted[end],
    ensures
        sorted[end - 1] != sorted[j],
{
    lemma_grid_order(sorted[end - 1], sorted[end], sorted[end]);
    if j > end {
        assert(!grid_lt(sorted[j], sorted[end]));
    }
}

proof fn lemma_run_count(sorted: Seq<Grid>, index: int, end: int, g: Grid, h: Grid)
    requires
        0 <= index <= end <= sorted.len(),
        forall|j: int| index <= j < end ==> #[trigger] sorted[j] == g,
    ensures
        sorted.take(end).to_multiset().count(h) == sorted.take(index).to_multiset().count(h) + (if h
            == g {
            end - index
        } else {
            0
        }),
    decreases end - index,
{
    broadcast use vstd::seq_lib::group_to_multiset_ensures;

    if end > index {
        lemma_run_count(sorted, index, end - 1, g, h);
        assert(sorted.take(end) =~= sorted.take(end - 1).push(sorted[end - 1]));
    }
}

proof fn lemma_run_cancelled(
    sorted: Seq<Grid>,
    index: int,
    end: int,
    before: Seq<Grid>,
    after: Seq<Grid>,
)
    requires
        ascending_grids(sorted),
        0 <= index < end <= sorted.len(),
        forall|j: int| index <= j < end ==> #[trigger] sorted[j] == sorted[index],
        forall|i: int, j: int|
            0 <= i < index <= j < sorted.len() ==> #[trigger] sorted[i] != #[trigger] sorted[j],
        is_cancelled(sorted.take(index), before),
        after == (if (end - index) % 2 == 1 {
            before.push(sorted[index])
        } else {
            before
        }),
    ensures
        is_cancelled(sorted.take(end), after),
{
    broadcast use vstd::seq_lib::group_to_multiset_ensures;

    let g = sorted[index];
    let old = sorted.take(index);
    assert(!old.contains(g)) by {
        if old.contains(g) {
            let i = choose|i: int| 0 <= i < old.len() && old[i] == g;
            assert(sorted[i] == g);
        }
    }
    assert(old.to_multiset().count(g) == 0);
    assert(!before.contains(g));
    assert forall|h: Grid| #[trigger] after.contains(h) <==> sorted.take(end).to_multiset().count(h)
        % 2 == 1 by {
        lemma_run_count(sorted, index, end, g, h);
        assert(before.contains(h) <==> old.to_multiset().count(h) % 2 == 1);
        if (end - index) % 2 == 1 {
            if before.contains(h) {
                let i = choose|i: int| 0 <= i < before.len() && before[i] == h;
                assert(after[i] == h);
            }
            if h == g {
                assert(after[before.len() as int] == h);
            }
        }
    }
    assert forall|i: int, j: int| 0 <= i < j < after.len() implies grid_lt(
        #[trigger] after[i],
        #[trigger] after[j],
    ) by {
        if j < before.len() {
            assert(grid_lt(before[i], before[j]));
        } else {
            assert(before.contains(before[i]));
            assert(old.to_multiset().count(before[i]) > 0);
            assert(old.contains(before[i]));
            let k = choose|k: int| 0 <= k < old.len() && old[k] == before[i];
            assert(sorted[k] == before[i]);
            assert(sorted[k] != sorted[index]);
            assert(!grid_lt(sorted[index], sorted[k]));
            lemma_grid_order(sorted[k], sorted[index], sorted[index]);
        }
    }
    assert(after.no_duplicates()) by {
        assert forall|i: int, j: int|
            0 <= i < after.len() && 0 <= j < after.len() && i != j implies after[i] != after[j] by {
            if i < before.len() && j < before.len() {
                assert(before[i] != before[j]);
            } else {
                let k = if i < before.len() {
                    i
                } else {
                    j
                };
                assert(before.contains(before[k]));
            }
        }
    }
}

/// Taking one number out of a nim-sum.
proof fn lemma_total_removed(kept: Seq<Grid>, i: int)
    requires
        0 <= i < kept.len(),
    ensures
        nim_total(values(kept)) == nim_sum(
            nim_total(values(kept.remove(i))),
            grundy(kept[i].cells),
        ),
        node_count(kept) == node_count(kept.remove(i)) + kept[i].cells.len(),
    decreases kept.len(),
{
    let last = kept.len() - 1;
    assert(values(kept).drop_last() =~= values(kept.drop_last()));
    if i == last {
        assert(kept.remove(i) =~= kept.drop_last());
    } else {
        let less = kept.remove(i);
        let short = kept.drop_last();
        lemma_total_removed(short, i);
        assert(less.drop_last() =~= short.remove(i));
        assert(less.last() == kept.last());
        assert(values(less).drop_last() =~= values(short.remove(i)));
        let t = nim_total(values(short.remove(i)));
        let x = grundy(kept[i].cells);
        let y = grundy(kept.last().cells);
        assert(short[i] == kept[i]);
        lemma_nim_sum_associates(t, x, y);
        lemma_nim_sum_associates(t, y, x);
        lemma_nim_sum_commutes(x, y);
    }
}

/// Dropping pairs of equal parts keeps the nim-sum.
proof fn lemma_odd_members(parts: Seq<Grid>, kept: Seq<Grid>)
    requires
        odd_members(parts, kept),
    ensures
        nim_total(values(kept)) == nim_total(values(parts)),
        node_count(kept) <= node_count(parts),
        forall|i: int| 0 <= i < kept.len() ==> parts.contains(#[trigger] kept[i]),
    decreases parts.len(),
{
    broadcast use vstd::seq_lib::group_to_multiset_ensures;

    assert forall|i: int| 0 <= i < kept.len() implies parts.contains(#[trigger] kept[i]) by {
        assert(kept.contains(kept[i]));
        assert(parts.to_multiset().count(kept[i]) > 0);
    }
    if parts.len() == 0 {
        assert(kept.len() == 0) by {
            if kept.len() > 0 {
                assert(parts.contains(kept[0]));
            }
        }
    } else {
        let g = parts.last();
        let less = parts.drop_last();
        let x = grundy(g.cells);
        assert(parts =~= less.push(g));
        assert(values(parts).drop_last() =~= values(less));
        assert forall|h: Grid|
            #[trigger] parts.to_multiset().count(h) == less.to_multiset().count(h) + (if h == g {
                1nat
            } else {
                0
            }) by {}
        if kept.contains(g) {
            let i = choose|i: int| 0 <= i < kept.len() && kept[i] == g;
            let fewer = kept.remove(i);
            assert(odd_members(less, fewer)) by {
                lemma_removed_members(kept, i);
                assert forall|h: Grid| #[trigger] fewer.contains(h) <==> less.to_multiset().count(h)
                    % 2 == 1 by {
                    assert(kept.contains(h) <==> parts.to_multiset().count(h) % 2 == 1);
                }
            }
            lemma_odd_members(less, fewer);
            lemma_total_removed(kept, i);
        } else {
            let more = kept.push(g);
            assert(odd_members(less, more)) by {
                assert forall|h: Grid| #[trigger] more.contains(h) <==> less.to_multiset().count(h)
                    % 2 == 1 by {
                    assert(kept.contains(h) <==> parts.to_multiset().count(h) % 2 == 1);
                    if kept.contains(h) {
                        let i = choose|i: int| 0 <= i < kept.len() && kept[i] == h;
                        assert(more[i] == h);
                    }
                    if h == g {
                        assert(more[kept.len() as int] == h);
                    }
                }
            }
            lemma_odd_members(less, more);
            assert(more.drop_last() =~= kept);
            assert(values(more).drop_last() =~= values(kept));
            lemma_nim_sum_cancels(nim_total(values(kept)), x);
        }
    }
}

proof fn lemma_removed_members(kept: Seq<Grid>, i: int)
    requires
        kept.no_duplicates(),
        0 <= i < kept.len(),
    ensures
        kept.remove(i).no_duplicates(),
        forall|h: Grid| #[trigger]
            kept.remove(i).contains(h) <==> kept.contains(h) && h != kept[i],
{
    let fewer = kept.remove(i);
    assert forall|j: int| 0 <= j < fewer.len() implies #[trigger] fewer[j] == kept[if j < i {
        j
    } else {
        j + 1
    }] by {}
    assert forall|h: Grid| #[trigger] fewer.contains(h) <==> kept.contains(h) && h != kept[i] by {
        if kept.contains(h) && h != kept[i] {
            let k = choose|k: int| 0 <= k < kept.len() && kept[k] == h;
            assert(fewer[if k < i {
                k
            } else {
                k - 1
            }] == h);
        }
    }
}

/// What canonicalization leaves stands for the game of the matrix.
pub proof fn lemma_cancelled_stands_for(grid: Grid, kept: Seq<Grid>)
    requires
        grid.wf(),
        countable(grid.rows, grid.cols),
        is_cancelled(canonical_parts(grid), kept),
    ensures
        stands_for(grid.cells, kept),
{
    let small = squeezed(grid);
    let whole = parts(small);
    let normal = canonical_parts(grid);
    lemma_squeezed_isomorphic(grid);
    lemma_isomorphic(grid.cells, small.cells);
    lemma_parts(small);
    lemma_same_values(whole, normal);
    lemma_odd_members(normal, kept);
    assert forall|i: int| 0 <= i < kept.len() implies is_part(grid.cells, #[trigger] kept[i]) by {
        assert(normal.contains(kept[i]));
        let j = choose|j: int| 0 <= j < normal.len() && normal[j] == kept[i];
        assert(whole[j].wf());
        lemma_canonical_part_isomorphic(whole[j]);
        let t = choose|t: Position| t.subset_of(small.cells) && #[trigger] isomorphic(t, whole[j].cells);
        lemma_isomorphic_transitive(t, whole[j].cells, kept[i].cells);
        lemma_is_part_through(grid.cells, small.cells, t, kept[i]);
    }
}

/// A part of a relabelled game is a part of the game.
proof fn lemma_is_part_through(a: Position, b: Position, t: Position, part: Grid)
    requires
        isomorphic(a, b),
        t.subset_of(b),
        isomorphic(t, part.cells),
    ensures
        is_part(a, part),
{
    let f = choose|f: spec_fn((int, int)) -> (int, int)| relabels(a, b, f);
    let u = a.filter(|p: (int, int)| t.contains(f(p)));
    assert(u.map(f) =~= t) by {
        assert forall|x: (int, int)| t.contains(x) implies u.map(f).contains(x) by {
            assert(b.contains(x));
            let p = choose|p: (int, int)| a.contains(p) && f(p) == x;
            assert(u.contains(p));
        }
    }
    assert(relabels(u, t, f));
    lemma_isomorphic_transitive(u, t, part.cells);
    assert(u.subset_of(a));
}

proof fn lemma_same_values(whole: Seq<Grid>, normal: Seq<Grid>)
    requires
        whole.len() == normal.len(),
        forall|i: int|
            0 <= i < whole.len() ==> (#[trigger] whole[i]).wf() && countable(
                whole[i].rows,
                whole[i].cols,
            ) && normal[i] == canonical_part(whole[i]),
    ensures
        nim_total(values(whole)) == nim_total(values(normal)),
        node_count(whole) == node_count(normal),
    decreases whole.len(),
{
    if whole.len() > 0 {
        let a = whole.drop_last();
        let b = normal.drop_last();
        let last = whole.len() - 1;
        assert forall|i: int| 0 <= i < a.len() implies (#[trigger] a[i]).wf() && countable(
            a[i].rows,
            a[i].cols,
        ) && b[i] == canonical_part(a[i]) by {
            assert(whole[i].wf());
        }
        lemma_same_values(a, b);
        assert(values(whole).drop_last() =~= values(a));
        assert(values(normal).drop_last() =~= values(b));
        assert(whole[last].wf());
        lemma_canonical_part_isomorphic(whole[last]);
        lemma_isomorphic(whole[last].cells, normal[last].cells);
    }
}

} // verus!
