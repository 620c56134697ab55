//! Symmetries that prove a position to be lost for the player to move.
use crate::colors::{is_automorphism, lemma_colors_invariant, lemma_refined_bounded};
use crate::colors::{lemma_refined_lengths, refine_colors, refined_colors};
use crate::grid::{lemma_from_fn_wf, Grid};
use crate::matrix::BitMatrix;
use crate::nim::{grundy, is_mirror, lemma_mirror_is_zero, mirrored};
use vstd::prelude::*;

verus! {

/// A conservative zero certificate evaluated after a cache miss.
pub trait SymmetryFinder: Send + Sync {
    /// `false` means "not proven"; implementations must never guess `true`.
    fn proves_zero(&self, component: &BitMatrix) -> (proven: bool)
        requires
            component.wf(),
        ensures
            proven ==> grundy(component@.cells) == 0,
    ;
}

/// Whether `map` exchanges the lines below `n` in pairs, none with itself.
pub open spec fn is_pairing(map: Seq<usize>, n: nat) -> bool {
    &&& map.len() == n
    &&& forall|i: int|
        0 <= i < n ==> (#[trigger] map[i]) < n && map[i] != i && map[map[i] as int] == i
}

/// Whether exchanging rows and columns in pairs leaves the set cells the same.
pub open spec fn is_symmetry(grid: Grid, row_map: Seq<usize>, col_map: Seq<usize>) -> bool {
    &&& is_pairing(row_map, grid.rows)
    &&& is_pairing(col_map, grid.cols)
    &&& forall|r: int, c: int|
        0 <= r < grid.rows && 0 <= c < grid.cols ==> (#[trigger] grid.has(r, c) <==> grid.has(
            row_map[r] as int,
            col_map[c] as int,
        ))
}

/// Whether the matrix has such a symmetry.
pub open spec fn has_symmetry(grid: Grid) -> bool {
    exists|row_map: Seq<usize>, col_map: Seq<usize>| is_symmetry(grid, row_map, col_map)
}

/// A symmetric position is lost for the player to move: each move can be mirrored.
pub proof fn lemma_symmetric_is_zero(grid: Grid, row_map: Seq<usize>, col_map: Seq<usize>)
    requires
        grid.wf(),
        is_symmetry(grid, row_map, col_map),
    ensures
        grundy(grid.cells) == 0,
{
    let f = |r: int| row_map[r] as int;
    let g = |c: int| col_map[c] as int;
    assert(is_mirror(grid.cells, f, g)) by {
        assert forall|p: (int, int)| #[trigger] grid.cells.contains(p) implies {
            &&& grid.cells.contains(mirrored(f, g, p))
            &&& f(p.0) != p.0
            &&& g(p.1) != p.1
            &&& f(f(p.0)) == p.0
            &&& g(g(p.1)) == p.1
        } by {
            assert(grid.has(p.0, p.1));
            assert(row_map[p.0] < grid.rows && col_map[p.1] < grid.cols);
        }
    }
    lemma_mirror_is_zero(grid.cells, f, g);
}

/// Exchanges each even line with the next one.
pub open spec fn neighbours(n: nat) -> Seq<usize> {
    Seq::new(
        n,
        |i: int|
            if i % 2 == 0 {
                (i + 1) as usize
            } else {
                (i - 1) as usize
            },
    )
}

/// A full matrix with an even number of rows and of columns is symmetric, and so lost for the player
/// to move.
pub proof fn lemma_even_grid_is_zero(rows: nat, cols: nat)
    requires
        rows % 2 == 0,
        cols % 2 == 0,
        rows <= usize::MAX,
        cols <= usize::MAX,
    ensures
        has_symmetry(Grid::from_fn(rows, cols, |r: int, c: int| true)),
        grundy(Grid::from_fn(rows, cols, |r: int, c: int| true).cells) == 0,
{
    let grid = Grid::from_fn(rows, cols, |r: int, c: int| true);
    lemma_from_fn_wf(rows, cols, |r: int, c: int| true);
    assert(is_pairing(neighbours(rows), rows));
    assert(is_pairing(neighbours(cols), cols));
    assert(is_symmetry(grid, neighbours(rows), neighbours(cols)));
    lemma_symmetric_is_zero(grid, neighbours(rows), neighbours(cols));
}

/// A set whose elements can be paired has an even number of them.
proof fn lemma_paired_even<A>(s: Set<A>, h: spec_fn(A) -> A)
    requires
        s.finite(),
        forall|x: A| #[trigger] s.contains(x) ==> s.contains(h(x)) && h(x) != x && h(h(x)) == x,
    ensures
        s.len() % 2 == 0,
    decreases s.len(),
{
    if s.len() > 0 {
        let x = s.choose();
        let less = s.remove(x).remove(h(x));
        assert(s.contains(x));
        assert(s.contains(h(x)));
        assert forall|y: A| #[trigger] less.contains(y) implies less.contains(h(y)) && h(y) != y && h(
            h(y),
        ) == y by {
            assert(s.contains(y));
            assert(h(y) != x) by {
                if h(y) == x {
                    assert(h(h(y)) == y);
                }
            }
            assert(h(y) != h(x)) by {
                if h(y) == h(x) {
                    assert(h(h(y)) == y && h(h(x)) == x);
                }
            }
        }
        lemma_paired_even(less, h);
    }
}

/// A symmetry of a matrix that exchanges all its lines in pairs.
#[derive(Debug, PartialEq, Eq)]
pub struct Symmetry {
    row_map: Vec<usize>,
    col_map: Vec<usize>,
}

impl Symmetry {
    pub closed spec fn rows(&self) -> Seq<usize> {
        self.row_map@
    }

    pub closed spec fn cols(&self) -> Seq<usize> {
        self.col_map@
    }

    pub fn row_map(&self) -> (map: &[usize])
        ensures
            map@ == self.rows(),
    {
        self.row_map.as_slice()
    }

    pub fn col_map(&self) -> (map: &[usize])
        ensures
            map@ == self.cols(),
    {
        self.col_map.as_slice()
    }
}

impl Clone for Symmetry {
    fn clone(&self) -> (copy: Self)
        ensures
            copy.rows() == self.rows(),
            copy.cols() == self.cols(),
    {
        let copy = Symmetry { row_map: self.row_map.clone(), col_map: self.col_map.clone() };
        proof {
            assert(copy.row_map@ =~= self.row_map@);
            assert(copy.col_map@ =~= self.col_map@);
        }
        copy
    }
}

/// Finds symmetries by search.
#[derive(Clone, Copy, Debug, Default)]
pub struct InvolutionSymmetryFinder;

/// The lines of one side that are not paired yet.
spec fn unpaired(map: Seq<Option<usize>>) -> Set<int> {
    Set::new(|i: int| 0 <= i < map.len() && map[i] is None)
}

/// Whether `map` exchanges some of the lines below `n` in pairs, none with itself.
spec fn is_partial(map: Seq<Option<usize>>, n: nat) -> bool {
    &&& map.len() == n
    &&& forall|i: int|
        0 <= i < n && #[trigger] map[i] is Some ==> map[i]->0 < n && map[i]->0 != i
            && map[map[i]->0 as int] == Some(i as usize)
}

/// Whether the pairs found so far leave the set cells in paired lines the same.
spec fn is_consistent(
    grid: Grid,
    row_map: Seq<Option<usize>>,
    col_map: Seq<Option<usize>>,
) -> bool {
    forall|r: int, c: int|
        0 <= r < grid.rows && 0 <= c < grid.cols && row_map[r] is Some && col_map[c] is Some ==> (
        #[trigger] grid.has(r, c) <==> grid.has(row_map[r]->0 as int, col_map[c]->0 as int))
}

/// Whether `full` has all the pairs of `map`.
spec fn agrees(map: Seq<Option<usize>>, full: Seq<usize>) -> bool {
    forall|i: int| 0 <= i < map.len() && #[trigger] map[i] is Some ==> full[i] == map[i]->0
}

/// Whether a symmetry has all the pairs found so far.
spec fn extendable(
    grid: Grid,
    row_map: Seq<Option<usize>>,
    col_map: Seq<Option<usize>>,
) -> bool {
    exists|rows: Seq<usize>, cols: Seq<usize>|
        is_symmetry(grid, rows, cols) && #[trigger] agrees(row_map, rows) && #[trigger] agrees(
            col_map,
            cols,
        )
}

/// The places below `n` of colour `color` that are free and show the pattern `(a, b)`.
spec fn pattern_set(
    n: int,
    free: Seq<bool>,
    colors: Seq<usize>,
    first: Seq<bool>,
    second: Seq<bool>,
    color: int,
    a: bool,
    b: bool,
) -> Set<int> {
    Set::new(
        |i: int|
            0 <= i < n && free[i] && colors[i] == color && first[i] == a && second[i] == b,
    )
}

/// Whether the places of colour `color` that are free could be paired so that the patterns are
/// exchanged.
spec fn color_can_pair(
    free: Seq<bool>,
    colors: Seq<usize>,
    first: Seq<bool>,
    second: Seq<bool>,
    color: int,
) -> bool {
    let n = free.len() as int;
    &&& pattern_set(n, free, colors, first, second, color, false, false).len() % 2 == 0
    &&& pattern_set(n, free, colors, first, second, color, true, true).len() % 2 == 0
    &&& pattern_set(n, free, colors, first, second, color, false, true).len() == pattern_set(
        n,
        free,
        colors,
        first,
        second,
        color,
        true,
        false,
    ).len()
}

/// Whether the free places of each colour could be paired so that the patterns are exchanged.
spec fn can_pair(
    free: Seq<bool>,
    colors: Seq<usize>,
    first: Seq<bool>,
    second: Seq<bool>,
) -> bool {
    forall|color: int| #[trigger] color_can_pair(free, colors, first, second, color)
}

proof fn lemma_range_finite(n: int, s: Set<int>)
    requires
        0 <= n,
        forall|i: int| #[trigger] s.contains(i) ==> 0 <= i < n,
    ensures
        s.finite(),
        s.len() <= n,
    decreases n,
{
    if n == 0 {
        assert(s =~= Set::empty());
    } else {
        lemma_range_finite(n - 1, s.remove(n - 1));
        if s.contains(n - 1) {
            assert(s =~= s.remove(n - 1).insert(n - 1));
        } else {
            assert(s =~= s.remove(n - 1));
        }
    }
}

proof fn lemma_pattern_step(
    n: int,
    free: Seq<bool>,
    colors: Seq<usize>,
    first: Seq<bool>,
    second: Seq<bool>,
    color: int,
    a: bool,
    b: bool,
)
    requires
        0 <= n,
    ensures
        pattern_set(n, free, colors, first, second, color, a, b).finite(),
        pattern_set(n, free, colors, first, second, color, a, b).len() <= n,
        pattern_set(n + 1, free, colors, first, second, color, a, b).len() == pattern_set(
            n,
            free,
            colors,
            first,
            second,
            color,
            a,
            b,
        ).len() + if free[n] && colors[n] == color && first[n] == a && second[n] == b {
            1nat
        } else {
            0nat
        },
{
    let now = pattern_set(n, free, colors, first, second, color, a, b);
    let next = pattern_set(n + 1, free, colors, first, second, color, a, b);
    lemma_range_finite(n, now);
    if free[n] && colors[n] == color && first[n] == a && second[n] == b {
        assert(next =~= now.insert(n));
    } else {
        assert(next =~= now);
    }
}

/// Adds one to a counter.
fn count_up(counts: &mut Vec<usize>, at: usize)
    requires
        at < old(counts)@.len(),
        old(counts)@[at as int] < usize::MAX,
    ensures
        final(counts)@ == old(counts)@.update(at as int, (old(counts)@[at as int] + 1) as usize),
{
    let count: usize = counts[at];
    counts.set(at, count + 1);
}

/// Whether the free places of each colour could be paired so that the patterns are exchanged.
fn pattern_classes_can_pair(
    free: &Vec<bool>,
    colors: &Vec<usize>,
    color_count: usize,
    first: &Vec<bool>,
    second: &Vec<bool>,
) -> (possible: bool)
    requires
        colors@.len() == free@.len(),
        first@.len() == free@.len(),
        second@.len() == free@.len(),
        forall|i: int| 0 <= i < colors@.len() ==> #[trigger] colors@[i] < color_count,
    ensures
        possible == can_pair(free@, colors@, first@, second@),
{
    let mut neither: Vec<usize> = vec![0; color_count];
    let mut only_second: Vec<usize> = vec![0; color_count];
    let mut only_first: Vec<usize> = vec![0; color_count];
    let mut both: Vec<usize> = vec![0; color_count];
    let mut index: usize = 0;
    proof {
        assert forall|color: int, a: bool, b: bool|
            (#[trigger] pattern_set(0, free@, colors@, first@, second@, color, a, b)).len() == 0 by {
            assert(pattern_set(0, free@, colors@, first@, second@, color, a, b) =~= Set::empty());
        }
    }
    while index < free.len()
        invariant
            colors@.len() == free@.len(),
            first@.len() == free@.len(),
            second@.len() == free@.len(),
            forall|i: int| 0 <= i < colors@.len() ==> #[trigger] colors@[i] < color_count,
            index <= free@.len(),
            neither@.len() == color_count,
            only_second@.len() == color_count,
            only_first@.len() == color_count,
            both@.len() == color_count,
            forall|c: int|
                0 <= c < color_count ==> #[trigger] neither@[c] == pattern_set(
                    index as int,
                    free@,
                    colors@,
                    first@,
                    second@,
                    c,
                    false,
                    false,
                ).len(),
            forall|c: int|
                0 <= c < color_count ==> #[trigger] only_second@[c] == pattern_set(
                    index as int,
                    free@,
                    colors@,
                    first@,
                    second@,
                    c,
                    false,
                    true,
                ).len(),
            forall|c: int|
                0 <= c < color_count ==> #[trigger] only_first@[c] == pattern_set(
                    index as int,
                    free@,
                    colors@,
                    first@,
                    second@,
                    c,
                    true,
                    false,
                ).len(),
            forall|c: int|
                0 <= c < color_count ==> #[trigger] both@[c] == pattern_set(
                    index as int,
                    free@,
                    colors@,
                    first@,
                    second@,
                    c,
                    true,
                    true,
                ).len(),
        decreases free@.len() - index,
    {
        proof {
            assert(free@.len() == free.len());
            assert forall|c: int, a: bool, b: bool|
                #![trigger pattern_set(index + 1, free@, colors@, first@, second@, c, a, b)]
                {
                    let now = pattern_set(
                        index as int,
                        free@,
                        colors@,
                        first@,
                        second@,
                        c,
                        a,
                        b,
                    ).len();
                    &&& now <= index
                    &&& pattern_set(index + 1, free@, colors@, first@, second@, c, a, b).len() == now
                        + if free@[index as int] && colors@[index as int] == c
                        && first@[index as int] == a && second@[index as int] == b {
                        1nat
                    } else {
                        0nat
                    }
                } by {
                lemma_pattern_step(index as int, free@, colors@, first@, second@, c, a, b);
            }
            let color = colors@[index as int] as int;
            lemma_pattern_step(index as int, free@, colors@, first@, second@, color, false, false);
            lemma_pattern_step(index as int, free@, colors@, first@, second@, color, false, true);
            lemma_pattern_step(index as int, free@, colors@, first@, second@, color, true, false);
            lemma_pattern_step(index as int, free@, colors@, first@, second@, color, true, true);
        }
        if free[index] {
            let color: usize = colors[index];
            if first[index] {
                if second[index] {
                    count_up(&mut both, color);
                } else {
                    count_up(&mut only_first, color);
                }
            } else if second[index] {
                count_up(&mut only_second, color);
            } else {
                count_up(&mut neither, color);
            }
        }
        index = index + 1;
    }
    let ghost n = free@.len() as int;
    let mut color: usize = 0;
    while color < color_count
        invariant
            n == free@.len(),
            index == n,
            neither@.len() == color_count,
            only_second@.len() == color_count,
            only_first@.len() == color_count,
            both@.len() == color_count,
            forall|c: int|
                0 <= c < color_count ==> #[trigger] neither@[c] == pattern_set(
                    n,
                    free@,
                    colors@,
                    first@,
                    second@,
                    c,
                    false,
                    false,
                ).len(),
            forall|c: int|
                0 <= c < color_count ==> #[trigger] only_second@[c] == pattern_set(
                    n,
                    free@,
                    colors@,
                    first@,
                    second@,
                    c,
                    false,
                    true,
                ).len(),
            forall|c: int|
                0 <= c < color_count ==> #[trigger] only_first@[c] == pattern_set(
                    n,
                    free@,
                    colors@,
                    first@,
                    second@,
                    c,
                    true,
                    false,
                ).len(),
            forall|c: int|
                0 <= c < color_count ==> #[trigger] both@[c] == pattern_set(
                    n,
                    free@,
                    colors@,
                    first@,
                    second@,
                    c,
                    true,
                    true,
                ).len(),
            color <= color_count,
            forall|c: int|
                0 <= c < color ==> (#[trigger] neither@[c]) % 2 == 0 && both@[c] % 2 == 0
                    && only_second@[c] == only_first@[c],
        decreases color_count - color,
    {
        if neither[color] % 2 != 0 || both[color] % 2 != 0 || only_second[color]
            != only_first[color] {
            proof {
                assert(!color_can_pair(free@, colors@, first@, second@, color as int));
            }
            return false;
        }
        color = color + 1;
    }
    proof {
        assert forall|c: int| #[trigger] color_can_pair(free@, colors@, first@, second@, c) by {
            if 0 <= c < color_count {
                assert(neither@[c] % 2 == 0);
                assert(both@[c] % 2 == 0 && only_second@[c] == only_first@[c]);
            } else {
                assert(pattern_set(n, free@, colors@, first@, second@, c, false, false)
                    =~= Set::empty());
                assert(pattern_set(n, free@, colors@, first@, second@, c, true, true)
                    =~= Set::empty());
                assert(pattern_set(n, free@, colors@, first@, second@, c, false, true)
                    =~= Set::empty());
                assert(pattern_set(n, free@, colors@, first@, second@, c, true, false)
                    =~= Set::empty());
            }
        }
    }
    true
}

/// The places of the lines that are not paired yet.
spec fn free_places(map: Seq<Option<usize>>) -> Seq<bool> {
    map.map_values(|line: Option<usize>| line is None)
}

/// Row `r` as bits.
spec fn row_bits(grid: Grid, r: int) -> Seq<bool> {
    Seq::new(grid.cols, |c: int| grid.has(r, c))
}

/// Whether rows `first` and `second` could be paired, as far as the columns tell.
spec fn pair_valid(
    grid: Grid,
    col_map: Seq<Option<usize>>,
    col_colors: Seq<usize>,
    first: int,
    second: int,
) -> bool {
    &&& forall|c: int|
        0 <= c < grid.cols && #[trigger] col_map[c] is Some ==> (grid.has(first, c) <==> grid.has(
            second,
            col_map[c]->0 as int,
        ))
    &&& can_pair(
        free_places(col_map),
        col_colors,
        row_bits(grid, first),
        row_bits(grid, second),
    )
}

/// Whether row `row` could be paired with row `other`.
spec fn is_candidate(
    grid: Grid,
    row_map: Seq<Option<usize>>,
    row_colors: Seq<usize>,
    col_map: Seq<Option<usize>>,
    col_colors: Seq<usize>,
    row: int,
    other: int,
) -> bool {
    &&& row_map[other] is None
    &&& row_colors[other] == row_colors[row]
    &&& other != row
    &&& pair_valid(grid, col_map, col_colors, row, other)
}

/// Row `row` of a matrix as bits.
fn bits_of_row(matrix: &BitMatrix, row: usize) -> (bits: Vec<bool>)
    requires
        matrix.wf(),
        row < matrix@.rows,
    ensures
        bits@ == row_bits(matrix@, row as int),
{
    let mut bits: Vec<bool> = Vec::new();
    let mut col: usize = 0;
    while col < matrix.cols()
        invariant
            matrix.wf(),
            row < matrix@.rows,
            col <= matrix@.cols,
            bits@.len() == col,
            forall|c: int| 0 <= c < col ==> #[trigger] bits@[c] == matrix@.has(row as int, c),
        decreases matrix@.cols - col,
    {
        bits.push(matrix.get(row, col));
        col = col + 1;
    }
    proof {
        assert(bits@ =~= row_bits(matrix@, row as int));
    }
    bits
}

/// Whether two rows could be paired, as far as the columns tell.
fn valid_pair(
    matrix: &BitMatrix,
    col_map: &Vec<Option<usize>>,
    col_colors: &Vec<usize>,
    color_count: usize,
    first: usize,
    second: usize,
) -> (valid: bool)
    requires
        matrix.wf(),
        first < matrix@.rows,
        second < matrix@.rows,
        is_partial(col_map@, matrix@.cols),
        col_colors@.len() == matrix@.cols,
        forall|i: int| 0 <= i < col_colors@.len() ==> #[trigger] col_colors@[i] < color_count,
    ensures
        valid == pair_valid(matrix@, col_map@, col_colors@, first as int, second as int),
{
    let mut free: Vec<bool> = Vec::new();
    let mut col: usize = 0;
    while col < matrix.cols()
        invariant
            matrix.wf(),
            first < matrix@.rows,
            second < matrix@.rows,
            is_partial(col_map@, matrix@.cols),
            col <= matrix@.cols,
            free@.len() == col,
            forall|c: int| 0 <= c < col ==> #[trigger] free@[c] == (col_map@[c] is None),
            forall|c: int|
                0 <= c < col && #[trigger] col_map@[c] is Some ==> (matrix@.has(first as int, c)
                    <==> matrix@.has(second as int, col_map@[c]->0 as int)),
        decreases matrix@.cols - col,
    {
        match col_map[col] {
            Some(mapped_col) => {
                if matrix.get(first, col) != matrix.get(second, mapped_col) {
                    return false;
                }
                free.push(false);
            },
            None => {
                free.push(true);
            },
        }
        col = col + 1;
    }
    proof {
        assert(free@ =~= free_places(col_map@));
    }
    pattern_classes_can_pair(
        &free,
        col_colors,
        color_count,
        &bits_of_row(matrix, first),
        &bits_of_row(matrix, second),
    )
}

/// The rows with which row `row` could be paired.
fn candidates_for(
    matrix: &BitMatrix,
    row_map: &Vec<Option<usize>>,
    row_colors: &Vec<usize>,
    col_map: &Vec<Option<usize>>,
    col_colors: &Vec<usize>,
    color_count: usize,
    row: usize,
) -> (candidates: Vec<usize>)
    requires
        matrix.wf(),
        row < matrix@.rows,
        row_map@.len() == matrix@.rows,
        row_colors@.len() == matrix@.rows,
        is_partial(col_map@, matrix@.cols),
        col_colors@.len() == matrix@.cols,
        forall|i: int| 0 <= i < col_colors@.len() ==> #[trigger] col_colors@[i] < color_count,
    ensures
        forall|x: usize| #[trigger]
            candidates@.contains(x) <==> x < matrix@.rows && is_candidate(
                matrix@,
                row_map@,
                row_colors@,
                col_map@,
                col_colors@,
                row as int,
                x as int,
            ),
{
    let mut candidates: Vec<usize> = Vec::new();
    let mut other: usize = 0;
    while other < matrix.rows()
        invariant
            matrix.wf(),
            row < matrix@.rows,
            row_map@.len() == matrix@.rows,
            row_colors@.len() == matrix@.rows,
            is_partial(col_map@, matrix@.cols),
            col_colors@.len() == matrix@.cols,
            forall|i: int| 0 <= i < col_colors@.len() ==> #[trigger] col_colors@[i] < color_count,
            other <= matrix@.rows,
            forall|x: usize| #[trigger]
                candidates@.contains(x) <==> x < other && is_candidate(
                    matrix@,
                    row_map@,
                    row_colors@,
                    col_map@,
                    col_colors@,
                    row as int,
                    x as int,
                ),
        decreases matrix@.rows - other,
    {
        let ghost before = candidates@;
        let unpaired_: bool = match row_map[other] {
            Some(_) => false,
            None => true,
        };
        if unpaired_ && row_colors[other] == row_colors[row] && other != row && valid_pair(
            matrix,
            col_map,
            col_colors,
            color_count,
            row,
            other,
        ) {
            candidates.push(other);
            proof {
                assert forall|x: usize| #[trigger] candidates@.contains(x) <==> before.contains(x)
                    || x == other by {
                    if before.contains(x) {
                        let i = choose|i: int| 0 <= i < before.len() && before[i] == x;
                        assert(candidates@[i] == x);
                    }
                    if x == other {
                        assert(candidates@[before.len() as int] == x);
                    }
                }
            }
        }
        other = other + 1;
    }
    candidates
}

/// A line to pair next, and the lines it could be paired with.
enum Choice {
    Row(usize, Vec<usize>),
    Col(usize, Vec<usize>),
}

impl Choice {
    /// The number of candidates.
    spec fn count(&self) -> nat {
        match self {
            Choice::Row(_, candidates) => candidates@.len(),
            Choice::Col(_, candidates) => candidates@.len(),
        }
    }

    fn candidate_count(&self) -> (count: usize)
        ensures
            count == self.count(),
    {
        match self {
            Choice::Row(_, candidates) => candidates.len(),
            Choice::Col(_, candidates) => candidates.len(),
        }
    }
}

/// The choice with fewer candidates, the earlier one if they have as many.
fn better_choice(best: Option<Choice>, candidate: Choice) -> (better: Option<Choice>)
    ensures
        better == (match best {
            None => Some(candidate),
            Some(current) => if candidate.count() < current.count() {
                Some(candidate)
            } else {
                Some(current)
            },
        }),
{
    match best {
        None => Some(candidate),
        Some(current) => {
            if candidate.candidate_count() < current.candidate_count() {
                Some(candidate)
            } else {
                Some(current)
            }
        },
    }
}

struct SymmetrySearch {
    matrix: BitMatrix,
    transposed: BitMatrix,
    row_colors: Vec<usize>,
    col_colors: Vec<usize>,
    color_count: usize,
    row_map: Vec<Option<usize>>,
    col_map: Vec<Option<usize>>,
}

/// The partial pairing with one more pair.
spec fn with_pair(map: Seq<Option<usize>>, a: usize, b: usize) -> Seq<Option<usize>> {
    map.update(a as int, Some(b)).update(b as int, Some(a))
}

/// Whether lines that a symmetry exchanges have the same colour.
spec fn colors_kept(colors: Seq<usize>, full: Seq<usize>) -> bool {
    forall|i: int| 0 <= i < full.len() ==> #[trigger] colors[full[i] as int] == colors[i]
}

/// Whether all symmetries keep the colours.
spec fn colors_sound(grid: Grid, row_colors: Seq<usize>, col_colors: Seq<usize>) -> bool {
    forall|rows: Seq<usize>, cols: Seq<usize>| #[trigger]
        is_symmetry(grid, rows, cols) ==> colors_kept(row_colors, rows) && colors_kept(
            col_colors,
            cols,
        )
}

proof fn lemma_turned_symmetry(grid: Grid, rows: Seq<usize>, cols: Seq<usize>)
    requires
        grid.wf(),
        is_symmetry(grid, rows, cols),
    ensures
        is_symmetry(grid.transposed(), cols, rows),
{
    let turned = grid.transposed();
    assert forall|c: int, r: int| 0 <= c < turned.rows && 0 <= r < turned.cols implies (
    #[trigger] turned.has(c, r) <==> turned.has(cols[c] as int, rows[r] as int)) by {
        assert(grid.has(r, c) <==> grid.has(rows[r] as int, cols[c] as int));
        assert(rows[r] < grid.rows && cols[c] < grid.cols);
    }
}

/// A line that a symmetry pairs is paired with a candidate.
proof fn lemma_must_be_candidate(
    grid: Grid,
    row_map: Seq<Option<usize>>,
    row_colors: Seq<usize>,
    col_map: Seq<Option<usize>>,
    col_colors: Seq<usize>,
    rows: Seq<usize>,
    cols: Seq<usize>,
    row: int,
)
    requires
        grid.wf(),
        is_partial(row_map, grid.rows),
        is_partial(col_map, grid.cols),
        is_symmetry(grid, rows, cols),
        agrees(row_map, rows),
        agrees(col_map, cols),
        colors_kept(row_colors, rows),
        colors_kept(col_colors, cols),
        col_colors.len() == grid.cols,
        0 <= row < grid.rows,
        row_map[row] is None,
    ensures
        is_candidate(
            grid,
            row_map,
            row_colors,
            col_map,
            col_colors,
            row,
            rows[row] as int,
        ),
        rows[row] < grid.rows,
{
    let other = rows[row] as int;
    assert(rows[row] < grid.rows && rows[row] != row && rows[other] == row);
    assert(row_map[other] is None) by {
        if row_map[other] is Some {
            assert(rows[other] == row_map[other]->0);
        }
    }
    let free = free_places(col_map);
    let first = row_bits(grid, row);
    let second = row_bits(grid, other);
    let g = |c: int| cols[c] as int;
    // A free column goes to a free column of the same colour with the exchanged pattern.
    assert forall|c: int| 0 <= c < grid.cols implies {
        let d = #[trigger] g(c);
        &&& 0 <= d < grid.cols && d != c && g(d) == c
        &&& free[d] == free[c]
        &&& col_colors[d] == col_colors[c]
        &&& first[d] == second[c] && second[d] == first[c]
    } by {
        let d = g(c);
        assert(cols[c] < grid.cols && cols[c] != c && cols[d] == c);
        assert(free[d] == free[c]) by {
            if col_map[c] is Some {
                assert(cols[c] == col_map[c]->0);
            }
            if col_map[d] is Some {
                assert(cols[d] == col_map[d]->0);
            }
        }
        assert(col_colors[cols[c] as int] == col_colors[c]);
        assert(grid.has(row, c) <==> grid.has(other, d));
        assert(grid.has(other, c) <==> grid.has(row, d));
    }
    assert forall|color: int| #[trigger] color_can_pair(free, col_colors, first, second, color) by {
        let n = free.len() as int;
        let neither = pattern_set(n, free, col_colors, first, second, color, false, false);
        let both = pattern_set(n, free, col_colors, first, second, color, true, true);
        let only_second = pattern_set(n, free, col_colors, first, second, color, false, true);
        let only_first = pattern_set(n, free, col_colors, first, second, color, true, false);
        lemma_range_finite(n, neither);
        lemma_range_finite(n, both);
        lemma_range_finite(n, only_second);
        lemma_range_finite(n, only_first);
        assert forall|c: int| #[trigger] neither.contains(c) implies neither.contains(g(c)) && g(c)
            != c && g(g(c)) == c by {}
        lemma_paired_even(neither, g);
        assert forall|c: int| #[trigger] both.contains(c) implies both.contains(g(c)) && g(c) != c
            && g(g(c)) == c by {}
        lemma_paired_even(both, g);
        assert(only_second.map(g) =~= only_first) by {
            assert forall|d: int| only_first.contains(d) implies only_second.map(g).contains(d) by {
                assert(only_second.contains(g(d)));
                assert(g(g(d)) == d);
            }
        }
        assert(vstd::relations::injective_on(g, only_second)) by {
            assert forall|c: int, d: int|
                only_second.contains(c) && only_second.contains(d) && #[trigger] g(c)
                    == #[trigger] g(d) implies c == d by {
                assert(g(g(c)) == c && g(g(d)) == d);
            }
        }
        vstd::set_lib::lemma_map_size(only_second, only_first, g);
    }
    assert forall|c: int| 0 <= c < grid.cols && #[trigger] col_map[c] is Some implies (grid.has(
        row,
        c,
    ) <==> grid.has(other, col_map[c]->0 as int)) by {
        assert(cols[c] == col_map[c]->0);
        assert(grid.has(row, c) <==> grid.has(rows[row] as int, cols[c] as int));
    }
}

/// Adding a valid pair keeps what has been found consistent.
proof fn lemma_add_pair(
    grid: Grid,
    row_map: Seq<Option<usize>>,
    col_map: Seq<Option<usize>>,
    a: usize,
    b: usize,
)
    requires
        grid.wf(),
        grid.rows <= usize::MAX,
        grid.cols <= usize::MAX,
        is_partial(row_map, grid.rows),
        is_partial(col_map, grid.cols),
        is_consistent(grid, row_map, col_map),
        a < grid.rows,
        b < grid.rows,
        a != b,
        row_map[a as int] is None,
        row_map[b as int] is None,
        forall|c: int|
            0 <= c < grid.cols && #[trigger] col_map[c] is Some ==> (grid.has(a as int, c)
                <==> grid.has(b as int, col_map[c]->0 as int)),
    ensures
        is_partial(with_pair(row_map, a, b), grid.rows),
        is_consistent(grid, with_pair(row_map, a, b), col_map),
        unpaired(with_pair(row_map, a, b)) == unpaired(row_map).remove(a as int).remove(b as int),
        unpaired(row_map).finite(),
        unpaired(with_pair(row_map, a, b)).len() + 2 == unpaired(row_map).len(),
{
    let map = with_pair(row_map, a, b);
    assert forall|i: int| 0 <= i < grid.rows && #[trigger] map[i] is Some implies map[i]->0
        < grid.rows && map[i]->0 != i && map[map[i]->0 as int] == Some(i as usize) by {
        if i != a && i != b {
            assert(row_map[i] is Some);
            let j = row_map[i]->0 as int;
            assert(row_map[j] == Some(i as usize));
        }
    }
    assert forall|r: int, c: int|
        0 <= r < grid.rows && 0 <= c < grid.cols && map[r] is Some && col_map[c] is Some implies (
    #[trigger] grid.has(r, c) <==> grid.has(map[r]->0 as int, col_map[c]->0 as int)) by {
        if r == b {
            let d = col_map[c]->0 as int;
            assert(col_map[d] == Some(c as usize));
            assert(grid.has(a as int, d) <==> grid.has(b as int, col_map[d]->0 as int));
        } else if r == a {
            assert(col_map[c] is Some);
        } else {
            assert(row_map[r] is Some);
        }
    }
    lemma_range_finite(row_map.len() as int, unpaired(row_map));
    assert(unpaired(map) =~= unpaired(row_map).remove(a as int).remove(b as int));
}

/// Where a symmetry has the pairs found so far, it also has one with a candidate.
proof fn lemma_extend_with(
    grid: Grid,
    row_map: Seq<Option<usize>>,
    col_map: Seq<Option<usize>>,
    rows: Seq<usize>,
    cols: Seq<usize>,
    a: usize,
)
    requires
        is_symmetry(grid, rows, cols),
        agrees(row_map, rows),
        agrees(col_map, cols),
        row_map.len() == grid.rows,
        a < grid.rows,
    ensures
        extendable(grid, with_pair(row_map, a, rows[a as int]), col_map),
{
    let b = rows[a as int];
    let map = with_pair(row_map, a, b);
    assert(b < grid.rows && rows[b as int] == a);
    assert(agrees(map, rows)) by {
        assert forall|i: int| 0 <= i < map.len() && #[trigger] map[i] is Some implies rows[i]
            == map[i]->0 by {
            if i != a && i != b {
                assert(row_map[i] is Some);
            }
        }
    }
    assert(is_symmetry(grid, rows, cols) && agrees(map, rows) && agrees(col_map, cols));
}

proof fn lemma_turned_extendable(
    grid: Grid,
    row_map: Seq<Option<usize>>,
    col_map: Seq<Option<usize>>,
)
    requires
        grid.wf(),
        extendable(grid, row_map, col_map),
    ensures
        extendable(grid.transposed(), col_map, row_map),
{
    let (rows, cols) = choose|rows: Seq<usize>, cols: Seq<usize>|
        is_symmetry(grid, rows, cols) && #[trigger] agrees(row_map, rows) && #[trigger] agrees(
            col_map,
            cols,
        );
    lemma_turned_symmetry(grid, rows, cols);
    assert(is_symmetry(grid.transposed(), cols, rows) && agrees(col_map, cols) && agrees(
        row_map,
        rows,
    ));
}

proof fn lemma_turned_consistent(
    grid: Grid,
    row_map: Seq<Option<usize>>,
    col_map: Seq<Option<usize>>,
)
    requires
        grid.wf(),
        is_partial(row_map, grid.rows),
        is_partial(col_map, grid.cols),
        is_consistent(grid, row_map, col_map),
    ensures
        is_consistent(grid.transposed(), col_map, row_map),
{
    let turned = grid.transposed();
    assert forall|c: int, r: int|
        0 <= c < turned.rows && 0 <= r < turned.cols && col_map[c] is Some && row_map[r] is Some
            implies (#[trigger] turned.has(c, r) <==> turned.has(
        col_map[c]->0 as int,
        row_map[r]->0 as int,
    )) by {
        assert(grid.has(r, c) <==> grid.has(row_map[r]->0 as int, col_map[c]->0 as int));
        assert(row_map[r]->0 < grid.rows && col_map[c]->0 < grid.cols);
    }
}

proof fn lemma_turned_twice(grid: Grid)
    requires
        grid.wf(),
    ensures
        grid.transposed().transposed() == grid,
        grid.transposed().wf(),
{
    broadcast use crate::grid::lemma_from_fn_wf;

    let twice = grid.transposed().transposed();
    assert forall|p: (int, int)| #[trigger] grid.cells.contains(p) <==> twice.cells.contains(p) by {
        if grid.cells.contains(p) {
            assert(grid.transposed().has(p.1, p.0));
        }
    }
    assert(twice =~= grid);
}

impl SymmetrySearch {
    spec fn fixed(&self) -> bool {
        let grid = self.matrix@;
        &&& self.matrix.wf()
        &&& self.transposed.wf()
        &&& self.transposed@ == grid.transposed()
        &&& self.row_colors@.len() == grid.rows
        &&& self.col_colors@.len() == grid.cols
        &&& forall|i: int|
            0 <= i < self.row_colors@.len() ==> #[trigger] self.row_colors@[i] < self.color_count
        &&& forall|i: int|
            0 <= i < self.col_colors@.len() ==> #[trigger] self.col_colors@[i] < self.color_count
        &&& colors_sound(grid, self.row_colors@, self.col_colors@)
    }

    spec fn wf(&self) -> bool {
        &&& self.fixed()
        &&& is_partial(self.row_map@, self.matrix@.rows)
        &&& is_partial(self.col_map@, self.matrix@.cols)
        &&& is_consistent(self.matrix@, self.row_map@, self.col_map@)
    }

    spec fn unpaired_lines(&self) -> nat {
        unpaired(self.row_map@).len() + unpaired(self.col_map@).len()
    }

    /// The unpaired line with the fewest candidates, of the first unpaired lines of each colour.
    fn best_choice(&self) -> (best: Option<Choice>)
        requires
            self.wf(),
        ensures
            match best {
                None => {
                    &&& forall|r: int|
                        0 <= r < self.matrix@.rows ==> #[trigger] self.row_map@[r] is Some
                    &&& forall|c: int|
                        0 <= c < self.matrix@.cols ==> #[trigger] self.col_map@[c] is Some
                },
                Some(Choice::Row(row, candidates)) => {
                    &&& row < self.matrix@.rows
                    &&& self.row_map@[row as int] is None
                    &&& forall|x: usize| #[trigger]
                        candidates@.contains(x) <==> x < self.matrix@.rows && is_candidate(
                            self.matrix@,
                            self.row_map@,
                            self.row_colors@,
                            self.col_map@,
                            self.col_colors@,
                            row as int,
                            x as int,
                        )
                },
                Some(Choice::Col(col, candidates)) => {
                    &&& col < self.matrix@.cols
                    &&& self.col_map@[col as int] is None
                    &&& forall|x: usize| #[trigger]
                        candidates@.contains(x) <==> x < self.matrix@.cols && is_candidate(
                            self.matrix@.transposed(),
                            self.col_map@,
                            self.col_colors@,
                            self.row_map@,
                            self.row_colors@,
                            col as int,
                            x as int,
                        )
                },
            },
    {
        let mut best: Option<Choice> = None;
        let mut seen_colors: Vec<bool> = vec![false; self.color_count];
        let mut row: usize = 0;
        while row < self.matrix.rows()
            invariant
                self.wf(),
                row <= self.matrix@.rows,
                seen_colors@.len() == self.color_count,
                best is None ==> forall|r: int|
                    0 <= r < row ==> #[trigger] self.row_map@[r] is Some,
                best is None ==> forall|i: int|
                    0 <= i < seen_colors@.len() ==> !(#[trigger] seen_colors@[i]),
                best is Some ==> match best->0 {
                    Choice::Row(node, candidates) => {
                        &&& node < self.matrix@.rows
                        &&& self.row_map@[node as int] is None
                        &&& forall|x: usize| #[trigger]
                            candidates@.contains(x) <==> x < self.matrix@.rows && is_candidate(
                                self.matrix@,
                                self.row_map@,
                                self.row_colors@,
                                self.col_map@,
                                self.col_colors@,
                                node as int,
                                x as int,
                            )
                    },
                    Choice::Col(_, _) => false,
                },
            decreases self.matrix@.rows - row,
        {
            let unpaired_: bool = match self.row_map[row] {
                Some(_) => false,
                None => true,
            };
            let color: usize = self.row_colors[row];
            if unpaired_ && !seen_colors[color] {
                seen_colors.set(color, true);
                let candidates: Vec<usize> = candidates_for(
                    &self.matrix,
                    &self.row_map,
                    &self.row_colors,
                    &self.col_map,
                    &self.col_colors,
                    self.color_count,
                    row,
                );
                best = better_choice(best, Choice::Row(row, candidates));
            }
            row = row + 1;
        }
        let mut seen_colors: Vec<bool> = vec![false; self.color_count];
        let mut col: usize = 0;
        let ghost rows_done = best;
        while col < self.matrix.cols()
            invariant
                self.wf(),
                col <= self.matrix@.cols,
                seen_colors@.len() == self.color_count,
                best is None ==> forall|r: int|
                    0 <= r < self.matrix@.rows ==> #[trigger] self.row_map@[r] is Some,
                best is None ==> forall|c: int|
                    0 <= c < col ==> #[trigger] self.col_map@[c] is Some,
                best is None ==> forall|i: int|
                    0 <= i < seen_colors@.len() ==> !(#[trigger] seen_colors@[i]),
                best is Some ==> match best->0 {
                    Choice::Row(node, candidates) => {
                        &&& node < self.matrix@.rows
                        &&& self.row_map@[node as int] is None
                        &&& forall|x: usize| #[trigger]
                            candidates@.contains(x) <==> x < self.matrix@.rows && is_candidate(
                                self.matrix@,
                                self.row_map@,
                                self.row_colors@,
                                self.col_map@,
                                self.col_colors@,
                                node as int,
                                x as int,
                            )
                    },
                    Choice::Col(node, candidates) => {
                        &&& node < self.matrix@.cols
                        &&& self.col_map@[node as int] is None
                        &&& forall|x: usize| #[trigger]
                            candidates@.contains(x) <==> x < self.matrix@.cols && is_candidate(
                                self.matrix@.transposed(),
                                self.col_map@,
                                self.col_colors@,
                                self.row_map@,
                                self.row_colors@,
                                node as int,
                                x as int,
                            )
                    },
                },
            decreases self.matrix@.cols - col,
        {
            let unpaired_: bool = match self.col_map[col] {
                Some(_) => false,
                None => true,
            };
            let color: usize = self.col_colors[col];
            if unpaired_ && !seen_colors[color] {
                seen_colors.set(color, true);
                let candidates: Vec<usize> = candidates_for(
                    &self.transposed,
                    &self.col_map,
                    &self.col_colors,
                    &self.row_map,
                    &self.row_colors,
                    self.color_count,
                    col,
                );
                best = better_choice(best, Choice::Col(col, candidates));
            }
            col = col + 1;
        }
        best
    }

    /// Pairs the lines that are left, if that can be done.
    fn search(&mut self) -> (found: bool)
        requires
            old(self).wf(),
        ensures
            final(self).wf(),
            final(self).matrix@ == old(self).matrix@,
            found ==> {
                &&& forall|r: int|
                    0 <= r < final(self).row_map@.len() ==> #[trigger] final(self).row_map@[r]
                        is Some
                &&& forall|c: int|
                    0 <= c < final(self).col_map@.len() ==> #[trigger] final(self).col_map@[c]
                        is Some
            },
            !found ==> {
                &&& final(self).row_map@ == old(self).row_map@
                &&& final(self).col_map@ == old(self).col_map@
                &&& final(self).row_colors@ == old(self).row_colors@
                &&& final(self).col_colors@ == old(self).col_colors@
                &&& final(self).color_count == old(self).color_count
                &&& !extendable(old(self).matrix@, old(self).row_map@, old(self).col_map@)
            },
        decreases old(self).unpaired_lines(),
    {
        let ghost grid = self.matrix@;
        let ghost row_map = self.row_map@;
        let ghost col_map = self.col_map@;
        let ghost row_colors = self.row_colors@;
        let ghost col_colors = self.col_colors@;
        let choice: Option<Choice> = self.best_choice();
        match choice {
            None => true,
            Some(Choice::Row(node, candidates)) => {
                let mut k: usize = 0;
                while k < candidates.len()
                    invariant
                        self.wf(),
                        self.matrix@ == grid,
                        grid == old(self).matrix@,
                        self.row_map@ == row_map,
                        self.col_map@ == col_map,
                        self.row_colors@ == row_colors,
                        self.col_colors@ == col_colors,
                        self.color_count == old(self).color_count,
                        row_map == old(self).row_map@,
                        col_map == old(self).col_map@,
                        row_colors == old(self).row_colors@,
                        col_colors == old(self).col_colors@,
                        self.unpaired_lines() == old(self).unpaired_lines(),
                        node < grid.rows,
                        row_map[node as int] is None,
                        forall|x: usize| #[trigger]
                            candidates@.contains(x) <==> x < grid.rows && is_candidate(
                                grid,
                                row_map,
                                row_colors,
                                col_map,
                                col_colors,
                                node as int,
                                x as int,
                            ),
                        k <= candidates@.len(),
                        forall|i: int|
                            0 <= i < k ==> !extendable(
                                grid,
                                with_pair(row_map, node, #[trigger] candidates@[i]),
                                col_map,
                            ),
                    decreases candidates@.len() - k,
                {
                    let candidate: usize = candidates[k];
                    proof {
                        assert(candidates@.contains(candidate));
                        lemma_add_pair(grid, row_map, col_map, node, candidate);
                    }
                    self.row_map.set(node, Some(candidate));
                    self.row_map.set(candidate, Some(node));
                    proof {
                        assert(self.row_map@ =~= with_pair(row_map, node, candidate));
                    }
                    if self.search() {
                        return true;
                    }
                    self.row_map.set(node, None);
                    self.row_map.set(candidate, None);
                    proof {
                        assert(self.row_map@ =~= row_map);
                    }
                    k = k + 1;
                }
                proof {
                    if extendable(grid, row_map, col_map) {
                        let (rows, cols) = choose|rows: Seq<usize>, cols: Seq<usize>|
                            is_symmetry(grid, rows, cols) && #[trigger] agrees(row_map, rows)
                                && #[trigger] agrees(col_map, cols);
                        lemma_must_be_candidate(
                            grid,
                            row_map,
                            row_colors,
                            col_map,
                            col_colors,
                            rows,
                            cols,
                            node as int,
                        );
                        lemma_extend_with(grid, row_map, col_map, rows, cols, node);
                        assert(candidates@.contains(rows[node as int]));
                    }
                }
                false
            },
            Some(Choice::Col(node, candidates)) => {
                let ghost turned = grid.transposed();
                proof {
                    lemma_turned_twice(grid);
                }
                let mut k: usize = 0;
                while k < candidates.len()
                    invariant
                        self.wf(),
                        self.matrix@ == grid,
                        grid == old(self).matrix@,
                        turned == grid.transposed(),
                        turned.transposed() == grid,
                        turned.wf(),
                        self.row_map@ == row_map,
                        self.col_map@ == col_map,
                        self.row_colors@ == row_colors,
                        self.col_colors@ == col_colors,
                        self.color_count == old(self).color_count,
                        row_map == old(self).row_map@,
                        col_map == old(self).col_map@,
                        row_colors == old(self).row_colors@,
                        col_colors == old(self).col_colors@,
                        self.unpaired_lines() == old(self).unpaired_lines(),
                        node < grid.cols,
                        col_map[node as int] is None,
                        forall|x: usize| #[trigger]
                            candidates@.contains(x) <==> x < grid.cols && is_candidate(
                                turned,
                                col_map,
                                col_colors,
                                row_map,
                                row_colors,
                                node as int,
                                x as int,
                            ),
                        k <= candidates@.len(),
                        forall|i: int|
                            0 <= i < k ==> !extendable(
                                grid,
                                row_map,
                                with_pair(col_map, node, #[trigger] candidates@[i]),
                            ),
                    decreases candidates@.len() - k,
                {
                    let candidate: usize = candidates[k];
                    proof {
                        assert(candidates@.contains(candidate));
                        lemma_turned_consistent(grid, row_map, col_map);
                        lemma_add_pair(turned, col_map, row_map, node, candidate);
                        lemma_turned_consistent(turned, with_pair(col_map, node, candidate), row_map);
                    }
                    self.col_map.set(node, Some(candidate));
                    self.col_map.set(candidate, Some(node));
                    proof {
                        assert(self.col_map@ =~= with_pair(col_map, node, candidate));
                    }
                    if self.search() {
                        return true;
                    }
                    self.col_map.set(node, None);
                    self.col_map.set(candidate, None);
                    proof {
                        assert(self.col_map@ =~= col_map);
                    }
                    k = k + 1;
                }
                proof {
                    if extendable(grid, row_map, col_map) {
                        let (rows, cols) = choose|rows: Seq<usize>, cols: Seq<usize>|
                            is_symmetry(grid, rows, cols) && #[trigger] agrees(row_map, rows)
                                && #[trigger] agrees(col_map, cols);
                        lemma_turned_symmetry(grid, rows, cols);
                        lemma_must_be_candidate(
                            turned,
                            col_map,
                            col_colors,
                            row_map,
                            row_colors,
                            cols,
                            rows,
                            node as int,
                        );
                        lemma_extend_with(turned, col_map, row_map, cols, rows, node);
                        lemma_turned_extendable(
                            turned,
                            with_pair(col_map, node, cols[node as int]),
                            row_map,
                        );
                        assert(candidates@.contains(cols[node as int]));
                    }
                }
                false
            },
        }
    }
}

/// The paired lines of a complete pairing.
fn complete(map: &Vec<Option<usize>>, Ghost(n): Ghost<nat>) -> (full: Vec<usize>)
    requires
        is_partial(map@, n),
        forall|i: int| 0 <= i < map@.len() ==> #[trigger] map@[i] is Some,
    ensures
        is_pairing(full@, n),
        forall|i: int| 0 <= i < n ==> #[trigger] full@[i] == map@[i]->0,
{
    let mut full: Vec<usize> = Vec::new();
    let mut k: usize = 0;
    while k < map.len()
        invariant
            is_partial(map@, n),
            forall|i: int| 0 <= i < map@.len() ==> #[trigger] map@[i] is Some,
            k <= map@.len(),
            full@.len() == k,
            forall|i: int| 0 <= i < k ==> #[trigger] full@[i] == map@[i]->0,
        decreases map@.len() - k,
    {
        proof {
            assert(map@[k as int] is Some);
        }
        match map[k] {
            Some(line) => {
                full.push(line);
            },
            None => {},
        }
        k = k + 1;
    }
    proof {
        assert forall|i: int| 0 <= i < n implies (#[trigger] full@[i]) < n && full@[i] != i
            && full@[full@[i] as int] == i by {
            assert(map@[i] is Some);
            let j = map@[i]->0 as int;
            assert(map@[j] == Some(i as usize));
            assert(full@[j] == map@[j]->0);
        }
    }
    full
}

/// Whether every colour occurs an even number of times.
fn color_classes_are_even(colors: &Vec<usize>, color_count: usize) -> (even: bool)
    requires
        forall|i: int| 0 <= i < colors@.len() ==> #[trigger] colors@[i] < color_count,
    ensures
        even == (forall|color: int| (#[trigger] color_set(colors@, color)).len() % 2 == 0),
{
    let free: Vec<bool> = vec![true; colors.len()];
    let none: Vec<bool> = vec![false; colors.len()];
    proof {
        assert forall|color: int| #[trigger] color_can_pair(free@, colors@, none@, none@, color)
            <==> color_set(colors@, color).len() % 2 == 0 by {
            let n = free@.len() as int;
            assert(pattern_set(n, free@, colors@, none@, none@, color, false, false) =~= color_set(
                colors@,
                color,
            ));
            assert(pattern_set(n, free@, colors@, none@, none@, color, true, true) =~= Set::empty());
            assert(pattern_set(n, free@, colors@, none@, none@, color, false, true)
                =~= Set::empty());
            assert(pattern_set(n, free@, colors@, none@, none@, color, true, false)
                =~= Set::empty());
        }
        if can_pair(free@, colors@, none@, none@) {
            assert forall|color: int| (#[trigger] color_set(colors@, color)).len() % 2 == 0 by {
                assert(color_can_pair(free@, colors@, none@, none@, color));
            }
        }
    }
    pattern_classes_can_pair(&free, colors, color_count, &none, &none)
}

/// The places of colour `color`.
spec fn color_set(colors: Seq<usize>, color: int) -> Set<int> {
    Set::new(|i: int| 0 <= i < colors.len() && colors[i] == color)
}

/// A pairing that keeps colours makes every colour occur an even number of times.
proof fn lemma_colors_even(colors: Seq<usize>, map: Seq<usize>)
    requires
        is_pairing(map, colors.len()),
        colors_kept(colors, map),
    ensures
        forall|color: int| (#[trigger] color_set(colors, color)).len() % 2 == 0,
        colors.len() % 2 == 0,
{
    let h = |i: int| map[i] as int;
    assert forall|color: int| (#[trigger] color_set(colors, color)).len() % 2 == 0 by {
        let s = color_set(colors, color);
        lemma_range_finite(colors.len() as int, s);
        assert forall|i: int| #[trigger] s.contains(i) implies s.contains(h(i)) && h(i) != i && h(
            h(i),
        ) == i by {
            assert(map[i] < colors.len());
            assert(colors[map[i] as int] == colors[i]);
        }
        lemma_paired_even(s, h);
    }
    let all = Set::new(|i: int| 0 <= i < colors.len());
    lemma_range_finite(colors.len() as int, all);
    lemma_range_len(colors.len() as int);
    assert forall|i: int| #[trigger] all.contains(i) implies all.contains(h(i)) && h(i) != i && h(
        h(i),
    ) == i by {
        assert(map[i] < colors.len());
    }
    lemma_paired_even(all, h);
}

proof fn lemma_range_len(n: int)
    requires
        0 <= n,
    ensures
        Set::new(|i: int| 0 <= i < n).len() == n,
        Set::new(|i: int| 0 <= i < n).finite(),
    decreases n,
{
    if n == 0 {
        assert(Set::new(|i: int| 0 <= i < n) =~= Set::empty());
    } else {
        lemma_range_len(n - 1);
        assert(Set::new(|i: int| 0 <= i < n) =~= Set::new(|i: int| 0 <= i < n - 1).insert(n - 1));
    }
}

/// Symmetries keep refined colours.
proof fn lemma_refined_sound(grid: Grid)
    requires
        grid.wf(),
        grid.rows + grid.cols <= usize::MAX,
    ensures
        colors_sound(grid, refined_colors(grid).rows, refined_colors(grid).cols),
{
    assert forall|rows: Seq<usize>, cols: Seq<usize>| #[trigger]
        is_symmetry(grid, rows, cols) implies colors_kept(refined_colors(grid).rows, rows)
        && colors_kept(refined_colors(grid).cols, cols) by {
        let f = |r: int| rows[r] as int;
        let g = |c: int| cols[c] as int;
        assert(is_automorphism(grid, f, g)) by {
            assert forall|r: int| 0 <= r < grid.rows implies 0 <= #[trigger] f(r) < grid.rows && f(
                f(r),
            ) == r by {
                assert(rows[r] < grid.rows);
            }
            assert forall|c: int| 0 <= c < grid.cols implies 0 <= #[trigger] g(c) < grid.cols && g(
                g(c),
            ) == c by {
                assert(cols[c] < grid.cols);
            }
        }
        lemma_colors_invariant(grid, f, g);
        assert forall|r: int| 0 <= r < rows.len() implies
            #[trigger] refined_colors(grid).rows[rows[r] as int] == refined_colors(grid).rows[r] by {
            assert(refined_colors(grid).rows[f(r)] == refined_colors(grid).rows[r]);
        }
        assert forall|c: int| 0 <= c < cols.len() implies
            #[trigger] refined_colors(grid).cols[cols[c] as int] == refined_colors(grid).cols[c] by {
            assert(refined_colors(grid).cols[g(c)] == refined_colors(grid).cols[c]);
        }
    }
}

/// A symmetric matrix has an even number of set cells.
proof fn lemma_cells_even(grid: Grid, rows: Seq<usize>, cols: Seq<usize>)
    requires
        grid.wf(),
        is_symmetry(grid, rows, cols),
    ensures
        grid.cells.len() % 2 == 0,
{
    let h = |p: (int, int)| (rows[p.0] as int, cols[p.1] as int);
    assert forall|p: (int, int)| #[trigger] grid.cells.contains(p) implies grid.cells.contains(h(p))
        && h(p) != p && h(h(p)) == p by {
        assert(grid.has(p.0, p.1) <==> grid.has(rows[p.0] as int, cols[p.1] as int));
        assert(rows[p.0] < grid.rows && cols[p.1] < grid.cols);
    }
    lemma_paired_even(grid.cells, h);
}

impl InvolutionSymmetryFinder {
    /// Finds a symmetry that exchanges all lines in pairs, if there is one.
    pub fn find(&self, matrix: &BitMatrix) -> (found: Option<Symmetry>)
        requires
            matrix.wf(),
        ensures
            match found {
                Some(symmetry) => {
                    &&& matrix@.cells.len() > 0
                    &&& is_symmetry(matrix@, symmetry.rows(), symmetry.cols())
                },
                None => matrix@.cells.len() == 0 || !has_symmetry(matrix@),
            },
    {
        let ghost grid = matrix@;
        let nodes: usize = matrix.count_ones();
        proof {
            lemma_refined_sound(grid);
            lemma_refined_bounded(grid);
            lemma_refined_lengths(grid);
            if has_symmetry(grid) {
                let (rows, cols) = choose|rows: Seq<usize>, cols: Seq<usize>|
                    is_symmetry(grid, rows, cols);
                lemma_cells_even(grid, rows, cols);
                lemma_colors_even(refined_colors(grid).rows, rows);
                lemma_colors_even(refined_colors(grid).cols, cols);
            }
        }
        if nodes == 0 || nodes % 2 != 0 || matrix.rows() % 2 != 0 || matrix.cols() % 2 != 0 {
            return None;
        }
        let (row_colors, col_colors) = refine_colors(matrix);
        let color_count: usize = matrix.rows() + matrix.cols();
        if !color_classes_are_even(&row_colors, color_count) || !color_classes_are_even(
            &col_colors,
            color_count,
        ) {
            return None;
        }
        let mut search = SymmetrySearch {
            matrix: matrix.clone(),
            transposed: matrix.transposed(),
            row_colors,
            col_colors,
            color_count,
            row_map: vec![None; matrix.rows()],
            col_map: vec![None; matrix.cols()],
        };
        proof {
            if has_symmetry(grid) {
                let (rows, cols) = choose|rows: Seq<usize>, cols: Seq<usize>|
                    is_symmetry(grid, rows, cols);
                assert(agrees(search.row_map@, rows) && agrees(search.col_map@, cols));
                assert(extendable(grid, search.row_map@, search.col_map@));
            }
        }
        if search.search() {
            let row_map: Vec<usize> = complete(&search.row_map, Ghost(grid.rows));
            let col_map: Vec<usize> = complete(&search.col_map, Ghost(grid.cols));
            proof {
                assert forall|r: int, c: int| 0 <= r < grid.rows && 0 <= c < grid.cols implies (
                #[trigger] grid.has(r, c) <==> grid.has(row_map@[r] as int, col_map@[c] as int)) by {
                    assert(search.row_map@[r] is Some && search.col_map@[c] is Some);
                    assert(row_map@[r] == search.row_map@[r]->0);
                    assert(col_map@[c] == search.col_map@[c]->0);
                }
            }
            Some(Symmetry { row_map, col_map })
        } else {
            None
        }
    }
}

impl SymmetryFinder for InvolutionSymmetryFinder {
    fn proves_zero(&self, component: &BitMatrix) -> (proven: bool)
        ensures
            proven == (component@.cells.len() > 0 && has_symmetry(component@)),
    {
        match self.find(component) {
            Some(symmetry) => {
                proof {
                    lemma_symmetric_is_zero(component@, symmetry.rows(), symmetry.cols());
                }
                true
            },
            None => false,
        }
    }
}

} // verus!
