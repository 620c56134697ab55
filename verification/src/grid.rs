//! The mathematical model of a bit matrix.
use crate::bits::{has_bit, lemma_flat_index, lemma_word_exists, word_of, words_for};
use crate::order::{lemma_lex_asymmetric, lemma_lex_total, lemma_lex_transitive};
use crate::order::{lemma_word_values_injective, lex_lt, word_values};
use crate::sorting::listed;
use vstd::prelude::*;

verus! {

/// A rectangle of cells, some of which are set.
#[verifier::ext_equal]
pub struct Grid {
    pub rows: nat,
    pub cols: nat,
    pub cells: Set<(int, int)>,
}

impl Grid {
    /// Whether all set cells lie in the rectangle.
    pub open spec fn wf(self) -> bool {
        &&& self.cells.finite()
        &&& forall|p: (int, int)| #[trigger]
            self.cells.contains(p) ==> 0 <= p.0 < self.rows && 0 <= p.1 < self.cols
    }

    /// Whether the cell in row `r` and column `c` is set.
    pub open spec fn has(self, r: int, c: int) -> bool {
        self.cells.contains((r, c))
    }

    /// The rectangle of the given size whose set cells are those in it that `f` holds of.
    pub open spec fn from_fn(rows: nat, cols: nat, f: spec_fn(int, int) -> bool) -> Grid {
        Grid {
            rows,
            cols,
            cells: Set::new(|p: (int, int)| 0 <= p.0 < rows && 0 <= p.1 < cols && f(p.0, p.1)),
        }
    }

    /// The rectangle of the given size without set cells.
    pub open spec fn blank(rows: nat, cols: nat) -> Grid {
        Grid { rows, cols, cells: Set::empty() }
    }

    /// Rows and columns exchanged.
    pub open spec fn transposed(self) -> Grid {
        Grid::from_fn(self.cols, self.rows, |r: int, c: int| self.has(c, r))
    }

    /// The rows `rows` and the columns `cols`, in the order in which they are listed.
    pub open spec fn reordered(self, rows: Seq<usize>, cols: Seq<usize>) -> Grid {
        Grid::from_fn(
            rows.len(),
            cols.len(),
            |r: int, c: int| self.has(rows[r] as int, cols[c] as int),
        )
    }

    /// The 64 cells of row `r` that start at column `64 * w`, as a word.
    pub open spec fn word(self, r: int, w: int) -> u64 {
        word_of(|i: int| self.has(r, 64 * w + i))
    }

    /// Row `r` as words, lowest columns first.
    pub open spec fn row_words(self, r: int) -> Seq<u64> {
        Seq::new(words_for(self.cols), |w: int| self.word(r, w))
    }

    /// All rows as words, one row after the other.
    pub open spec fn words(self) -> Seq<u64> {
        let width = words_for(self.cols) as int;
        Seq::new((self.rows * words_for(self.cols)) as nat, |k: int| self.word(k / width, k % width))
    }

    /// The columns of the set cells of row `r`, in ascending order.
    pub open spec fn row_list(self, r: int) -> Seq<usize> {
        listed(self.cols, |c: int| self.has(r, c))
    }
}

/// Whether a machine word can count the cells of a rectangle, and its rows and columns together.
pub open spec fn countable(rows: nat, cols: nat) -> bool {
    &&& rows * cols <= usize::MAX
    &&& rows + cols <= usize::MAX
}

/// Whether `a` goes before `b`: fewer rows, then fewer columns, then lower words.
pub open spec fn grid_lt(a: Grid, b: Grid) -> bool {
    if a.rows != b.rows {
        a.rows < b.rows
    } else if a.cols != b.cols {
        a.cols < b.cols
    } else {
        lex_lt(word_values(a.words()), word_values(b.words()))
    }
}

/// The order in which the two indices `a` and `b` are exchanged.
pub open spec fn exchanged(a: int, b: int, x: int) -> int {
    if x == a {
        b
    } else if x == b {
        a
    } else {
        x
    }
}

proof fn lemma_one_row_finite(s: Set<(int, int)>, r: int, cols: nat)
    requires
        forall|p: (int, int)| #[trigger] s.contains(p) ==> p.0 == r && 0 <= p.1 < cols,
    ensures
        s.finite(),
        s.len() <= cols,
    decreases cols,
{
    if cols == 0 {
        assert(s =~= Set::empty());
    } else {
        let x = (r, cols - 1);
        lemma_one_row_finite(s.remove(x), r, (cols - 1) as nat);
        if s.contains(x) {
            assert(s =~= s.remove(x).insert(x));
        } else {
            assert(s =~= s.remove(x));
        }
    }
}

/// A set of cells of a rectangle is finite, and not larger than the rectangle.
pub proof fn lemma_cells_finite(s: Set<(int, int)>, rows: nat, cols: nat)
    requires
        forall|p: (int, int)| #[trigger]
            s.contains(p) ==> 0 <= p.0 < rows && 0 <= p.1 < cols,
    ensures
        s.finite(),
        s.len() <= rows * cols,
    decreases rows,
{
    if rows == 0 {
        assert(s =~= Set::empty());
    } else {
        let last = s.filter(|p: (int, int)| p.0 == rows - 1);
        let rest = s.filter(|p: (int, int)| p.0 != rows - 1);
        lemma_one_row_finite(last, rows - 1, cols);
        lemma_cells_finite(rest, (rows - 1) as nat, cols);
        assert(s =~= rest.union(last));
        vstd::set_lib::lemma_set_disjoint_lens(rest, last);
        assert((rows - 1) * cols + cols == rows * cols) by (nonlinear_arith);
    }
}

/// A rectangle given by a predicate is well formed.
pub broadcast proof fn lemma_from_fn_wf(rows: nat, cols: nat, f: spec_fn(int, int) -> bool)
    ensures
        (#[trigger] Grid::from_fn(rows, cols, f)).wf(),
{
    lemma_cells_finite(Grid::from_fn(rows, cols, f).cells, rows, cols);
}

/// Well-formed grids of one size with the same words are equal.
proof fn lemma_words_determine(a: Grid, b: Grid)
    requires
        a.wf(),
        b.wf(),
        a.rows == b.rows,
        a.cols == b.cols,
        a.words() == b.words(),
    ensures
        a == b,
{
    let width = words_for(a.cols) as int;
    assert forall|p: (int, int)| a.cells.contains(p) == b.cells.contains(p) by {
        if 0 <= p.0 < a.rows && 0 <= p.1 < a.cols {
            let w = p.1 / 64;
            let i = p.1 % 64;
            lemma_flat_index(p.0, w, a.rows as int, width);
            let k = p.0 * width + w;
            vstd::arithmetic::div_mod::lemma_fundamental_div_mod_converse(k, width, p.0, w);
            assert(a.words()[k] == b.words()[k]);
            let in_a = |j: int| a.has(p.0, 64 * w + j);
            let in_b = |j: int| b.has(p.0, 64 * w + j);
            lemma_word_exists(in_a);
            lemma_word_exists(in_b);
            assert(a.words()[k] == word_of(in_a));
            assert(b.words()[k] == word_of(in_b));
            assert(has_bit(word_of(in_a), i) == in_a(i));
            assert(has_bit(word_of(in_b), i) == in_b(i));
        }
    }
    assert(a =~= b);
}

/// Whether rows `a` and `b` have the same cells set.
pub open spec fn rows_same(grid: Grid, a: int, b: int) -> bool {
    forall|c: int| #[trigger] grid.has(a, c) <==> #[trigger] grid.has(b, c)
}

/// Whether columns `a` and `b` have the same cells set.
pub open spec fn cols_same(grid: Grid, a: int, b: int) -> bool {
    forall|r: int| #[trigger] grid.has(r, a) <==> #[trigger] grid.has(r, b)
}

/// Rows are the same exactly when their words are.
pub proof fn lemma_rows_same(grid: Grid, a: int, b: int)
    requires
        grid.wf(),
    ensures
        rows_same(grid, a, b) <==> grid.row_words(a) == grid.row_words(b),
{
    let n = words_for(grid.cols) as int;
    if rows_same(grid, a, b) {
        assert forall|w: int| 0 <= w < n implies grid.row_words(a)[w] == grid.row_words(b)[w] by {
            let in_a = |j: int| grid.has(a, 64 * w + j);
            let in_b = |j: int| grid.has(b, 64 * w + j);
            assert(in_a =~= in_b);
        }
        assert(grid.row_words(a) =~= grid.row_words(b));
    }
    if grid.row_words(a) == grid.row_words(b) {
        assert forall|c: int| #[trigger] grid.has(a, c) <==> #[trigger] grid.has(b, c) by {
            if grid.has(a, c) || grid.has(b, c) {
                assert(grid.cells.contains((a, c)) || grid.cells.contains((b, c)));
                let w = c / 64;
                let i = c % 64;
                let in_a = |j: int| grid.has(a, 64 * w + j);
                let in_b = |j: int| grid.has(b, 64 * w + j);
                lemma_word_exists(in_a);
                lemma_word_exists(in_b);
                assert(grid.row_words(a)[w] == word_of(in_a));
                assert(grid.row_words(b)[w] == word_of(in_b));
                assert(has_bit(word_of(in_a), i) == in_a(i));
                assert(has_bit(word_of(in_b), i) == in_b(i));
            }
        }
    }
}

/// Matrices are totally ordered.
pub proof fn lemma_grid_order(a: Grid, b: Grid, c: Grid)
    requires
        a.wf(),
        b.wf(),
        c.wf(),
    ensures
        !grid_lt(a, a),
        !(grid_lt(a, b) && grid_lt(b, a)),
        grid_lt(a, b) && grid_lt(b, c) ==> grid_lt(a, c),
        grid_lt(a, b) || grid_lt(b, a) || a == b,
{
    let x = word_values(a.words());
    let y = word_values(b.words());
    let z = word_values(c.words());
    lemma_lex_asymmetric(x, y);
    if lex_lt(x, y) && lex_lt(y, z) {
        lemma_lex_transitive(x, y, z);
    }
    lemma_lex_total(x, y);
    if a.rows == b.rows && a.cols == b.cols && x == y {
        lemma_word_values_injective(a.words(), b.words());
        lemma_words_determine(a, b);
    }
}

} // verus!
