//! What the operations on bit matrices and sets of nimbers keep, change and undo, bit by bit.
use crate::bits::has_bit;
use crate::grid::{countable, lemma_grid_order, Grid};
use crate::matrix::BitMatrix;
use crate::nimbers::NimberSet;
use crate::order::{lex_lt, lex_lt_at, number_values, numbers_precede, word_values, words_precede};
use vstd::prelude::*;

verus! {

/// Whether the bit in row `r` and column `c` is set.
pub open spec fn bit(grid: Grid, r: int, c: int) -> bool {
    grid.cells.contains((r, c))
}

/// Whether row `r` and column `c` are in the matrix.
pub open spec fn within(grid: Grid, r: int, c: int) -> bool {
    0 <= r < grid.rows && 0 <= c < grid.cols
}

/// A new matrix has the size that was asked for and no bit set.
pub proof fn lemma_new_is_blank(
    rows: usize,
    cols: usize,
    matrix: BitMatrix,
    row: usize,
    col: usize,
    read: bool,
    count: usize,
)
    requires
        countable(rows as nat, cols as nat),
        call_ensures(BitMatrix::new, (rows, cols), matrix),
        row < rows,
        col < cols,
        call_ensures(BitMatrix::get, (&matrix, row, col), read),
        call_ensures(BitMatrix::count_ones, (&matrix,), count),
    ensures
        matrix@.rows == rows,
        matrix@.cols == cols,
        !read,
        count == 0,
{
}

/// A bit that is set or cleared reads back so; every other bit stays.
pub proof fn lemma_set_reads_back(
    matrix: &mut BitMatrix,
    row: usize,
    col: usize,
    value: bool,
    read: bool,
    other_row: usize,
    other_col: usize,
    other_before: bool,
    other_after: bool,
)
    requires
        old(matrix).wf(),
        row < old(matrix)@.rows,
        col < old(matrix)@.cols,
        other_row < old(matrix)@.rows,
        other_col < old(matrix)@.cols,
        other_row != row || other_col != col,
        call_ensures(BitMatrix::get, (old(matrix), other_row, other_col), other_before),
        call_ensures(BitMatrix::set, (matrix, row, col, value), ()),
        call_ensures(BitMatrix::get, (final(matrix), row, col), read),
        call_ensures(BitMatrix::get, (final(matrix), other_row, other_col), other_after),
    ensures
        read == value,
        other_after == other_before,
        final(matrix)@.rows == old(matrix)@.rows,
        final(matrix)@.cols == old(matrix)@.cols,
{
}

/// Setting a bit raises the count of bits by one, unless it is set.
pub proof fn lemma_count_follows_set(
    matrix: &mut BitMatrix,
    row: usize,
    col: usize,
    was: bool,
    before: usize,
    after: usize,
)
    requires
        old(matrix).wf(),
        row < old(matrix)@.rows,
        col < old(matrix)@.cols,
        call_ensures(BitMatrix::get, (old(matrix), row, col), was),
        call_ensures(BitMatrix::count_ones, (old(matrix),), before),
        call_ensures(BitMatrix::set, (matrix, row, col, true), ()),
        call_ensures(BitMatrix::count_ones, (final(matrix),), after),
    ensures
        after == if was {
            before as int
        } else {
            before + 1
        },
{
    if was {
        assert(final(matrix)@.cells =~= old(matrix)@.cells);
    }
}

/// The ones of a row are the columns of its bits: in ascending order, and none left out.
pub proof fn lemma_row_ones_are_bits(matrix: BitMatrix, row: usize, ones: Vec<usize>)
    requires
        matrix.wf(),
        row < matrix@.rows,
        call_ensures(BitMatrix::row_ones, (&matrix, row), ones),
    ensures
        forall|i: int, j: int| 0 <= i < j < ones@.len() ==> ones@[i] < ones@[j],
        forall|i: int|
            0 <= i < ones@.len() ==> bit(matrix@, row as int, (#[trigger] ones@[i]) as int),
        forall|c: usize| #[trigger] bit(matrix@, row as int, c as int) ==> ones@.contains(c),
{
    assert forall|c: usize| #[trigger] bit(matrix@, row as int, c as int) implies ones@.contains(
        c,
    ) by {
        assert(matrix@.has(row as int, c as int));
    }
}

/// Clearing bits of a row leaves the other rows and the bits that the mask does not name.
pub proof fn lemma_clearing_goes_by_the_mask(matrix: &mut BitMatrix, row: usize, mask: &[u64])
    requires
        old(matrix).wf(),
        row < old(matrix)@.rows,
        mask@.len() == crate::bits::words_for(old(matrix)@.cols),
        call_ensures(BitMatrix::clear_row_bits, (matrix, row, mask), ()),
    ensures
        final(matrix)@.rows == old(matrix)@.rows,
        final(matrix)@.cols == old(matrix)@.cols,
        forall|r: int, c: int|
            r != row ==> (#[trigger] bit(final(matrix)@, r, c) <==> bit(old(matrix)@, r, c)),
        forall|c: int|
            0 <= c < old(matrix)@.cols && has_bit(mask@[c / 64], c % 64) ==> !#[trigger] bit(
                final(matrix)@,
                row as int,
                c,
            ),
        forall|c: int|
            0 <= c < old(matrix)@.cols && !has_bit(mask@[c / 64], c % 64) ==> (#[trigger] bit(
                final(matrix)@,
                row as int,
                c,
            ) <==> bit(old(matrix)@, row as int, c)),
{
}

/// Two rows that are exchanged have each other's bits, and the other rows keep theirs. Exchanging them
/// again gives back the matrix.
pub proof fn lemma_swap_rows_twice(
    matrix: &mut BitMatrix,
    again: &mut BitMatrix,
    first: usize,
    second: usize,
)
    requires
        old(matrix).wf(),
        first < old(matrix)@.rows,
        second < old(matrix)@.rows,
        call_ensures(BitMatrix::swap_rows, (matrix, first, second), ()),
        *old(again) == *final(matrix),
        call_ensures(BitMatrix::swap_rows, (again, first, second), ()),
    ensures
        forall|c: int| #[trigger]
            bit(final(matrix)@, first as int, c) <==> bit(old(matrix)@, second as int, c),
        forall|c: int| #[trigger]
            bit(final(matrix)@, second as int, c) <==> bit(old(matrix)@, first as int, c),
        forall|r: int, c: int|
            r != first && r != second ==> (#[trigger] bit(final(matrix)@, r, c) <==> bit(
                old(matrix)@,
                r,
                c,
            )),
        final(matrix)@.rows == old(matrix)@.rows,
        final(matrix)@.cols == old(matrix)@.cols,
        final(again)@ == old(matrix)@,
{
    assert(final(again)@.cells =~= old(matrix)@.cells);
}

/// Two columns that are exchanged have each other's bits, and the other columns keep theirs. Exchanging
/// them again gives back the matrix.
pub proof fn lemma_swap_cols_twice(
    matrix: &mut BitMatrix,
    again: &mut BitMatrix,
    first: usize,
    second: usize,
)
    requires
        old(matrix).wf(),
        first < old(matrix)@.cols,
        second < old(matrix)@.cols,
        call_ensures(BitMatrix::swap_cols, (matrix, first, second), ()),
        *old(again) == *final(matrix),
        call_ensures(BitMatrix::swap_cols, (again, first, second), ()),
    ensures
        forall|r: int| #[trigger]
            bit(final(matrix)@, r, first as int) <==> bit(old(matrix)@, r, second as int),
        forall|r: int| #[trigger]
            bit(final(matrix)@, r, second as int) <==> bit(old(matrix)@, r, first as int),
        forall|r: int, c: int|
            c != first && c != second ==> (#[trigger] bit(final(matrix)@, r, c) <==> bit(
                old(matrix)@,
                r,
                c,
            )),
        final(matrix)@.rows == old(matrix)@.rows,
        final(matrix)@.cols == old(matrix)@.cols,
        final(again)@ == old(matrix)@,
{
    assert(final(again)@.cells =~= old(matrix)@.cells);
}

/// The transposed matrix has every bit with row and column exchanged, and as many; transposed again it
/// is the matrix.
pub proof fn lemma_transposed_twice(
    matrix: BitMatrix,
    transposed: BitMatrix,
    again: BitMatrix,
    row: usize,
    col: usize,
    read: bool,
    transposed_read: bool,
)
    requires
        matrix.wf(),
        call_ensures(BitMatrix::transposed, (&matrix,), transposed),
        call_ensures(BitMatrix::transposed, (&transposed,), again),
        row < matrix@.rows,
        col < matrix@.cols,
        call_ensures(BitMatrix::get, (&matrix, row, col), read),
        call_ensures(BitMatrix::get, (&transposed, col, row), transposed_read),
    ensures
        transposed@.rows == matrix@.cols,
        transposed@.cols == matrix@.rows,
        transposed_read == read,
        again@ == matrix@,
{
    assert(again@.cells =~= matrix@.cells);
}

/// In a reordered matrix, row `r` and column `c` are those that the lists name in place `r` and `c`.
pub proof fn lemma_reordered_reads_the_lists(
    matrix: BitMatrix,
    rows: &[usize],
    cols: &[usize],
    reordered: BitMatrix,
    row: usize,
    col: usize,
    read: bool,
    reordered_read: bool,
)
    requires
        matrix.wf(),
        forall|i: int| 0 <= i < rows@.len() ==> #[trigger] rows@[i] < matrix@.rows,
        forall|i: int| 0 <= i < cols@.len() ==> #[trigger] cols@[i] < matrix@.cols,
        countable(rows@.len(), cols@.len()),
        call_ensures(BitMatrix::reordered, (&matrix, rows, cols), reordered),
        row < rows@.len(),
        col < cols@.len(),
        call_ensures(BitMatrix::get, (&matrix, rows@[row as int], cols@[col as int]), read),
        call_ensures(BitMatrix::get, (&reordered, row, col), reordered_read),
    ensures
        reordered@.rows == rows@.len(),
        reordered@.cols == cols@.len(),
        reordered_read == read,
{
}

/// Matrices are the same if and only if they have the same size and every bit in common.
pub proof fn lemma_same_means_every_bit(a: BitMatrix, b: BitMatrix, same: bool)
    requires
        a.wf(),
        b.wf(),
        call_ensures(BitMatrix::same, (&a, &b), same),
    ensures
        same <==> a@.rows == b@.rows && a@.cols == b@.cols && forall|r: int, c: int| #[trigger]
            bit(a@, r, c) <==> bit(b@, r, c),
{
    if forall|r: int, c: int| #[trigger] bit(a@, r, c) <==> bit(b@, r, c) {
        assert forall|p: (int, int)| a@.cells.contains(p) <==> b@.cells.contains(p) by {
            assert(bit(a@, p.0, p.1) <==> bit(b@, p.0, p.1));
        }
        assert(a@.cells =~= b@.cells);
    }
}

/// Of two different matrices exactly one goes before the other, and none goes before itself. The order
/// is transitive. Fewer rows go first, then fewer columns.
pub proof fn lemma_matrices_are_ordered(
    a: BitMatrix,
    b: BitMatrix,
    c: BitMatrix,
    same: bool,
    a_b: bool,
    b_a: bool,
    b_c: bool,
    a_c: bool,
)
    requires
        a.wf(),
        b.wf(),
        c.wf(),
        call_ensures(BitMatrix::same, (&a, &b), same),
        call_ensures(BitMatrix::precedes, (&a, &b), a_b),
        call_ensures(BitMatrix::precedes, (&b, &a), b_a),
        call_ensures(BitMatrix::precedes, (&b, &c), b_c),
        call_ensures(BitMatrix::precedes, (&a, &c), a_c),
    ensures
        same ==> !a_b && !b_a,
        !same ==> a_b != b_a,
        a_b && b_c ==> a_c,
        a@.rows < b@.rows ==> a_b,
        a@.rows == b@.rows && a@.cols < b@.cols ==> a_b,
{
    lemma_grid_order(a@, b@, c@);
    lemma_grid_order(b@, a@, c@);
}

/// A nimber that was put into a set is in it, and so is every other that was in it before, and no more.
pub proof fn lemma_inserted_is_contained(
    set: &mut NimberSet,
    nimber: usize,
    other: usize,
    before: bool,
    after: bool,
)
    requires
        old(set).wf(),
        call_ensures(NimberSet::contains, (old(set), other), before),
        call_ensures(NimberSet::insert, (set, nimber), ()),
        call_ensures(NimberSet::contains, (final(set), other), after),
    ensures
        after <==> before || other == nimber,
{
}

/// Of the union of two sets a nimber is a member if and only if it is one of either.
pub proof fn lemma_union_contains_both(
    set: &mut NimberSet,
    other: NimberSet,
    nimber: usize,
    before: bool,
    in_other: bool,
    after: bool,
)
    requires
        old(set).wf(),
        other.wf(),
        call_ensures(NimberSet::contains, (old(set), nimber), before),
        call_ensures(NimberSet::contains, (&other, nimber), in_other),
        call_ensures(NimberSet::union_with, (set, &other), ()),
        call_ensures(NimberSet::contains, (final(set), nimber), after),
    ensures
        after <==> before || in_other,
{
}

/// The least missing nimber is missing, and no smaller one is.
pub proof fn lemma_mex_is_least_missing(
    set: NimberSet,
    least: usize,
    smaller: usize,
    least_is_in: bool,
    smaller_is_in: bool,
)
    requires
        set.wf(),
        call_ensures(NimberSet::mex, (&set,), least),
        least < usize::MAX,
        smaller < least,
        call_ensures(NimberSet::contains, (&set, least), least_is_in),
        call_ensures(NimberSet::contains, (&set, smaller), smaller_is_in),
    ensures
        !least_is_in,
        smaller_is_in,
{
    assert(set@.contains(smaller as int));
}

/// A new set, whatever its size, has no member: its least missing nimber is zero.
pub proof fn lemma_new_set_is_empty(
    bit_count: usize,
    set: NimberSet,
    nimber: usize,
    contained: bool,
    least: usize,
)
    requires
        call_ensures(NimberSet::new, (bit_count,), set),
        call_ensures(NimberSet::contains, (&set, nimber), contained),
        call_ensures(NimberSet::mex, (&set,), least),
    ensures
        !contained,
        least == 0,
{
    if least > 0 {
        assert(set@.contains(0));
    }
}

/// The words of a row are its bits, sixty-four to a word, and nothing beyond the last column.
pub proof fn lemma_row_words_are_bits(matrix: BitMatrix, row: usize, words: &[u64], c: int)
    requires
        matrix.wf(),
        row < matrix@.rows,
        call_ensures(BitMatrix::row_words, (&matrix, row), words),
        0 <= c < 64 * words@.len(),
    ensures
        words@.len() == (matrix@.cols + 63) / 64,
        has_bit(words@[c / 64], c % 64) <==> bit(matrix@, row as int, c),
        c >= matrix@.cols ==> !has_bit(words@[c / 64], c % 64),
{
    let w = c / 64;
    let bits = |i: int| matrix@.has(row as int, 64 * w + i);
    crate::bits::lemma_word_exists(bits);
    assert(words@[w] == crate::bits::word_of(bits));
    assert(has_bit(crate::bits::word_of(bits), c % 64) == bits(c % 64));
    assert(64 * w + c % 64 == c);
}

/// Of two rows of words, and of two rows of numbers, the first difference decides which goes first; a row
/// that another one goes on from goes first.
pub proof fn lemma_first_difference_decides(
    a: &[u64],
    b: &[u64],
    first: bool,
    n: &[usize],
    m: &[usize],
    numbers_first: bool,
    k: int,
)
    requires
        call_ensures(words_precede, (a, b), first),
        call_ensures(numbers_precede, (n, m), numbers_first),
        0 <= k,
    ensures
        k < a@.len() && k < b@.len() && a@.take(k) == b@.take(k) && a@[k] < b@[k] ==> first,
        k < a@.len() && k < b@.len() && a@.take(k) == b@.take(k) && a@[k] > b@[k] ==> !first,
        a@.len() < b@.len() && a@ == b@.take(a@.len() as int) ==> first,
        b@.len() <= a@.len() && b@ == a@.take(b@.len() as int) ==> !first,
        k < n@.len() && k < m@.len() && n@.take(k) == m@.take(k) && n@[k] < m@[k] ==> numbers_first,
        k < n@.len() && k < m@.len() && n@.take(k) == m@.take(k) && n@[k] > m@[k]
            ==> !numbers_first,
        n@.len() < m@.len() && n@ == m@.take(n@.len() as int) ==> numbers_first,
        m@.len() <= n@.len() && m@ == n@.take(m@.len() as int) ==> !numbers_first,
{
    lemma_difference(word_values(a@), word_values(b@), k);
    lemma_difference(number_values(n@), number_values(m@), k);
    if k < a@.len() && k < b@.len() && a@.take(k) == b@.take(k) {
        assert forall|i: int| 0 <= i < k implies a@[i] == b@[i] by {
            assert(a@.take(k)[i] == b@.take(k)[i]);
        }
        assert(word_values(a@).take(k) =~= word_values(b@).take(k));
    }
    if k < n@.len() && k < m@.len() && n@.take(k) == m@.take(k) {
        assert forall|i: int| 0 <= i < k implies n@[i] == m@[i] by {
            assert(n@.take(k)[i] == m@.take(k)[i]);
        }
        assert(number_values(n@).take(k) =~= number_values(m@).take(k));
    }
    if a@.len() < b@.len() && a@ == b@.take(a@.len() as int) {
        assert(word_values(a@) =~= word_values(b@).take(a@.len() as int));
    }
    if b@.len() <= a@.len() && b@ == a@.take(b@.len() as int) {
        assert(word_values(b@) =~= word_values(a@).take(b@.len() as int));
    }
    if n@.len() < m@.len() && n@ == m@.take(n@.len() as int) {
        assert(number_values(n@) =~= number_values(m@).take(n@.len() as int));
    }
    if m@.len() <= n@.len() && m@ == n@.take(m@.len() as int) {
        assert(number_values(m@) =~= number_values(n@).take(m@.len() as int));
    }
}

proof fn lemma_difference(x: Seq<int>, y: Seq<int>, k: int)
    requires
        0 <= k,
    ensures
        k < x.len() && k < y.len() && x.take(k) == y.take(k) && x[k] < y[k] ==> lex_lt(x, y),
        k < x.len() && k < y.len() && x.take(k) == y.take(k) && x[k] > y[k] ==> !lex_lt(x, y),
        x.len() < y.len() && x == y.take(x.len() as int) ==> lex_lt(x, y),
        y.len() <= x.len() && y == x.take(y.len() as int) ==> !lex_lt(x, y),
{
    if k < x.len() && k < y.len() && x.take(k) == y.take(k) {
        assert forall|i: int| 0 <= i < k implies x[i] == #[trigger] y[i] by {
            assert(x.take(k)[i] == y.take(k)[i]);
        }
        if x[k] < y[k] {
            assert(lex_lt_at(x, y, k));
        }
        if x[k] > y[k] && lex_lt(x, y) {
            let j = choose|j: int| lex_lt_at(x, y, j);
            if j > k {
                assert(x[k] == y[k]);
            } else if j < k {
                assert(x[j] == y[j]);
            }
        }
    }
    if x.len() < y.len() && x == y.take(x.len() as int) {
        assert forall|i: int| 0 <= i < x.len() implies x[i] == #[trigger] y[i] by {
            assert(x[i] == y.take(x.len() as int)[i]);
        }
        assert(lex_lt_at(x, y, x.len() as int));
    }
    if y.len() <= x.len() && y == x.take(y.len() as int) && lex_lt(x, y) {
        let j = choose|j: int| lex_lt_at(x, y, j);
        assert(y[j] == x.take(y.len() as int)[j]);
    }
}

/// Of two matrices of one size that agree in the rows before a row, the one whose row has the lower
/// first word that differs goes first.
pub proof fn lemma_first_row_decides(
    a: BitMatrix,
    b: BitMatrix,
    precedes: bool,
    row: usize,
    words: &[u64],
    other_words: &[u64],
    w: int,
)
    requires
        a.wf(),
        b.wf(),
        a@.rows == b@.rows,
        a@.cols == b@.cols,
        row < a@.rows,
        forall|r: int, c: int| 0 <= r < row ==> (#[trigger] bit(a@, r, c) <==> bit(b@, r, c)),
        call_ensures(BitMatrix::precedes, (&a, &b), precedes),
        call_ensures(BitMatrix::row_words, (&a, row), words),
        call_ensures(BitMatrix::row_words, (&b, row), other_words),
        0 <= w < words@.len(),
        words@.take(w) == other_words@.take(w),
        words@[w] != other_words@[w],
    ensures
        precedes <==> words@[w] < other_words@[w],
{
    let width = crate::bits::words_for(a@.cols) as int;
    let k = row * width + w;
    crate::bits::lemma_flat_index(row as int, w, a@.rows as int, width);
    let x = word_values(a@.words());
    let y = word_values(b@.words());
    assert(x.len() == a@.rows * width);
    assert(y.len() == b@.rows * width);
    assert forall|i: int| 0 <= i < k implies x[i] == y[i] by {
        let r = i / width;
        let v = i % width;
        vstd::arithmetic::div_mod::lemma_fundamental_div_mod(i, width);
        assert(0 <= v < width);
        assert(r <= row && (r == row ==> v < w) && 0 <= r) by (nonlinear_arith)
            requires
                i == width * r + v,
                0 <= v < width,
                0 <= i < row * width + w,
                0 <= w < width,
        ;
        let in_a = |j: int| a@.has(r, 64 * v + j);
        let in_b = |j: int| b@.has(r, 64 * v + j);
        assert(a@.words()[i] == crate::bits::word_of(in_a));
        assert(b@.words()[i] == crate::bits::word_of(in_b));
        if r < row {
            assert forall|j: int| #[trigger] in_a(j) == in_b(j) by {
                assert(bit(a@, r, 64 * v + j) <==> bit(b@, r, 64 * v + j));
            }
            assert(in_a =~= in_b);
            assert(crate::bits::word_of(in_a) == crate::bits::word_of(in_b));
        } else {
            assert(v < w);
            assert(words@.take(w)[v] == words@[v]);
            assert(other_words@.take(w)[v] == other_words@[v]);
            assert(words@.take(w)[v] == other_words@.take(w)[v]);
            assert(words@[v] == crate::bits::word_of(in_a));
            assert(other_words@[v] == crate::bits::word_of(in_b));
        }
        assert(a@.words()[i] == b@.words()[i]);
        assert(x[i] == a@.words()[i] as int);
        assert(y[i] == b@.words()[i] as int);
    }
    assert(x[k] == words@[w] as int);
    assert(y[k] == other_words@[w] as int);
    assert(x.take(k) =~= y.take(k));
    lemma_difference(x, y, k);
}

} // verus!
