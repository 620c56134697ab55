//! A compact matrix of bits.
use crate::bits::{has_bit, lemma_and_bits, lemma_flat_index, lemma_low_mask, lemma_lowest_bit};
use crate::bits::{lemma_not_bits, lemma_or_bits, lemma_single_bit, lemma_test_bit};
use crate::bits::{lemma_word_of, lemma_zero_bits, word_count, word_shows, words_for};
use crate::grid::{countable, exchanged, grid_lt, lemma_cells_finite, lemma_from_fn_wf, Grid};
use crate::order::{words_equal, words_precede};
use crate::sorting::{lemma_lists_is_listed, lists};
use vstd::prelude::*;

verus! {

broadcast use lemma_from_fn_wf;

/// A compact, row-major matrix of bits.
#[derive(Debug, PartialEq, Eq, PartialOrd, Ord, Hash)]
pub struct BitMatrix {
    rows: usize,
    cols: usize,
    words_per_row: usize,
    data: Vec<u64>,
}

/// The word `w` of row `r` in `data`, with `width` words to a row.
spec fn stored_word(data: Seq<u64>, width: int, r: int, w: int) -> u64 {
    data[r * width + w]
}

/// The bit that `data` holds for row `r` and column `c`, with `width` words to a row.
spec fn stored_bit(data: Seq<u64>, width: int, r: int, c: int) -> bool {
    has_bit(stored_word(data, width, r, c / 64), c % 64)
}

impl View for BitMatrix {
    type V = Grid;

    closed spec fn view(&self) -> Grid {
        let width = self.words_per_row as int;
        Grid::from_fn(
            self.rows as nat,
            self.cols as nat,
            |r: int, c: int| stored_bit(self.data@, width, r, c),
        )
    }
}

impl BitMatrix {
    /// Whether the stored words have the right number, and no bit is set past the last column.
    pub closed spec fn stored(&self) -> bool {
        &&& self.words_per_row == words_for(self.cols as nat)
        &&& self.data@.len() == self.rows * self.words_per_row
        &&& forall|r: int, w: int, i: int|
            0 <= r < self.rows && 0 <= w < self.words_per_row && 64 * w + i >= self.cols
                ==> !(#[trigger] has_bit(stored_word(self.data@, self.words_per_row as int, r, w), i))
    }

    /// What holds of every matrix: its cells can be counted by a machine word.
    pub open spec fn wf(&self) -> bool {
        &&& self@.wf()
        &&& countable(self@.rows, self@.cols)
        &&& self.stored()
    }

    proof fn lemma_bit(&self, r: int, w: int, i: int)
        requires
            self.stored(),
            0 <= r < self.rows,
            0 <= w < self.words_per_row,
            0 <= i < 64,
        ensures
            0 <= r * self.words_per_row <= r * self.words_per_row + w < self.data@.len() <= usize::MAX,
            stored_word(self.data@, self.words_per_row as int, r, w) == self.data@[r
                * self.words_per_row + w],
            has_bit(stored_word(self.data@, self.words_per_row as int, r, w), i) == self@.has(
                r,
                64 * w + i,
            ),
    {
        lemma_flat_index(r, w, self.rows as int, self.words_per_row as int);
        assert(0 <= r * self.words_per_row) by (nonlinear_arith)
            requires
                0 <= r,
        ;
        assert(self.data@.len() == self.data.len());
        assert((64 * w + i) / 64 == w && (64 * w + i) % 64 == i);
    }

    proof fn lemma_words(&self)
        requires
            self.stored(),
        ensures
            self.data@ == self@.words(),
    {
        let width = self.words_per_row as int;
        assert(self.data@.len() == self@.words().len());
        assert forall|k: int| 0 <= k < self.data@.len() implies #[trigger] self.data@[k]
            == self@.words()[k] by {
            assert(width > 0 && 0 <= k / width < self.rows && 0 <= k % width < width && k == (k
                / width) * width + k % width) by {
                if width == 0 {
                    assert(self.rows * 0 == 0);
                }
                vstd::arithmetic::div_mod::lemma_fundamental_div_mod(k, width);
                vstd::arithmetic::mul::lemma_mul_is_commutative(width, k / width);
                vstd::arithmetic::div_mod::lemma_div_pos_is_pos(k, width);
                if k / width >= self.rows {
                    vstd::arithmetic::mul::lemma_mul_inequality(self.rows as int, k / width, width);
                }
            }
            let bits = |i: int| self@.has(k / width, 64 * (k % width) + i);
            assert forall|i: int| 0 <= i < 64 implies #[trigger] has_bit(self.data@[k], i) == bits(
                i,
            ) by {
                self.lemma_bit(k / width, k % width, i);
            }
            assert(word_shows(self.data@[k], bits));
            lemma_word_of(self.data@[k], bits);
        }
        assert(self.data@ =~= self@.words());
    }

    /// A matrix of the given size without set bits.
    pub fn new(rows: usize, cols: usize) -> (matrix: Self)
        requires
            countable(rows as nat, cols as nat),
        ensures
            matrix.wf(),
            matrix@ == Grid::blank(rows as nat, cols as nat),
    {
        let words_per_row: usize = word_count(cols);
        assert(rows * words_per_row <= rows * cols) by (nonlinear_arith)
            requires
                words_per_row <= cols,
        ;
        let matrix = BitMatrix { rows, cols, words_per_row, data: vec![0; rows * words_per_row] };
        proof {
            lemma_zero_bits();
            assert forall|r: int, w: int, i: int|
                0 <= r < rows && 0 <= w < words_per_row && 64 * w + i >= cols implies !(#[trigger] has_bit(
                stored_word(matrix.data@, words_per_row as int, r, w),
                i,
            )) by {
                lemma_flat_index(r, w, rows as int, words_per_row as int);
            }
            assert forall|p: (int, int)| !(#[trigger] matrix@.cells.contains(p)) by {
                if 0 <= p.0 < rows && 0 <= p.1 < cols {
                    lemma_flat_index(p.0, p.1 / 64, rows as int, words_per_row as int);
                }
            }
            assert(matrix@.cells =~= Set::empty());
        }
        matrix
    }

    /// The number of rows.
    pub fn rows(&self) -> (rows: usize)
        ensures
            rows == self@.rows,
    {
        self.rows
    }

    /// The number of columns.
    pub fn cols(&self) -> (cols: usize)
        ensures
            cols == self@.cols,
    {
        self.cols
    }

    /// Whether the bit in row `row` and column `col` is set.
    pub fn get(&self, row: usize, col: usize) -> (set: bool)
        requires
            self.wf(),
            row < self@.rows,
            col < self@.cols,
        ensures
            set == self@.has(row as int, col as int),
    {
        proof {
            self.lemma_bit(row as int, col as int / 64, col as int % 64);
            lemma_test_bit(self.data@[row * self.words_per_row + col / 64], (col % 64) as u64);
        }
        let word: u64 = self.data[row * self.words_per_row + col / 64];
        word & (1u64 << (col % 64) as u64) != 0
    }

    /// Sets or clears the bit in row `row` and column `col`.
    pub fn set(&mut self, row: usize, col: usize, value: bool)
        requires
            old(self).wf(),
            row < old(self)@.rows,
            col < old(self)@.cols,
        ensures
            final(self).wf(),
            final(self)@.rows == old(self)@.rows,
            final(self)@.cols == old(self)@.cols,
            final(self)@.cells == (if value {
                old(self)@.cells.insert((row as int, col as int))
            } else {
                old(self)@.cells.remove((row as int, col as int))
            }),
    {
        let width: usize = self.words_per_row;
        proof {
            self.lemma_bit(row as int, col as int / 64, col as int % 64);
        }
        let index: usize = row * width + col / 64;
        let mask: u64 = 1u64 << (col % 64) as u64;
        let word: u64 = self.data[index];
        let changed: u64 = if value {
            word | mask
        } else {
            word & !mask
        };
        self.data.set(index, changed);
        proof {
            lemma_single_bit((col % 64) as u64);
            lemma_or_bits(word, mask);
            lemma_and_bits(word, !mask);
            lemma_not_bits(mask);
            assert forall|i: int| 0 <= i < 64 implies has_bit(changed, i) == (if i == col % 64 {
                value
            } else {
                has_bit(word, i)
            }) by {
            }
            assert forall|r: int, w: int|
                0 <= r < self.rows && 0 <= w < width implies #[trigger] stored_word(
                self.data@,
                width as int,
                r,
                w,
            ) == (if r == row && w == col / 64 {
                changed
            } else {
                stored_word(old(self).data@, width as int, r, w)
            }) by {
                lemma_flat_index(r, w, self.rows as int, width as int);
                lemma_flat_index(row as int, col as int / 64, self.rows as int, width as int);
            }
            assert(self.stored());
            assert forall|p: (int, int)|
                #![trigger self@.cells.contains(p)]
                self@.cells.contains(p) == (if p == (row as int, col as int) {
                    value
                } else {
                    old(self)@.cells.contains(p)
                }) by {
                if 0 <= p.0 < self.rows && 0 <= p.1 < self.cols {
                    self.lemma_bit(p.0, p.1 / 64, p.1 % 64);
                    old(self).lemma_bit(p.0, p.1 / 64, p.1 % 64);
                }
            }
            if value {
                assert(self@.cells =~= old(self)@.cells.insert((row as int, col as int)));
            } else {
                assert(self@.cells =~= old(self)@.cells.remove((row as int, col as int)));
            }
        }
    }

    /// The number of set bits.
    pub fn count_ones(&self) -> (count: usize)
        requires
            self.wf(),
        ensures
            count == self@.cells.len(),
    {
        let width: usize = self.words_per_row;
        let mut count: usize = 0;
        let ghost mut seen: Set<(int, int)> = Set::empty();
        let mut row: usize = 0;
        proof {
            lemma_cells_finite(self@.cells, self@.rows, self@.cols);
        }
        while row < self.rows
            invariant
                self.wf(),
                width == self.words_per_row,
                row <= self.rows,
                self@.cells.len() <= usize::MAX,
                count == seen.len(),
                seen.subset_of(self@.cells),
                forall|p: (int, int)| #[trigger] seen.contains(p) <==> self@.cells.contains(p) && p.0 < row,
            decreases self.rows - row,
        {
            let mut w: usize = 0;
            while w < width
                invariant
                    self.wf(),
                    width == self.words_per_row,
                    row < self.rows,
                    w <= width,
                    self@.cells.len() <= usize::MAX,
                    count == seen.len(),
                    seen.subset_of(self@.cells),
                    forall|p: (int, int)| #[trigger]
                        seen.contains(p) <==> self@.cells.contains(p) && (p.0 < row || (p.0 == row
                            && p.1 < 64 * w)),
                decreases width - w,
            {
                proof {
                    self.lemma_bit(row as int, w as int, 0);
                }
                let word: u64 = self.data[row * width + w];
                let mut rest: u64 = word;
                while rest != 0
                    invariant
                        self.wf(),
                        width == self.words_per_row,
                        row < self.rows,
                        w < width,
                        word == stored_word(self.data@, width as int, row as int, w as int),
                        self@.cells.len() <= usize::MAX,
                        count == seen.len(),
                        seen.subset_of(self@.cells),
                        forall|i: int| #[trigger] has_bit(rest, i) ==> has_bit(word, i),
                        forall|p: (int, int)| #[trigger]
                            seen.contains(p) <==> self@.cells.contains(p) && (p.0 < row || (p.0
                                == row && p.1 < 64 * w + 64 && !(p.1 >= 64 * w && has_bit(
                                rest,
                                p.1 - 64 * w,
                            )))),
                    decreases rest,
                {
                    proof {
                        lemma_lowest_bit(rest);
                        let low = vstd::std_specs::bits::u64_trailing_zeros(rest) as int;
                        let p = (row as int, 64 * w + low);
                        self.lemma_bit(row as int, w as int, low);
                        assert(self@.has(p.0, p.1));
                        assert(!seen.contains(p));
                        let grown = seen.insert(p);
                        assert(grown.subset_of(self@.cells));
                        vstd::set_lib::lemma_len_subset(grown, self@.cells);
                        vstd::set_lib::lemma_len_subset(seen, self@.cells);
                        seen = grown;
                    }
                    rest = rest & (rest - 1);
                    count = count + 1;
                }
                proof {
                    lemma_zero_bits();
                }
                w = w + 1;
            }
            proof {
                assert forall|p: (int, int)| #[trigger] seen.contains(p) <==> self@.cells.contains(p)
                    && p.0 < row + 1 by {
                    if self@.cells.contains(p) {
                        assert(p.1 < 64 * width);
                    }
                }
            }
            row = row + 1;
        }
        proof {
            assert(seen =~= self@.cells);
        }
        count
    }

    /// The bytes that the matrix takes up, or the largest machine word if they are more.
    pub fn estimated_bytes(&self) -> (bytes: usize)
        requires
            self.wf(),
        ensures
            bytes == ({
                let total = vstd::layout::size_of::<BitMatrix>() + self@.words().len()
                    * vstd::layout::size_of::<u64>();
                if total <= usize::MAX {
                    total
                } else {
                    usize::MAX as nat
                }
            }),
    {
        proof {
            self.lemma_words();
        }
        match self.data.len().checked_mul(core::mem::size_of::<u64>()) {
            Some(bytes) => core::mem::size_of::<BitMatrix>().saturating_add(bytes),
            None => usize::MAX,
        }
    }

    /// The words of row `row`, lowest columns first.
    pub fn row_words(&self, row: usize) -> (words: &[u64])
        requires
            self.wf(),
            row < self@.rows,
        ensures
            words@ == self@.row_words(row as int),
    {
        let width: usize = self.words_per_row;
        proof {
            self.lemma_row_span(row as int);
            self.lemma_words();
        }
        let start: usize = row * width;
        let words = vstd::slice::slice_subrange(self.data.as_slice(), start, start + width);
        proof {
            assert forall|w: int| 0 <= w < width implies #[trigger] words@[w] == self@.word(
                row as int,
                w,
            ) by {
                lemma_flat_index(row as int, w, self.rows as int, width as int);
                assert(self.data@[row * width + w] == self@.words()[row * width + w]);
            }
            assert(words@ =~= self@.row_words(row as int));
        }
        words
    }

    proof fn lemma_row_span(&self, row: int)
        requires
            self.stored(),
            0 <= row < self.rows,
        ensures
            0 <= row * self.words_per_row <= row * self.words_per_row + self.words_per_row
                <= self.data@.len() <= usize::MAX,
    {
        assert(0 <= row * self.words_per_row && row * self.words_per_row + self.words_per_row
            <= self.rows * self.words_per_row) by (nonlinear_arith)
            requires
                0 <= row < self.rows,
        ;
        assert(self.data@.len() == self.data.len());
    }

    /// All words, one row after the other.
    pub(crate) fn words(&self) -> (words: &[u64])
        requires
            self.wf(),
        ensures
            words@ == self@.words(),
    {
        proof {
            self.lemma_words();
        }
        self.data.as_slice()
    }

    /// The matrix of the given size that the words hold, one row after the other.
    /// Bits past the last column are dropped.
    pub(crate) fn from_words(rows: usize, cols: usize, data: Vec<u64>) -> (matrix: Self)
        requires
            countable(rows as nat, cols as nat),
            data@.len() == rows * words_for(cols as nat),
        ensures
            matrix.wf(),
            matrix@ == Grid::from_fn(
                rows as nat,
                cols as nat,
                |r: int, c: int| has_bit(data@[r * words_for(cols as nat) + c / 64], c % 64),
            ),
    {
        let words_per_row: usize = word_count(cols);
        let mut kept: Vec<u64> = data;
        if cols % 64 != 0 && words_per_row > 0 {
            let used_bits: u64 = (cols % 64) as u64;
            proof {
                lemma_low_mask(used_bits);
            }
            let mask: u64 = (1u64 << used_bits) - 1;
            let mut row: usize = 0;
            while row < rows
                invariant
                    row <= rows,
                    words_per_row == words_for(cols as nat),
                    words_per_row > 0,
                    used_bits == cols % 64,
                    used_bits > 0,
                    forall|j: int| #[trigger] has_bit(mask, j) == (0 <= j < used_bits),
                    kept@.len() == rows * words_per_row,
                    data@.len() == kept@.len(),
                    forall|r: int, w: int, i: int|
                        0 <= r < rows && 0 <= w < words_per_row ==> #[trigger] has_bit(
                            stored_word(kept@, words_per_row as int, r, w),
                            i,
                        ) == (has_bit(stored_word(data@, words_per_row as int, r, w), i) && (r >= row
                            || 64 * w + i < cols)),
                decreases rows - row,
            {
                let ghost before = kept@;
                proof {
                    lemma_flat_index(
                        row as int,
                        words_per_row - 1,
                        rows as int,
                        words_per_row as int,
                    );
                    assert(kept@.len() == kept.len());
                    assert(0 <= row * words_per_row) by (nonlinear_arith);
                }
                let index: usize = row * words_per_row + (words_per_row - 1);
                let word: u64 = kept[index];
                kept.set(index, word & mask);
                proof {
                    lemma_and_bits(word, mask);
                    assert forall|r: int, w: int|
                        0 <= r < rows && 0 <= w < words_per_row implies #[trigger] stored_word(
                        kept@,
                        words_per_row as int,
                        r,
                        w,
                    ) == (if r == row && w == words_per_row - 1 {
                        word & mask
                    } else {
                        stored_word(before, words_per_row as int, r, w)
                    }) by {
                        lemma_flat_index(r, w, rows as int, words_per_row as int);
                    }
                    assert(word == stored_word(
                        before,
                        words_per_row as int,
                        row as int,
                        words_per_row - 1,
                    ));
                    assert(64 * (words_per_row - 1) + used_bits == cols);
                }
                row = row + 1;
            }
        }
        let matrix = BitMatrix { rows, cols, words_per_row, data: kept };
        proof {
            let width = words_per_row as int;
            assert forall|r: int, w: int, i: int|
                0 <= r < rows && 0 <= w < width implies #[trigger] has_bit(
                stored_word(matrix.data@, width, r, w),
                i,
            ) == (has_bit(stored_word(data@, width, r, w), i) && 64 * w + i < cols) by {
            }
            assert(matrix.stored());
            let shown = Grid::from_fn(
                rows as nat,
                cols as nat,
                |r: int, c: int| has_bit(data@[r * words_for(cols as nat) + c / 64], c % 64),
            );
            assert forall|p: (int, int)| #[trigger] matrix@.cells.contains(p) == shown.cells.contains(
                p,
            ) by {
                if 0 <= p.0 < rows && 0 <= p.1 < cols {
                    let w = p.1 / 64;
                    let i = p.1 % 64;
                    assert(has_bit(stored_word(matrix.data@, width, p.0, w), i) == (has_bit(
                        stored_word(data@, width, p.0, w),
                        i,
                    ) && 64 * w + i < cols));
                    assert(stored_word(data@, width, p.0, w) == data@[p.0 * words_for(cols as nat)
                        + p.1 / 64]);
                }
            }
            assert(matrix@ =~= shown);
        }
        matrix
    }

    /// The columns of the set bits of row `row`, in ascending order.
    pub fn row_ones(&self, row: usize) -> (ones: Vec<usize>)
        requires
            self.wf(),
            row < self@.rows,
        ensures
            lists_row(self@, row as int, ones@),
            ones@ == self@.row_list(row as int),
    {
        let width: usize = self.words_per_row;
        let mut ones: Vec<usize> = Vec::new();
        let mut w: usize = 0;
        while w < width
            invariant
                self.wf(),
                width == self.words_per_row,
                row < self.rows,
                w <= width,
                lists_row_up_to(self@, row as int, ones@, 64 * w),
            decreases width - w,
        {
            proof {
                self.lemma_bit(row as int, w as int, 0);
            }
            let word: u64 = self.data[row * width + w];
            let mut rest: u64 = word;
            let ghost mut done: int = 0;
            while rest != 0
                invariant
                    self.wf(),
                    width == self.words_per_row,
                    row < self.rows,
                    w < width,
                    0 <= done <= 64,
                    word == stored_word(self.data@, width as int, row as int, w as int),
                    forall|i: int| #[trigger] has_bit(rest, i) == (has_bit(word, i) && i >= done),
                    lists_row_up_to(self@, row as int, ones@, 64 * w + done),
                decreases rest,
            {
                proof {
                    lemma_lowest_bit(rest);
                    let low = vstd::std_specs::bits::u64_trailing_zeros(rest) as int;
                    self.lemma_bit(row as int, w as int, low);
                    assert(self@.cells.contains((row as int, 64 * w + low)));
                    assert(64 * w + low < self.cols);
                    assert forall|c: int| 64 * w + done <= c < 64 * w + low implies !(
                    #[trigger] self@.has(row as int, c)) by {
                        self.lemma_bit(row as int, w as int, c - 64 * w);
                        assert(!has_bit(rest, c - 64 * w));
                    }
                    assert forall|i: int| #[trigger] has_bit(rest & ((rest - 1) as u64), i) == (has_bit(
                        word,
                        i,
                    ) && i >= low + 1) by {
                        assert(has_bit(rest, i) == (has_bit(word, i) && i >= done));
                        if 0 <= i < low {
                            assert(!has_bit(rest, i));
                        }
                    }
                }
                let bit: u32 = rest.trailing_zeros();
                let col: usize = 64 * w + bit as usize;
                proof {
                    lemma_list_grows(self@, row as int, ones@, 64 * w + done, col as int);
                    done = bit + 1;
                }
                ones.push(col);
                rest = rest & (rest - 1);
            }
            proof {
                assert forall|c: int| 64 * w + done <= c < 64 * w + 64 implies !(#[trigger] self@.has(
                    row as int,
                    c,
                )) by {
                    self.lemma_bit(row as int, w as int, c - 64 * w);
                    lemma_zero_bits();
                    assert(!has_bit(rest, c - 64 * w));
                }
            }
            w = w + 1;
        }
        proof {
            let keep = |c: int| self@.has(row as int, c);
            assert(lists(ones@, self@.cols, keep)) by {
                assert forall|i: int| 0 <= i < ones@.len() implies (#[trigger] ones@[i]) < self@.cols
                    && keep(ones@[i] as int) by {
                    assert(self@.cells.contains((row as int, ones@[i] as int)));
                }
                assert forall|c: int| 0 <= c < self@.cols && keep(c) implies #[trigger] ones@.contains(
                    c as usize,
                ) by {
                    assert(self@.has(row as int, c));
                }
            }
            lemma_lists_is_listed(ones@, self@.cols, keep);
        }
        ones
    }

    /// Clears the bits of row `row` that are set in `mask`.
    pub fn clear_row_bits(&mut self, row: usize, mask: &[u64])
        requires
            old(self).wf(),
            row < old(self)@.rows,
            mask@.len() == words_for(old(self)@.cols),
        ensures
            final(self).wf(),
            final(self)@ == Grid::from_fn(
                old(self)@.rows,
                old(self)@.cols,
                |r: int, c: int| old(self)@.has(r, c) && !(r == row && has_bit(mask@[c / 64], c % 64)),
            ),
    {
        let width: usize = self.words_per_row;
        let ghost rows = self.rows as int;
        proof {
            self.lemma_row_span(row as int);
        }
        let start: usize = row * width;
        let mut w: usize = 0;
        while w < width
            invariant
                old(self).wf(),
                self.rows == rows,
                self.rows == old(self).rows,
                self.cols == old(self).cols,
                self.words_per_row == width,
                old(self).words_per_row == width,
                row < rows,
                w <= width,
                mask@.len() == width,
                start == row * width,
                self.data@.len() == rows * width,
                start + width <= self.data@.len() <= usize::MAX,
                forall|r: int, v: int, i: int|
                    0 <= r < rows && 0 <= v < width ==> #[trigger] has_bit(
                        stored_word(self.data@, width as int, r, v),
                        i,
                    ) == (has_bit(stored_word(old(self).data@, width as int, r, v), i) && !(r == row
                        && v < w && has_bit(mask@[v], i))),
            decreases width - w,
        {
            let ghost before = self.data@;
            let word: u64 = self.data[start + w];
            let cleared: u64 = word & !mask[w];
            self.data.set(start + w, cleared);
            proof {
                lemma_and_bits(word, !mask@[w as int]);
                lemma_not_bits(mask@[w as int]);
                assert forall|r: int, v: int|
                    0 <= r < rows && 0 <= v < width implies #[trigger] stored_word(
                    self.data@,
                    width as int,
                    r,
                    v,
                ) == (if r == row && v == w {
                    cleared
                } else {
                    stored_word(before, width as int, r, v)
                }) by {
                    lemma_flat_index(r, v, rows, width as int);
                    lemma_flat_index(row as int, w as int, rows, width as int);
                }
                assert(word == stored_word(before, width as int, row as int, w as int));
                assert forall|r: int, v: int, i: int|
                    0 <= r < rows && 0 <= v < width implies #[trigger] has_bit(
                    stored_word(self.data@, width as int, r, v),
                    i,
                ) == (has_bit(stored_word(old(self).data@, width as int, r, v), i) && !(r == row && v
                    < w + 1 && has_bit(mask@[v], i))) by {
                    assert(has_bit(stored_word(before, width as int, r, v), i) == (has_bit(
                        stored_word(old(self).data@, width as int, r, v),
                        i,
                    ) && !(r == row && v < w && has_bit(mask@[v], i))));
                }
            }
            w = w + 1;
        }
        proof {
            assert(self.stored());
            let shown = Grid::from_fn(
                old(self)@.rows,
                old(self)@.cols,
                |r: int, c: int| old(self)@.has(r, c) && !(r == row && has_bit(mask@[c / 64], c % 64)),
            );
            assert forall|p: (int, int)| #[trigger] self@.cells.contains(p) == shown.cells.contains(
                p,
            ) by {
                if 0 <= p.0 < self.rows && 0 <= p.1 < self.cols {
                    self.lemma_bit(p.0, p.1 / 64, p.1 % 64);
                    old(self).lemma_bit(p.0, p.1 / 64, p.1 % 64);
                }
            }
            assert(self@ =~= shown);
        }
    }

    /// Exchanges two rows.
    pub fn swap_rows(&mut self, first: usize, second: usize)
        requires
            old(self).wf(),
            first < old(self)@.rows,
            second < old(self)@.rows,
        ensures
            final(self).wf(),
            final(self)@ == Grid::from_fn(
                old(self)@.rows,
                old(self)@.cols,
                |r: int, c: int| old(self)@.has(exchanged(first as int, second as int, r), c),
            ),
    {
        let ghost shown = Grid::from_fn(
            old(self)@.rows,
            old(self)@.cols,
            |r: int, c: int| old(self)@.has(exchanged(first as int, second as int, r), c),
        );
        if first == second {
            proof {
                assert(self@ =~= shown);
            }
            return ;
        }
        let width: usize = self.words_per_row;
        let ghost rows = self.rows as int;
        proof {
            self.lemma_row_span(first as int);
            self.lemma_row_span(second as int);
        }
        let mut w: usize = 0;
        while w < width
            invariant
                old(self).wf(),
                self.rows == rows,
                self.rows == old(self).rows,
                self.cols == old(self).cols,
                self.words_per_row == width,
                old(self).words_per_row == width,
                first < rows,
                second < rows,
                first != second,
                w <= width,
                self.data@.len() == rows * width,
                first * width + width <= self.data@.len() <= usize::MAX,
                second * width + width <= self.data@.len(),
                0 <= first * width,
                0 <= second * width,
                forall|r: int, v: int|
                    0 <= r < rows && 0 <= v < width ==> #[trigger] stored_word(
                        self.data@,
                        width as int,
                        r,
                        v,
                    ) == stored_word(
                        old(self).data@,
                        width as int,
                        if v < w {
                            exchanged(first as int, second as int, r)
                        } else {
                            r
                        },
                        v,
                    ),
            decreases width - w,
        {
            let ghost before = self.data@;
            let upper: u64 = self.data[first * width + w];
            let lower: u64 = self.data[second * width + w];
            self.data.set(first * width + w, lower);
            self.data.set(second * width + w, upper);
            proof {
                assert(upper == stored_word(before, width as int, first as int, w as int));
                assert(lower == stored_word(before, width as int, second as int, w as int));
                assert forall|r: int, v: int|
                    0 <= r < rows && 0 <= v < width implies #[trigger] stored_word(
                    self.data@,
                    width as int,
                    r,
                    v,
                ) == stored_word(
                    old(self).data@,
                    width as int,
                    if v < w + 1 {
                        exchanged(first as int, second as int, r)
                    } else {
                        r
                    },
                    v,
                ) by {
                    lemma_flat_index(r, v, rows, width as int);
                    lemma_flat_index(first as int, w as int, rows, width as int);
                    lemma_flat_index(second as int, w as int, rows, width as int);
                    assert(stored_word(self.data@, width as int, r, v) == (if r == first && v == w {
                        lower
                    } else if r == second && v == w {
                        upper
                    } else {
                        stored_word(before, width as int, r, v)
                    }));
                }
            }
            w = w + 1;
        }
        proof {
            assert(self.stored());
            assert forall|p: (int, int)| #[trigger] self@.cells.contains(p) == shown.cells.contains(
                p,
            ) by {
                if 0 <= p.0 < self.rows && 0 <= p.1 < self.cols {
                    self.lemma_bit(p.0, p.1 / 64, p.1 % 64);
                    old(self).lemma_bit(
                        exchanged(first as int, second as int, p.0),
                        p.1 / 64,
                        p.1 % 64,
                    );
                }
            }
            assert(self@ =~= shown);
        }
    }

    /// Exchanges two columns.
    pub fn swap_cols(&mut self, first: usize, second: usize)
        requires
            old(self).wf(),
            first < old(self)@.cols,
            second < old(self)@.cols,
        ensures
            final(self).wf(),
            final(self)@ == Grid::from_fn(
                old(self)@.rows,
                old(self)@.cols,
                |r: int, c: int| old(self)@.has(r, exchanged(first as int, second as int, c)),
            ),
    {
        let ghost shown = Grid::from_fn(
            old(self)@.rows,
            old(self)@.cols,
            |r: int, c: int| old(self)@.has(r, exchanged(first as int, second as int, c)),
        );
        if first == second {
            proof {
                assert(self@ =~= shown);
            }
            return ;
        }
        let mut row: usize = 0;
        while row < self.rows
            invariant
                old(self).wf(),
                self.wf(),
                self@.rows == old(self)@.rows,
                self@.cols == old(self)@.cols,
                self.rows == self@.rows,
                first < self@.cols,
                second < self@.cols,
                first != second,
                row <= self.rows,
                forall|p: (int, int)| #[trigger]
                    self@.cells.contains(p) == old(self)@.has(
                        p.0,
                        if p.0 < row {
                            exchanged(first as int, second as int, p.1)
                        } else {
                            p.1
                        },
                    ),
            decreases self.rows - row,
        {
            let first_set: bool = self.get(row, first);
            let second_set: bool = self.get(row, second);
            proof {
                assert(self@.cells.contains((row as int, first as int)) == first_set);
                assert(self@.cells.contains((row as int, second as int)) == second_set);
            }
            if first_set != second_set {
                self.set(row, first, second_set);
                self.set(row, second, first_set);
            }
            row = row + 1;
        }
        proof {
            assert forall|p: (int, int)| #[trigger] self@.cells.contains(p) == shown.cells.contains(
                p,
            ) by {
                assert(self@.cells.contains(p) == old(self)@.has(
                    p.0,
                    if p.0 < row {
                        exchanged(first as int, second as int, p.1)
                    } else {
                        p.1
                    },
                ));
                if self@.cells.contains(p) {
                    assert(old(self)@.cells.contains(
                        (p.0, exchanged(first as int, second as int, p.1)),
                    ));
                }
            }
            assert(self@ =~= shown);
        }
    }

    /// Returns a matrix whose new indices select old rows and columns.
    pub fn reordered(&self, rows: &[usize], cols: &[usize]) -> (matrix: Self)
        requires
            self.wf(),
            forall|i: int| 0 <= i < rows@.len() ==> #[trigger] rows@[i] < self@.rows,
            forall|i: int| 0 <= i < cols@.len() ==> #[trigger] cols@[i] < self@.cols,
            countable(rows@.len(), cols@.len()),
        ensures
            matrix.wf(),
            matrix@ == self@.reordered(rows@, cols@),
    {
        let rows_identity: bool = rows.len() == self.rows && is_identity(rows);
        let cols_identity: bool = cols.len() == self.cols && is_identity(cols);
        if rows_identity && cols_identity {
            proof {
                assert(self@.reordered(rows@, cols@) =~= self@);
            }
            return self.clone();
        }
        let width: usize = self.words_per_row;
        if cols_identity {
            let mut data: Vec<u64> = Vec::new();
            let mut k: usize = 0;
            while k < rows.len()
                invariant
                    self.wf(),
                    width == self.words_per_row,
                    k <= rows@.len(),
                    data@.len() == k * width,
                    forall|i: int| 0 <= i < rows@.len() ==> #[trigger] rows@[i] < self@.rows,
                    forall|r: int, w: int|
                        0 <= r < k && 0 <= w < width ==> #[trigger] stored_word(
                            data@,
                            width as int,
                            r,
                            w,
                        ) == self@.word(rows@[r] as int, w),
                decreases rows@.len() - k,
            {
                let ghost before = data@;
                proof {
                    assert(rows@[k as int] < self@.rows);
                }
                let words: &[u64] = self.row_words(rows[k]);
                data.extend_from_slice(words);
                proof {
                    assert((k + 1) * width == k * width + width) by (nonlinear_arith);
                    assert(0 <= k * width) by (nonlinear_arith);
                    assert(data@ =~= before + words@);
                    assert forall|r: int, w: int|
                        0 <= r < k + 1 && 0 <= w < width implies #[trigger] stored_word(
                        data@,
                        width as int,
                        r,
                        w,
                    ) == self@.word(rows@[r] as int, w) by {
                        if r < k {
                            lemma_flat_index(r, w, k as int, width as int);
                            assert(stored_word(before, width as int, r, w) == self@.word(
                                rows@[r] as int,
                                w,
                            ));
                        } else {
                            assert(data@[k * width + w] == words@[w]);
                        }
                    }
                }
                k = k + 1;
            }
            let matrix = Self::from_words(rows.len(), self.cols, data);
            proof {
                let shown = self@.reordered(rows@, cols@);
                assert forall|p: (int, int)| #[trigger] matrix@.cells.contains(p)
                    == shown.cells.contains(p) by {
                    if 0 <= p.0 < rows@.len() && 0 <= p.1 < self.cols {
                        let w = p.1 / 64;
                        let i = p.1 % 64;
                        let r = rows@[p.0] as int;
                        self.lemma_bit(r, w, i);
                        self.lemma_words();
                        lemma_flat_index(r, w, self.rows as int, width as int);
                        assert(self.data@[r * width + w] == self@.words()[r * width + w]);
                        assert(stored_word(data@, width as int, p.0, w) == self@.word(r, w));
                    }
                }
                assert(matrix@ =~= shown);
            }
            return matrix;
        }
        let mut result = Self::new(rows.len(), cols.len());
        let mut new_row: usize = 0;
        while new_row < rows.len()
            invariant
                self.wf(),
                result.wf(),
                result@.rows == rows@.len(),
                result@.cols == cols@.len(),
                new_row <= rows@.len(),
                forall|i: int| 0 <= i < rows@.len() ==> #[trigger] rows@[i] < self@.rows,
                forall|i: int| 0 <= i < cols@.len() ==> #[trigger] cols@[i] < self@.cols,
                forall|p: (int, int)| #[trigger]
                    result@.cells.contains(p) <==> 0 <= p.0 < new_row && 0 <= p.1 < cols@.len()
                        && self@.has(rows@[p.0] as int, cols@[p.1] as int),
            decreases rows@.len() - new_row,
        {
            let mut new_col: usize = 0;
            while new_col < cols.len()
                invariant
                    self.wf(),
                    result.wf(),
                    result@.rows == rows@.len(),
                    result@.cols == cols@.len(),
                    new_row < rows@.len(),
                    new_col <= cols@.len(),
                    forall|i: int| 0 <= i < rows@.len() ==> #[trigger] rows@[i] < self@.rows,
                    forall|i: int| 0 <= i < cols@.len() ==> #[trigger] cols@[i] < self@.cols,
                    forall|p: (int, int)| #[trigger]
                        result@.cells.contains(p) <==> 0 <= p.0 <= new_row && 0 <= p.1 < cols@.len()
                            && (p.0 < new_row || p.1 < new_col) && self@.has(
                            rows@[p.0] as int,
                            cols@[p.1] as int,
                        ),
                decreases cols@.len() - new_col,
            {
                proof {
                    assert(rows@[new_row as int] < self@.rows);
                    assert(cols@[new_col as int] < self@.cols);
                }
                if self.get(rows[new_row], cols[new_col]) {
                    result.set(new_row, new_col, true);
                }
                new_col = new_col + 1;
            }
            new_row = new_row + 1;
        }
        proof {
            assert(result@ =~= self@.reordered(rows@, cols@));
        }
        result
    }

    /// The matrix with rows and columns exchanged.
    pub fn transposed(&self) -> (matrix: Self)
        requires
            self.wf(),
        ensures
            matrix.wf(),
            matrix@ == self@.transposed(),
    {
        proof {
            assert(self.cols * self.rows == self.rows * self.cols) by (nonlinear_arith);
        }
        let mut result = Self::new(self.cols, self.rows);
        let mut row: usize = 0;
        while row < self.rows
            invariant
                self.wf(),
                result.wf(),
                result@.rows == self@.cols,
                result@.cols == self@.rows,
                self.rows == self@.rows,
                row <= self.rows,
                forall|p: (int, int)| #[trigger]
                    result@.cells.contains(p) <==> self@.has(p.1, p.0) && p.1 < row,
            decreases self.rows - row,
        {
            let ones: Vec<usize> = self.row_ones(row);
            let mut k: usize = 0;
            while k < ones.len()
                invariant
                    self.wf(),
                    result.wf(),
                    result@.rows == self@.cols,
                    result@.cols == self@.rows,
                    row < self@.rows,
                    lists_row(self@, row as int, ones@),
                    k <= ones@.len(),
                    forall|p: (int, int)| #[trigger]
                        result@.cells.contains(p) <==> self@.has(p.1, p.0) && (p.1 < row || (p.1
                            == row && exists|i: int| 0 <= i < k && #[trigger] ones@[i] == p.0)),
                decreases ones@.len() - k,
            {
                proof {
                    assert(self@.cells.contains((row as int, ones@[k as int] as int)));
                }
                let ghost before = result@.cells;
                result.set(ones[k], row, true);
                proof {
                    assert forall|p: (int, int)| #[trigger] result@.cells.contains(p) <==> self@.has(
                        p.1,
                        p.0,
                    ) && (p.1 < row || (p.1 == row && exists|i: int|
                        0 <= i < k + 1 && #[trigger] ones@[i] == p.0)) by {
                        if p == (ones@[k as int] as int, row as int) {
                            assert(ones@[k as int] == p.0);
                        } else {
                            assert(before.contains(p) == result@.cells.contains(p));
                        }
                    }
                }
                k = k + 1;
            }
            proof {
                assert forall|p: (int, int)| #[trigger] result@.cells.contains(p) <==> self@.has(
                    p.1,
                    p.0,
                ) && p.1 < row + 1 by {
                    if self@.has(p.1, p.0) && p.1 == row {
                        assert(self@.cells.contains((p.1, p.0)));
                        assert(ones@.contains(p.0 as usize));
                        let i = choose|i: int| 0 <= i < ones@.len() && ones@[i] == p.0 as usize;
                        assert(ones@[i] == p.0);
                    }
                }
            }
            row = row + 1;
        }
        proof {
            assert forall|p: (int, int)| #[trigger] result@.cells.contains(p)
                == self@.transposed().cells.contains(p) by {
                if self@.has(p.1, p.0) {
                    assert(self@.cells.contains((p.1, p.0)));
                }
            }
            assert(result@ =~= self@.transposed());
        }
        result
    }

    /// Whether both matrices have the same size and the same bits.
    pub fn same(&self, other: &Self) -> (same: bool)
        requires
            self.wf(),
            other.wf(),
        ensures
            same == (self@ == other@),
    {
        proof {
            self.lemma_words();
            other.lemma_words();
        }
        if self.rows != other.rows || self.cols != other.cols {
            return false;
        }
        let equal: bool = words_equal(self.data.as_slice(), other.data.as_slice());
        proof {
            if equal {
                assert(self@ =~= other@);
            }
        }
        equal
    }

    /// Whether this matrix goes before `other`: fewer rows, then fewer columns, then lower words.
    pub fn precedes(&self, other: &Self) -> (precedes: bool)
        requires
            self.wf(),
            other.wf(),
        ensures
            precedes == grid_lt(self@, other@),
    {
        proof {
            self.lemma_words();
            other.lemma_words();
        }
        if self.rows != other.rows {
            return self.rows < other.rows;
        }
        if self.cols != other.cols {
            return self.cols < other.cols;
        }
        words_precede(self.data.as_slice(), other.data.as_slice())
    }
}

impl Clone for BitMatrix {
    fn clone(&self) -> (copy: Self)
        ensures
            copy@ == self@,
            self.wf() ==> copy.wf(),
    {
        let data: Vec<u64> = self.data.clone();
        proof {
            assert(data@ =~= self.data@);
        }
        let copy = BitMatrix {
            rows: self.rows,
            cols: self.cols,
            words_per_row: self.words_per_row,
            data,
        };
        proof {
            assert(copy@ =~= self@);
        }
        copy
    }
}

fn is_identity(indices: &[usize]) -> (identity: bool)
    ensures
        identity == (forall|i: int| 0 <= i < indices@.len() ==> #[trigger] indices@[i] == i),
{
    let mut k: usize = 0;
    while k < indices.len()
        invariant
            k <= indices@.len(),
            forall|i: int| 0 <= i < k ==> #[trigger] indices@[i] == i,
        decreases indices@.len() - k,
    {
        if indices[k] != k {
            return false;
        }
        k = k + 1;
    }
    true
}

/// Whether `ones` lists the columns of the set cells of row `row`, in ascending order.
pub open spec fn lists_row(grid: Grid, row: int, ones: Seq<usize>) -> bool {
    &&& forall|i: int, j: int| 0 <= i < j < ones.len() ==> ones[i] < ones[j]
    &&& forall|i: int| 0 <= i < ones.len() ==> grid.has(row, #[trigger] ones[i] as int)
    &&& forall|c: int| #[trigger] grid.has(row, c) ==> ones.contains(c as usize)
}

spec fn lists_row_up_to(grid: Grid, row: int, ones: Seq<usize>, end: int) -> bool {
    &&& forall|i: int, j: int| 0 <= i < j < ones.len() ==> ones[i] < ones[j]
    &&& forall|i: int|
        0 <= i < ones.len() ==> grid.has(row, #[trigger] ones[i] as int) && ones[i] < end
    &&& forall|c: int| #[trigger] grid.has(row, c) && c < end ==> ones.contains(c as usize)
}

proof fn lemma_list_grows(grid: Grid, row: int, ones: Seq<usize>, end: int, col: int)
    requires
        lists_row_up_to(grid, row, ones, end),
        0 <= end <= col <= usize::MAX,
        grid.has(row, col),
        forall|c: int| end <= c < col ==> !(#[trigger] grid.has(row, c)),
    ensures
        lists_row_up_to(grid, row, ones.push(col as usize), col + 1),
{
    let more = ones.push(col as usize);
    assert forall|c: int| #[trigger] grid.has(row, c) && c < col + 1 implies more.contains(
        c as usize,
    ) by {
        if c < end {
            assert(ones.contains(c as usize));
            let i = choose|i: int| 0 <= i < ones.len() && ones[i] == c as usize;
            assert(more[i] == c as usize);
        } else {
            assert(c == col);
            assert(more[ones.len() as int] == c as usize);
        }
    }
}

} // verus!
