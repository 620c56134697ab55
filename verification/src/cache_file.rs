//! The bytes that a cache is saved as: a mark, the number of entries, and for each entry the nimber,
//! the size of the matrix and its words, all numbers as eight bytes, lowest first.
use crate::bits::{has_bit, lemma_flat_index, lemma_word_exists, word_count, words_for};
use crate::grid::{countable, Grid};
use crate::matrix::BitMatrix;
use vstd::bytes::{lemma_auto_spec_u64_to_from_le_bytes, spec_u64_from_le_bytes};
use vstd::bytes::{spec_u64_to_le_bytes, u64_from_le_bytes, u64_to_le_bytes};
use vstd::prelude::*;

verus! {

/// A number in the file.
#[derive(Clone, Copy, Debug, PartialEq, Eq, Structural)]
pub enum CacheField {
    EntryCount,
    Nimber,
    Rows,
    Columns,
    WordCount,
}

/// Why bytes are not a saved cache.
#[derive(Clone, Copy, Debug, PartialEq, Eq, Structural)]
pub enum CacheFileError {
    /// The bytes end too early.
    Truncated,
    /// The mark at the start is missing.
    NotACacheFile,
    /// A number does not fit in a machine word.
    TooLarge(CacheField),
    /// A machine word cannot count the cells of a matrix.
    DimensionsOverflow,
    /// The number of words is not that of a matrix of this size.
    WordCountMismatch,
}

impl CacheFileError {
    /// The error in words.
    pub open spec fn text(self) -> Seq<char> {
        match self {
            CacheFileError::Truncated => "failed to fill whole buffer"@,
            CacheFileError::NotACacheFile => "not a nim_light cache file"@,
            CacheFileError::TooLarge(
                CacheField::EntryCount,
            ) => "cache entry count does not fit in usize"@,
            CacheFileError::TooLarge(CacheField::Nimber) => "nimber does not fit in usize"@,
            CacheFileError::TooLarge(CacheField::Rows) => "matrix rows does not fit in usize"@,
            CacheFileError::TooLarge(CacheField::Columns) => "matrix columns does not fit in usize"@,
            CacheFileError::TooLarge(
                CacheField::WordCount,
            ) => "matrix word count does not fit in usize"@,
            CacheFileError::DimensionsOverflow => "matrix dimensions overflow"@,
            CacheFileError::WordCountMismatch => "matrix word count does not match dimensions"@,
        }
    }

    pub fn message(&self) -> (message: &'static str)
        ensures
            message@ == self.text(),
    {
        match self {
            CacheFileError::Truncated => "failed to fill whole buffer",
            CacheFileError::NotACacheFile => "not a nim_light cache file",
            CacheFileError::TooLarge(
                CacheField::EntryCount,
            ) => "cache entry count does not fit in usize",
            CacheFileError::TooLarge(CacheField::Nimber) => "nimber does not fit in usize",
            CacheFileError::TooLarge(CacheField::Rows) => "matrix rows does not fit in usize",
            CacheFileError::TooLarge(CacheField::Columns) => "matrix columns does not fit in usize",
            CacheFileError::TooLarge(
                CacheField::WordCount,
            ) => "matrix word count does not fit in usize",
            CacheFileError::DimensionsOverflow => "matrix dimensions overflow",
            CacheFileError::WordCountMismatch => "matrix word count does not match dimensions",
        }
    }
}

/// The bytes at the start of every file: the text `NLCACH02`.
pub open spec fn file_mark() -> Seq<u8> {
    seq![0x4eu8, 0x4c, 0x43, 0x41, 0x43, 0x48, 0x30, 0x32]
}

/// The entries, each as the matrix that it speaks of and its nimber.
pub open spec fn entry_views(entries: Seq<(BitMatrix, usize)>) -> Seq<(Grid, usize)> {
    Seq::new(entries.len(), |i: int| (entries[i].0@, entries[i].1))
}

/// The words as bytes, one after the other.
pub open spec fn word_bytes(words: Seq<u64>) -> Seq<u8>
    decreases words.len(),
{
    if words.len() == 0 {
        Seq::empty()
    } else {
        word_bytes(words.drop_last()) + spec_u64_to_le_bytes(words.last())
    }
}

/// One entry as bytes.
pub open spec fn entry_bytes(entry: (Grid, usize)) -> Seq<u8> {
    spec_u64_to_le_bytes(entry.1 as u64) + spec_u64_to_le_bytes(entry.0.rows as u64)
        + spec_u64_to_le_bytes(entry.0.cols as u64) + spec_u64_to_le_bytes(
        entry.0.words().len() as u64,
    ) + word_bytes(entry.0.words())
}

/// The entries as bytes, one after the other.
pub open spec fn all_entry_bytes(entries: Seq<(Grid, usize)>) -> Seq<u8>
    decreases entries.len(),
{
    if entries.len() == 0 {
        Seq::empty()
    } else {
        all_entry_bytes(entries.drop_last()) + entry_bytes(entries.last())
    }
}

/// The file that holds the entries.
pub open spec fn file_bytes(entries: Seq<(Grid, usize)>) -> Seq<u8> {
    file_mark() + spec_u64_to_le_bytes(entries.len() as u64) + all_entry_bytes(entries)
}

/// The word that starts at byte `at`.
pub open spec fn word_at(bytes: Seq<u8>, at: int) -> u64 {
    spec_u64_from_le_bytes(bytes.subrange(at, at + 8))
}

/// The number that starts at byte `at`.
pub open spec fn number_at(bytes: Seq<u8>, at: int, field: CacheField) -> Result<
    usize,
    CacheFileError,
> {
    if at + 8 > bytes.len() {
        Err(CacheFileError::Truncated)
    } else if word_at(bytes, at) > usize::MAX {
        Err(CacheFileError::TooLarge(field))
    } else {
        Ok(word_at(bytes, at) as usize)
    }
}

/// The matrix of the given size whose rows are given by words. Bits past the last column are dropped.
pub open spec fn grid_of_words(rows: nat, cols: nat, words: Seq<u64>) -> Grid {
    Grid::from_fn(
        rows,
        cols,
        |r: int, c: int| has_bit(words[r * words_for(cols) + c / 64], c % 64),
    )
}

/// The matrix whose size stands at byte `at`, or what is wrong with it.
pub open spec fn matrix_at(bytes: Seq<u8>, at: int) -> Result<Grid, CacheFileError> {
    match (
        number_at(bytes, at, CacheField::Rows),
        number_at(bytes, at + 8, CacheField::Columns),
        number_at(bytes, at + 16, CacheField::WordCount),
    ) {
        (Err(e), _, _) => Err(e),
        (_, Err(e), _) => Err(e),
        (_, _, Err(e)) => Err(e),
        (Ok(rows), Ok(cols), Ok(count)) => {
            if rows * words_for(cols as nat) > usize::MAX {
                Err(CacheFileError::DimensionsOverflow)
            } else if count != rows * words_for(cols as nat) {
                Err(CacheFileError::WordCountMismatch)
            } else if !countable(rows as nat, cols as nat) {
                Err(CacheFileError::DimensionsOverflow)
            } else if at + 24 + 8 * count > bytes.len() {
                Err(CacheFileError::Truncated)
            } else {
                Ok(
                    grid_of_words(
                        rows as nat,
                        cols as nat,
                        Seq::new(count as nat, |k: int| word_at(bytes, at + 24 + 8 * k)),
                    ),
                )
            }
        },
    }
}

/// The entry that starts at byte `at`, or what is wrong with it.
pub open spec fn entry_at(bytes: Seq<u8>, at: int) -> Result<(Grid, usize), CacheFileError> {
    match (number_at(bytes, at, CacheField::Nimber), matrix_at(bytes, at + 8)) {
        (Err(e), _) => Err(e),
        (_, Err(e)) => Err(e),
        (Ok(nimber), Ok(grid)) => Ok((grid, nimber)),
    }
}

/// The byte after the entry that starts at byte `at`.
pub open spec fn entry_end(bytes: Seq<u8>, at: int) -> int {
    at + 32 + 8 * word_at(bytes, at + 24)
}

/// The next `count` entries from byte `at` on, up to the first one that is wrong, and what is wrong
/// with that one.
pub open spec fn entries_at(bytes: Seq<u8>, at: int, count: nat) -> (
    Seq<(Grid, usize)>,
    Option<CacheFileError>,
)
    decreases count,
{
    if count == 0 {
        (Seq::empty(), None)
    } else {
        match entry_at(bytes, at) {
            Err(e) => (Seq::empty(), Some(e)),
            Ok(entry) => {
                let rest = entries_at(bytes, entry_end(bytes, at), (count - 1) as nat);
                (seq![entry] + rest.0, rest.1)
            },
        }
    }
}

/// The number of entries that a file announces, or what is wrong with its start.
pub open spec fn header_of(bytes: Seq<u8>) -> Result<usize, CacheFileError> {
    if bytes.len() < 8 {
        Err(CacheFileError::Truncated)
    } else if bytes.subrange(0, 8) != file_mark() {
        Err(CacheFileError::NotACacheFile)
    } else {
        number_at(bytes, 8, CacheField::EntryCount)
    }
}

/// The entries of a file, and what is wrong after them if they are fewer than it announces.
#[derive(Debug)]
pub struct CacheFile {
    pub entries: Vec<(BitMatrix, usize)>,
    pub error: Option<CacheFileError>,
}

/// Whether every entry is a matrix as it should be.
pub open spec fn entries_wf(entries: Seq<(BitMatrix, usize)>) -> bool {
    forall|i: int| 0 <= i < entries.len() ==> (#[trigger] entries[i]).0.wf()
}

fn write_u64(bytes: &mut Vec<u8>, value: u64)
    ensures
        final(bytes)@ == old(bytes)@ + spec_u64_to_le_bytes(value),
{
    let mut word: Vec<u8> = u64_to_le_bytes(value);
    bytes.append(&mut word);
}

fn write_matrix(bytes: &mut Vec<u8>, matrix: &BitMatrix)
    requires
        matrix.wf(),
    ensures
        final(bytes)@ == old(bytes)@ + (spec_u64_to_le_bytes(matrix@.rows as u64)
            + spec_u64_to_le_bytes(matrix@.cols as u64) + spec_u64_to_le_bytes(
            matrix@.words().len() as u64,
        ) + word_bytes(matrix@.words())),
{
    let words: &[u64] = matrix.words();
    write_u64(bytes, matrix.rows() as u64);
    write_u64(bytes, matrix.cols() as u64);
    write_u64(bytes, words.len() as u64);
    let ghost start = bytes@;
    let mut k: usize = 0;
    proof {
        assert(words@.take(0) =~= Seq::empty());
        assert(bytes@ =~= start + word_bytes(words@.take(0)));
    }
    while k < words.len()
        invariant
            k <= words@.len(),
            bytes@ == start + word_bytes(words@.take(k as int)),
        decreases words@.len() - k,
    {
        write_u64(bytes, words[k]);
        proof {
            assert(words@.take(k + 1).drop_last() =~= words@.take(k as int));
            assert(bytes@ =~= start + word_bytes(words@.take(k + 1)));
        }
        k = k + 1;
    }
    proof {
        assert(words@.take(k as int) =~= words@);
        assert(bytes@ =~= old(bytes)@ + (spec_u64_to_le_bytes(matrix@.rows as u64)
            + spec_u64_to_le_bytes(matrix@.cols as u64) + spec_u64_to_le_bytes(
            matrix@.words().len() as u64,
        ) + word_bytes(matrix@.words())));
    }
}

fn write_cache_entry(bytes: &mut Vec<u8>, component: &BitMatrix, nimber: usize)
    requires
        component.wf(),
    ensures
        final(bytes)@ == old(bytes)@ + entry_bytes((component@, nimber)),
{
    write_u64(bytes, nimber as u64);
    write_matrix(bytes, component);
    proof {
        assert(bytes@ =~= old(bytes)@ + entry_bytes((component@, nimber)));
    }
}

/// The file that holds the entries.
pub fn encode_cache(entries: &Vec<(BitMatrix, usize)>) -> (bytes: Vec<u8>)
    requires
        entries_wf(entries@),
    ensures
        bytes@ == file_bytes(entry_views(entries@)),
{
    let mut bytes: Vec<u8> = vec![0x4e, 0x4c, 0x43, 0x41, 0x43, 0x48, 0x30, 0x32];
    let ghost views = entry_views(entries@);
    proof {
        assert(bytes@ =~= file_mark());
    }
    write_u64(&mut bytes, entries.len() as u64);
    let ghost start = bytes@;
    let mut k: usize = 0;
    proof {
        assert(views.take(0) =~= Seq::empty());
        assert(bytes@ =~= start + all_entry_bytes(views.take(0)));
    }
    while k < entries.len()
        invariant
            entries_wf(entries@),
            views == entry_views(entries@),
            k <= entries@.len(),
            bytes@ == start + all_entry_bytes(views.take(k as int)),
        decreases entries@.len() - k,
    {
        proof {
            assert(entries@[k as int].0.wf());
        }
        write_cache_entry(&mut bytes, &entries[k].0, entries[k].1);
        proof {
            assert(views.take(k + 1).drop_last() =~= views.take(k as int));
            assert(bytes@ =~= start + all_entry_bytes(views.take(k + 1)));
        }
        k = k + 1;
    }
    proof {
        assert(views.take(k as int) =~= views);
    }
    bytes
}

/// The number that starts at byte `at`.
fn read_usize(bytes: &[u8], at: usize, field: CacheField) -> (number: Result<
    usize,
    CacheFileError,
>)
    ensures
        number == number_at(bytes@, at as int, field),
        number is Ok ==> at + 8 <= bytes@.len() <= usize::MAX,
{
    if bytes.len() < 8 || at > bytes.len() - 8 {
        return Err(CacheFileError::Truncated);
    }
    let word: u64 = u64_from_le_bytes(vstd::slice::slice_subrange(bytes, at, at + 8));
    if word > usize::MAX as u64 {
        return Err(CacheFileError::TooLarge(field));
    }
    Ok(word as usize)
}

/// The matrix whose size stands at byte `at`.
fn read_matrix(bytes: &[u8], at: usize) -> (matrix: Result<BitMatrix, CacheFileError>)
    requires
        at <= bytes@.len(),
    ensures
        matrix matches Ok(m) ==> m.wf() && matrix_at(bytes@, at as int) == Ok::<
            Grid,
            CacheFileError,
        >(m@),
        matrix matches Err(e) ==> matrix_at(bytes@, at as int) == Err::<Grid, CacheFileError>(e),
{
    let rows: usize = match read_usize(bytes, at, CacheField::Rows) {
        Ok(rows) => rows,
        Err(e) => {
            return Err(e);
        },
    };
    let cols: usize = match read_usize(bytes, at + 8, CacheField::Columns) {
        Ok(cols) => cols,
        Err(e) => {
            return Err(e);
        },
    };
    let count: usize = match read_usize(bytes, at + 16, CacheField::WordCount) {
        Ok(count) => count,
        Err(e) => {
            return Err(e);
        },
    };
    let width: usize = word_count(cols);
    let expected: usize = match rows.checked_mul(width) {
        Some(expected) => expected,
        None => {
            return Err(CacheFileError::DimensionsOverflow);
        },
    };
    if count != expected {
        return Err(CacheFileError::WordCountMismatch);
    }
    if rows.checked_mul(cols).is_none() || rows.checked_add(cols).is_none() {
        return Err(CacheFileError::DimensionsOverflow);
    }
    let start: usize = at + 24;
    if count > (bytes.len() - start) / 8 {
        return Err(CacheFileError::Truncated);
    }
    let mut words: Vec<u64> = Vec::new();
    let mut k: usize = 0;
    while k < count
        invariant
            k <= count,
            start == at + 24,
            start + 8 * count <= bytes@.len() <= usize::MAX,
            words@.len() == k,
            forall|i: int|
                0 <= i < k ==> #[trigger] words@[i] == word_at(bytes@, at + 24 + 8 * i),
        decreases count - k,
    {
        let place: usize = start + 8 * k;
        words.push(u64_from_le_bytes(vstd::slice::slice_subrange(bytes, place, place + 8)));
        k = k + 1;
    }
    proof {
        assert(words@ =~= Seq::new(count as nat, |k: int| word_at(bytes@, at + 24 + 8 * k)));
    }
    Ok(BitMatrix::from_words(rows, cols, words))
}

/// The entry that starts at byte `at`.
fn read_cache_entry(bytes: &[u8], at: usize) -> (entry: Result<(BitMatrix, usize), CacheFileError>)
    requires
        at <= bytes@.len(),
    ensures
        entry matches Ok(e) ==> {
            &&& e.0.wf()
            &&& entry_at(bytes@, at as int) == Ok::<(Grid, usize), CacheFileError>((e.0@, e.1))
            &&& entry_end(bytes@, at as int) <= bytes@.len() <= usize::MAX
        },
        entry matches Err(e) ==> entry_at(bytes@, at as int) == Err::<
            (Grid, usize),
            CacheFileError,
        >(e),
{
    let nimber: usize = match read_usize(bytes, at, CacheField::Nimber) {
        Ok(nimber) => nimber,
        Err(e) => {
            return Err(e);
        },
    };
    match read_matrix(bytes, at + 8) {
        Ok(component) => Ok((component, nimber)),
        Err(e) => Err(e),
    }
}

/// Reads a file. Where its start is wrong there is nothing to read; where an entry is wrong, the
/// entries before it are read.
pub fn decode_cache(bytes: &[u8]) -> (file: Result<CacheFile, CacheFileError>)
    ensures
        match (header_of(bytes@), file) {
            (Err(e), Err(f)) => e == f,
            (Ok(count), Ok(file)) => {
                &&& entries_wf(file.entries@)
                &&& entry_views(file.entries@) == entries_at(bytes@, 16, count as nat).0
                &&& file.error == entries_at(bytes@, 16, count as nat).1
            },
            _ => false,
        },
{
    if bytes.len() < 8 {
        return Err(CacheFileError::Truncated);
    }
    proof {
        assert(bytes@.subrange(0, 8) =~= seq![
            bytes@[0],
            bytes@[1],
            bytes@[2],
            bytes@[3],
            bytes@[4],
            bytes@[5],
            bytes@[6],
            bytes@[7],
        ]);
    }
    if !(bytes[0] == 0x4e && bytes[1] == 0x4c && bytes[2] == 0x43 && bytes[3] == 0x41 && bytes[4]
        == 0x43 && bytes[5] == 0x48 && bytes[6] == 0x30 && bytes[7] == 0x32) {
        proof {
            let mark = file_mark();
            if bytes@.subrange(0, 8) == mark {
                assert(bytes@.subrange(0, 8)[0] == mark[0]);
                assert(bytes@.subrange(0, 8)[1] == mark[1]);
                assert(bytes@.subrange(0, 8)[2] == mark[2]);
                assert(bytes@.subrange(0, 8)[3] == mark[3]);
                assert(bytes@.subrange(0, 8)[4] == mark[4]);
                assert(bytes@.subrange(0, 8)[5] == mark[5]);
                assert(bytes@.subrange(0, 8)[6] == mark[6]);
                assert(bytes@.subrange(0, 8)[7] == mark[7]);
            }
        }
        return Err(CacheFileError::NotACacheFile);
    }
    let count: usize = match read_usize(bytes, 8, CacheField::EntryCount) {
        Ok(count) => count,
        Err(e) => {
            return Err(e);
        },
    };
    let mut entries: Vec<(BitMatrix, usize)> = Vec::new();
    let mut at: usize = 16;
    let mut k: usize = 0;
    let ghost whole = entries_at(bytes@, 16, count as nat);
    proof {
        assert(whole.0 =~= entry_views(entries@) + whole.0);
    }
    while k < count
        invariant
            k <= count,
            at <= bytes@.len(),
            entries_wf(entries@),
            whole == entries_at(bytes@, 16, count as nat),
            whole.0 == entry_views(entries@) + entries_at(bytes@, at as int, (count - k) as nat).0,
            whole.1 == entries_at(bytes@, at as int, (count - k) as nat).1,
            header_of(bytes@) == Ok::<usize, CacheFileError>(count),
        decreases count - k,
    {
        let ghost before = entry_views(entries@);
        let ghost rest = entries_at(bytes@, at as int, (count - k) as nat);
        match read_cache_entry(bytes, at) {
            Ok((component, nimber)) => {
                let ghost entry = (component@, nimber);
                let end: usize = at + 32;
                let words: usize = match read_usize(bytes, at + 24, CacheField::WordCount) {
                    Ok(words) => words,
                    Err(_) => 0,
                };
                entries.push((component, nimber));
                proof {
                    assert(entry_views(entries@) =~= before.push(entry));
                    let later = entries_at(
                        bytes@,
                        entry_end(bytes@, at as int),
                        (count - k - 1) as nat,
                    );
                    assert(rest.0 == seq![entry] + later.0);
                    assert(whole.0 =~= entry_views(entries@) + later.0);
                }
                at = end + 8 * words;
            },
            Err(e) => {
                proof {
                    assert(whole.0 =~= entry_views(entries@));
                }
                return Ok(CacheFile { entries, error: Some(e) });
            },
        }
        k = k + 1;
    }
    proof {
        assert(whole.0 =~= entry_views(entries@));
    }
    Ok(CacheFile { entries, error: None })
}

/// The words of a matrix give back the matrix.
proof fn lemma_grid_of_words(grid: Grid)
    requires
        grid.wf(),
    ensures
        grid_of_words(grid.rows, grid.cols, grid.words()) == grid,
{
    let again = grid_of_words(grid.rows, grid.cols, grid.words());
    let width = words_for(grid.cols) as int;
    assert forall|p: (int, int)| #[trigger] again.cells.contains(p) <==> grid.cells.contains(p) by {
        let (r, c) = p;
        if 0 <= r < grid.rows && 0 <= c < grid.cols {
            lemma_flat_index(r, c / 64, grid.rows as int, width);
            let bits = |i: int| grid.has(r, 64 * (c / 64) + i);
            lemma_word_exists(bits);
            assert(grid.words()[r * width + c / 64] == grid.word(r, c / 64));
            assert(has_bit(grid.word(r, c / 64), c % 64) == bits(c % 64));
            assert(64 * (c / 64) + c % 64 == c);
        }
    }
    assert(again.cells =~= grid.cells);
}

/// A word is read where it was written.
proof fn lemma_word_at(before: Seq<u8>, word: u64, after: Seq<u8>)
    ensures
        word_at(before + spec_u64_to_le_bytes(word) + after, before.len() as int) == word,
        spec_u64_to_le_bytes(word).len() == 8,
{
    lemma_auto_spec_u64_to_from_le_bytes();
    let bytes = before + spec_u64_to_le_bytes(word) + after;
    assert(bytes.subrange(before.len() as int, before.len() as int + 8) =~= spec_u64_to_le_bytes(word));
}

/// Words are read where they were written.
proof fn lemma_words_at(before: Seq<u8>, words: Seq<u64>, after: Seq<u8>)
    ensures
        word_bytes(words).len() == 8 * words.len(),
        forall|k: int|
            0 <= k < words.len() ==> #[trigger] words[k] == word_at(
                before + word_bytes(words) + after,
                before.len() + 8 * k,
            ),
    decreases words.len(),
{
    if words.len() > 0 {
        let last = spec_u64_to_le_bytes(words.last());
        let bytes = before + word_bytes(words) + after;
        lemma_words_at(before, words.drop_last(), last + after);
        assert(bytes =~= before + word_bytes(words.drop_last()) + (last + after));
        assert(bytes =~= (before + word_bytes(words.drop_last())) + last + after);
        lemma_word_at(before + word_bytes(words.drop_last()), words.last(), after);
        assert forall|k: int| 0 <= k < words.len() implies #[trigger] words[k] == word_at(
            bytes,
            before.len() + 8 * k,
        ) by {
            if k < words.len() - 1 {
                assert(words.drop_last()[k] == words[k]);
            }
        }
    }
}

/// An entry is read where it was written.
proof fn lemma_entry_at(before: Seq<u8>, entry: (Grid, usize), after: Seq<u8>)
    requires
        entry.0.wf(),
        countable(entry.0.rows, entry.0.cols),
    ensures
        entry_at(before + entry_bytes(entry) + after, before.len() as int) == Ok::<
            (Grid, usize),
            CacheFileError,
        >(entry),
        entry_end(before + entry_bytes(entry) + after, before.len() as int) == before.len()
            + entry_bytes(entry).len(),
{
    let grid = entry.0;
    let words = grid.words();
    let bytes = before + entry_bytes(entry) + after;
    let at = before.len() as int;
    let a = spec_u64_to_le_bytes(entry.1 as u64);
    let b = spec_u64_to_le_bytes(grid.rows as u64);
    let c = spec_u64_to_le_bytes(grid.cols as u64);
    let d = spec_u64_to_le_bytes(words.len() as u64);
    let w = word_bytes(words);
    assert(grid.rows * words_for(grid.cols) <= grid.rows * grid.cols) by (nonlinear_arith)
        requires
            words_for(grid.cols) <= grid.cols,
            0 <= grid.rows,
    ;
    assert(bytes =~= before + a + (b + c + d + w + after));
    lemma_word_at(before, entry.1 as u64, b + c + d + w + after);
    assert(bytes =~= (before + a) + b + (c + d + w + after));
    lemma_word_at(before + a, grid.rows as u64, c + d + w + after);
    assert(bytes =~= (before + a + b) + c + (d + w + after));
    lemma_word_at(before + a + b, grid.cols as u64, d + w + after);
    assert(bytes =~= (before + a + b + c) + d + (w + after));
    lemma_word_at(before + a + b + c, words.len() as u64, w + after);
    assert(bytes =~= (before + a + b + c + d) + w + after);
    lemma_words_at(before + a + b + c + d, words, after);
    let read = Seq::new(words.len(), |k: int| word_at(bytes, at + 8 + 24 + 8 * k));
    assert(read =~= words) by {
        assert forall|k: int| 0 <= k < words.len() implies read[k] == words[k] by {
            assert(words[k] == word_at(bytes, (before + a + b + c + d).len() + 8 * k));
        }
    }
    lemma_grid_of_words(grid);
}

proof fn lemma_entry_bytes_first(entries: Seq<(Grid, usize)>)
    requires
        entries.len() > 0,
    ensures
        all_entry_bytes(entries) == entry_bytes(entries[0]) + all_entry_bytes(
            entries.drop_first(),
        ),
    decreases entries.len(),
{
    let rest = entries.drop_first();
    if entries.len() == 1 {
        assert(entries.drop_last() =~= Seq::empty());
        assert(rest =~= Seq::empty());
        assert(all_entry_bytes(entries) =~= entry_bytes(entries[0]) + all_entry_bytes(rest));
    } else {
        let most = entries.drop_last();
        lemma_entry_bytes_first(most);
        assert(most.drop_first() =~= rest.drop_last());
        assert(rest.last() == entries.last());
        assert(all_entry_bytes(entries) =~= entry_bytes(entries[0]) + all_entry_bytes(rest));
    }
}

proof fn lemma_entries_at(before: Seq<u8>, entries: Seq<(Grid, usize)>)
    requires
        forall|i: int|
            0 <= i < entries.len() ==> (#[trigger] entries[i]).0.wf() && countable(
                entries[i].0.rows,
                entries[i].0.cols,
            ),
    ensures
        entries_at(
            before + all_entry_bytes(entries),
            before.len() as int,
            entries.len(),
        ) == (entries, None::<CacheFileError>),
    decreases entries.len(),
{
    let bytes = before + all_entry_bytes(entries);
    if entries.len() > 0 {
        let first = entries[0];
        let rest = entries.drop_first();
        lemma_entry_bytes_first(entries);
        assert(bytes =~= before + entry_bytes(first) + all_entry_bytes(rest));
        lemma_entry_at(before, first, all_entry_bytes(rest));
        assert forall|i: int| 0 <= i < rest.len() implies (#[trigger] rest[i]).0.wf() && countable(
            rest[i].0.rows,
            rest[i].0.cols,
        ) by {
            assert(rest[i] == entries[i + 1]);
        }
        lemma_entries_at(before + entry_bytes(first), rest);
        assert(seq![first] + rest =~= entries);
    } else {
        assert(entries =~= Seq::empty());
    }
}

/// A saved cache is read back as it was: a file of entries announces their number and holds them.
pub proof fn lemma_saved_cache_loads(entries: Seq<(Grid, usize)>)
    requires
        entries.len() <= usize::MAX,
        forall|i: int|
            0 <= i < entries.len() ==> (#[trigger] entries[i]).0.wf() && countable(
                entries[i].0.rows,
                entries[i].0.cols,
            ),
    ensures
        header_of(file_bytes(entries)) == Ok::<usize, CacheFileError>(entries.len() as usize),
        entries_at(file_bytes(entries), 16, entries.len()) == (entries, None::<CacheFileError>),
{
    let bytes = file_bytes(entries);
    let count = spec_u64_to_le_bytes(entries.len() as u64);
    lemma_word_at(file_mark(), entries.len() as u64, all_entry_bytes(entries));
    assert(bytes.subrange(0, 8) =~= file_mark());
    lemma_entries_at(file_mark() + count, entries);
}

} // verus!
