//! Facts about the bits of machine words, and about rows of such words.
use vstd::prelude::*;

verus! {

/// Whether bit `i` of `word` is set.
pub open spec fn has_bit(word: u64, i: int) -> bool {
    0 <= i < 64 && (word >> (i as u64)) & 1u64 == 1u64
}

/// The number of 64-bit words that hold `bits` bits.
pub open spec fn words_for(bits: nat) -> nat {
    (bits + 63) / 64
}

/// The word whose set bits are those that `bits` holds of.
pub open spec fn word_of(bits: spec_fn(int) -> bool) -> u64 {
    choose|word: u64| word_shows(word, bits)
}

/// Whether the set bits of `word` are those that `bits` holds of.
pub open spec fn word_shows(word: u64, bits: spec_fn(int) -> bool) -> bool {
    forall|i: int| 0 <= i < 64 ==> #[trigger] has_bit(word, i) == bits(i)
}

pub proof fn lemma_test_bit(word: u64, i: u64)
    requires
        i < 64,
    ensures
        (word & (1u64 << i) != 0) == has_bit(word, i as int),
{
    assert((word & (1u64 << i) != 0) == ((word >> i) & 1u64 == 1u64)) by (bit_vector)
        requires
            i < 64,
    ;
}

pub proof fn lemma_zero_bits()
    ensures
        forall|j: int| !(#[trigger] has_bit(0, j)),
{
    assert forall|j: int| !(#[trigger] has_bit(0, j)) by {
        let k = j as u64;
        assert((0u64 >> k) & 1u64 == 0u64) by (bit_vector);
    }
}

pub proof fn lemma_or_bits(a: u64, b: u64)
    ensures
        forall|j: int| #[trigger] has_bit(a | b, j) == (has_bit(a, j) || has_bit(b, j)),
{
    assert forall|j: int| #[trigger] has_bit(a | b, j) == (has_bit(a, j) || has_bit(b, j)) by {
        let k = j as u64;
        assert(((a | b) >> k) & 1u64 == 1u64 <==> ((a >> k) & 1u64 == 1u64 || (b >> k) & 1u64
            == 1u64)) by (bit_vector);
    }
}

pub proof fn lemma_and_bits(a: u64, b: u64)
    ensures
        forall|j: int| #[trigger] has_bit(a & b, j) == (has_bit(a, j) && has_bit(b, j)),
{
    assert forall|j: int| #[trigger] has_bit(a & b, j) == (has_bit(a, j) && has_bit(b, j)) by {
        let k = j as u64;
        assert(((a & b) >> k) & 1u64 == 1u64 <==> ((a >> k) & 1u64 == 1u64 && (b >> k) & 1u64
            == 1u64)) by (bit_vector);
    }
}

pub proof fn lemma_not_bits(a: u64)
    ensures
        forall|j: int| 0 <= j < 64 ==> #[trigger] has_bit(!a, j) == !has_bit(a, j),
{
    assert forall|j: int| 0 <= j < 64 implies #[trigger] has_bit(!a, j) == !has_bit(a, j) by {
        let k = j as u64;
        assert(k < 64 ==> (((!a) >> k) & 1u64 == 1u64 <==> !((a >> k) & 1u64 == 1u64)))
            by (bit_vector);
    }
}

pub proof fn lemma_single_bit(i: u64)
    requires
        i < 64,
    ensures
        forall|j: int| #[trigger] has_bit(1u64 << i, j) == (i == j),
{
    assert forall|j: int| #[trigger] has_bit(1u64 << i, j) == (i == j) by {
        let k = j as u64;
        assert(k < 64 && i < 64 ==> (((1u64 << i) >> k) & 1u64 == 1u64 <==> i == k))
            by (bit_vector);
    }
}

pub proof fn lemma_low_mask(n: u64)
    requires
        n < 64,
    ensures
        1u64 << n >= 1,
        forall|j: int| #[trigger] has_bit(((1u64 << n) - 1) as u64, j) == (0 <= j < n),
{
    assert(1u64 << n >= 1) by (bit_vector)
        requires
            n < 64,
    ;
    let m = ((1u64 << n) - 1) as u64;
    assert forall|j: int| #[trigger] has_bit(m, j) == (0 <= j < n) by {
        let k = j as u64;
        assert(k < 64 && n < 64 && m == ((1u64 << n) - 1) as u64 ==> ((m >> k) & 1u64 == 1u64 <==> k < n))
            by (bit_vector);
    }
}

/// Words with the same bits are equal.
pub proof fn lemma_bits_equal(a: u64, b: u64)
    requires
        forall|j: int| 0 <= j < 64 ==> #[trigger] has_bit(a, j) == has_bit(b, j),
    ensures
        a == b,
{
    let x = a ^ b;
    if x != 0 {
        vstd::std_specs::bits::axiom_u64_trailing_zeros(x);
        let i = vstd::std_specs::bits::u64_trailing_zeros(x) as u64;
        assert(((a ^ b) >> i) & 1u64 == 1u64 ==> (a >> i) & 1u64 != (b >> i) & 1u64) by (bit_vector);
        assert((a >> i) & 1u64 <= 1 && (b >> i) & 1u64 <= 1) by (bit_vector);
        assert(has_bit(a, i as int) == has_bit(b, i as int));
    } else {
        assert(a ^ b == 0 ==> a == b) by (bit_vector);
    }
}

/// The lowest set bit of a word, and the word without it.
pub proof fn lemma_lowest_bit(word: u64)
    requires
        word != 0,
    ensures
        ({
            let low = vstd::std_specs::bits::u64_trailing_zeros(word) as int;
            &&& 0 <= low < 64
            &&& has_bit(word, low)
            &&& forall|j: int| 0 <= j < low ==> !(#[trigger] has_bit(word, j))
            &&& forall|j: int|
                #[trigger] has_bit(word & ((word - 1) as u64), j) == (has_bit(word, j) && j != low)
        }),
        word & ((word - 1) as u64) < word,
{
    vstd::std_specs::bits::axiom_u64_trailing_zeros(word);
    let low = vstd::std_specs::bits::u64_trailing_zeros(word) as u64;
    let less = word & ((word - 1) as u64);
    assert(word & ((word - 1) as u64) < word) by (bit_vector)
        requires
            word != 0,
    ;
    assert forall|j: int| 0 <= j < low implies !(#[trigger] has_bit(word, j)) by {
        let k = j as u64;
        assert((word >> k) & 1u64 == 0u64);
    }
    assert forall|j: int| #[trigger] has_bit(less, j) == (has_bit(word, j) && j != low) by {
        let k = j as u64;
        let high = (64 - low) as u64;
        assert(word << high == 0);
        assert(low < 64 && k < 64 && word != 0 && (word >> low) & 1u64 == 1u64 && high == (64
            - low) as u64 && word << high == 0 && less == word & ((word - 1) as u64) ==> ((less >> k) & 1u64 == 1u64 <==> (word >> k) & 1u64
            == 1u64 && k != low)) by (bit_vector);
    }
}

/// A word that shows given bits is the one named by them.
pub proof fn lemma_word_of(word: u64, bits: spec_fn(int) -> bool)
    requires
        word_shows(word, bits),
    ensures
        word == word_of(bits),
{
    let named = word_of(bits);
    assert(word_shows(named, bits));
    assert forall|j: int| 0 <= j < 64 implies #[trigger] has_bit(word, j) == has_bit(named, j) by {
    }
    lemma_bits_equal(word, named);
}

proof fn lemma_word_exists_up_to(bits: spec_fn(int) -> bool, n: nat) -> (word: u64)
    requires
        n <= 64,
    ensures
        forall|i: int| #[trigger] has_bit(word, i) == (0 <= i < n && bits(i)),
    decreases n,
{
    if n == 0 {
        lemma_zero_bits();
        0
    } else {
        let less = lemma_word_exists_up_to(bits, (n - 1) as nat);
        if bits(n - 1) {
            let one = 1u64 << ((n - 1) as u64);
            lemma_single_bit((n - 1) as u64);
            lemma_or_bits(less, one);
            less | one
        } else {
            less
        }
    }
}

/// Any choice of bits is shown by the word that it names.
pub proof fn lemma_word_exists(bits: spec_fn(int) -> bool)
    ensures
        word_shows(word_of(bits), bits),
{
    let word = lemma_word_exists_up_to(bits, 64);
    assert(word_shows(word, bits));
}

/// Flat indices into rows of equal width stay in range and tell their row and place.
pub proof fn lemma_flat_index(row: int, place: int, rows: int, width: int)
    requires
        0 <= row < rows,
        0 <= place < width,
    ensures
        0 <= row * width + place < rows * width,
        (row * width + place) / width == row,
        (row * width + place) % width == place,
{
    assert(row * width + place < rows * width) by (nonlinear_arith)
        requires
            0 <= row < rows,
            0 <= place < width,
    ;
    assert(0 <= row * width) by (nonlinear_arith)
        requires
            0 <= row,
            0 <= width,
    ;
    vstd::arithmetic::div_mod::lemma_fundamental_div_mod_converse(
        row * width + place,
        width,
        row,
        place,
    );
}

/// The number of words that hold `bits` bits.
pub fn word_count(bits: usize) -> (count: usize)
    ensures
        count == words_for(bits as nat),
        count <= bits,
{
    if bits % 64 == 0 {
        bits / 64
    } else {
        bits / 64 + 1
    }
}

} // verus!
