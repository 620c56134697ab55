//! Lexicographic order, and sorting of indices.
use vstd::prelude::*;

verus! {

/// Whether `a` and `b` agree before place `k`, and `a` goes first because of place `k`.
pub open spec fn lex_lt_at(a: Seq<int>, b: Seq<int>, k: int) -> bool {
    &&& 0 <= k <= a.len()
    &&& k < b.len()
    &&& forall|i: int| 0 <= i < k ==> a[i] == #[trigger] b[i]
    &&& k < a.len() ==> a[k] < b[k]
}

/// Whether `a` precedes `b` in lexicographic order.
pub open spec fn lex_lt(a: Seq<int>, b: Seq<int>) -> bool {
    exists|k: int| lex_lt_at(a, b, k)
}

/// The words of `words` as integers.
pub open spec fn word_values(words: Seq<u64>) -> Seq<int> {
    words.map_values(|word: u64| word as int)
}

/// The numbers of `numbers` as integers.
pub open spec fn number_values(numbers: Seq<usize>) -> Seq<int> {
    numbers.map_values(|number: usize| number as int)
}

pub proof fn lemma_lex_asymmetric(a: Seq<int>, b: Seq<int>)
    ensures
        !(lex_lt(a, b) && lex_lt(b, a)),
        !lex_lt(a, a),
{
    if lex_lt(a, b) && lex_lt(b, a) {
        let j = choose|k: int| lex_lt_at(a, b, k);
        let k = choose|k: int| lex_lt_at(b, a, k);
        if j < k {
            assert(b[j] == a[j]);
        } else if k < j {
            assert(a[k] == b[k]);
        }
    }
    if lex_lt(a, a) {
        let j = choose|k: int| lex_lt_at(a, a, k);
    }
}

pub proof fn lemma_lex_transitive(a: Seq<int>, b: Seq<int>, c: Seq<int>)
    requires
        lex_lt(a, b),
        lex_lt(b, c),
    ensures
        lex_lt(a, c),
{
    let j = choose|k: int| lex_lt_at(a, b, k);
    let k = choose|k: int| lex_lt_at(b, c, k);
    if j <= k {
        assert forall|i: int| 0 <= i < j implies a[i] == #[trigger] c[i] by {
            assert(a[i] == b[i]);
        }
        if j < k {
            assert(b[j] == c[j]);
        }
        assert(lex_lt_at(a, c, j));
    } else {
        assert forall|i: int| 0 <= i < k implies a[i] == #[trigger] c[i] by {
            assert(a[i] == b[i]);
        }
        assert(a[k] == b[k]);
        assert(lex_lt_at(a, c, k));
    }
}

proof fn lemma_lex_total_from(a: Seq<int>, b: Seq<int>, from: int)
    requires
        0 <= from <= a.len(),
        from <= b.len(),
        forall|i: int| 0 <= i < from ==> a[i] == #[trigger] b[i],
    ensures
        lex_lt(a, b) || lex_lt(b, a) || a == b,
    decreases a.len() - from,
{
    if from == a.len() {
        if from == b.len() {
            assert(a =~= b);
        } else {
            assert(lex_lt_at(a, b, from));
        }
    } else if from == b.len() {
        assert(lex_lt_at(b, a, from));
    } else if a[from] == b[from] {
        lemma_lex_total_from(a, b, from + 1);
    } else if a[from] < b[from] {
        assert(lex_lt_at(a, b, from));
    } else {
        assert(lex_lt_at(b, a, from));
    }
}

pub proof fn lemma_lex_total(a: Seq<int>, b: Seq<int>)
    ensures
        lex_lt(a, b) || lex_lt(b, a) || a == b,
{
    lemma_lex_total_from(a, b, 0);
}

/// Sequences of words with the same values are equal.
pub proof fn lemma_word_values_injective(a: Seq<u64>, b: Seq<u64>)
    requires
        word_values(a) == word_values(b),
    ensures
        a == b,
{
    assert(a.len() == word_values(a).len());
    assert(b.len() == word_values(b).len());
    assert forall|i: int| 0 <= i < a.len() implies a[i] == b[i] by {
        assert(word_values(a)[i] == a[i]);
        assert(word_values(b)[i] == b[i]);
    }
    assert(a =~= b);
}

/// Sequences of numbers with the same values are equal.
pub proof fn lemma_number_values_injective(a: Seq<usize>, b: Seq<usize>)
    requires
        number_values(a) == number_values(b),
    ensures
        a == b,
{
    assert(a.len() == number_values(a).len());
    assert(b.len() == number_values(b).len());
    assert forall|i: int| 0 <= i < a.len() implies a[i] == b[i] by {
        assert(number_values(a)[i] == a[i]);
        assert(number_values(b)[i] == b[i]);
    }
    assert(a =~= b);
}

/// Whether the words of `a` precede those of `b`.
pub fn words_precede(a: &[u64], b: &[u64]) -> (precede: bool)
    ensures
        precede == lex_lt(word_values(a@), word_values(b@)),
{
    let ghost x = word_values(a@);
    let ghost y = word_values(b@);
    let mut k: usize = 0;
    while k < a.len() && k < b.len()
        invariant
            k <= a@.len(),
            k <= b@.len(),
            x == word_values(a@),
            y == word_values(b@),
            forall|i: int| 0 <= i < k ==> x[i] == #[trigger] y[i],
        decreases a@.len() - k,
    {
        if a[k] != b[k] {
            proof {
                assert(x[k as int] == a@[k as int] && y[k as int] == b@[k as int]);
                lemma_lex_asymmetric(x, y);
                if a@[k as int] < b@[k as int] {
                    assert(lex_lt_at(x, y, k as int));
                } else {
                    assert(lex_lt_at(y, x, k as int));
                }
            }
            return a[k] < b[k];
        }
        k = k + 1;
    }
    proof {
        lemma_lex_asymmetric(x, y);
        if k < y.len() {
            assert(lex_lt_at(x, y, k as int));
        } else if k < x.len() {
            assert(lex_lt_at(y, x, k as int));
        } else {
            assert(x =~= y);
        }
    }
    k < b.len()
}

/// Whether the numbers of `a` precede those of `b`.
pub fn numbers_precede(a: &[usize], b: &[usize]) -> (precede: bool)
    ensures
        precede == lex_lt(number_values(a@), number_values(b@)),
{
    let ghost x = number_values(a@);
    let ghost y = number_values(b@);
    let mut k: usize = 0;
    while k < a.len() && k < b.len()
        invariant
            k <= a@.len(),
            k <= b@.len(),
            x == number_values(a@),
            y == number_values(b@),
            forall|i: int| 0 <= i < k ==> x[i] == #[trigger] y[i],
        decreases a@.len() - k,
    {
        if a[k] != b[k] {
            proof {
                assert(x[k as int] == a@[k as int] && y[k as int] == b@[k as int]);
                lemma_lex_asymmetric(x, y);
                if a@[k as int] < b@[k as int] {
                    assert(lex_lt_at(x, y, k as int));
                } else {
                    assert(lex_lt_at(y, x, k as int));
                }
            }
            return a[k] < b[k];
        }
        k = k + 1;
    }
    proof {
        lemma_lex_asymmetric(x, y);
        if k < y.len() {
            assert(lex_lt_at(x, y, k as int));
        } else if k < x.len() {
            assert(lex_lt_at(y, x, k as int));
        } else {
            assert(x =~= y);
        }
    }
    k < b.len()
}

/// Whether `a` and `b` hold the same words.
pub fn words_equal(a: &[u64], b: &[u64]) -> (equal: bool)
    ensures
        equal == (a@ == b@),
{
    if a.len() != b.len() {
        return false;
    }
    let mut k: usize = 0;
    while k < a.len()
        invariant
            k <= a@.len(),
            a@.len() == b@.len(),
            forall|i: int| 0 <= i < k ==> a@[i] == b@[i],
        decreases a@.len() - k,
    {
        if a[k] != b[k] {
            return false;
        }
        k = k + 1;
    }
    proof {
        assert(a@ =~= b@);
    }
    true
}

/// Whether `a` and `b` hold the same numbers.
pub fn numbers_equal(a: &[usize], b: &[usize]) -> (equal: bool)
    ensures
        equal == (a@ == b@),
{
    if a.len() != b.len() {
        return false;
    }
    let mut k: usize = 0;
    while k < a.len()
        invariant
            k <= a@.len(),
            a@.len() == b@.len(),
            forall|i: int| 0 <= i < k ==> a@[i] == b@[i],
        decreases a@.len() - k,
    {
        if a[k] != b[k] {
            return false;
        }
        k = k + 1;
    }
    proof {
        assert(a@ =~= b@);
    }
    true
}

} // verus!
