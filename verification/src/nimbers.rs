//! Sets of nimbers.
use crate::bits::{has_bit, lemma_lowest_bit, lemma_not_bits, lemma_or_bits, lemma_single_bit};
use crate::bits::{lemma_zero_bits, word_count, words_for};
use vstd::prelude::*;

verus! {

/// A set of nimbers, as a growing list of bits.
#[derive(Debug)]
pub struct NimberSet {
    words: Vec<u64>,
}

impl View for NimberSet {
    type V = Set<int>;

    closed spec fn view(&self) -> Set<int> {
        Set::new(
            |n: int| 0 <= n < 64 * self.words@.len() && has_bit(self.words@[n / 64], n % 64),
        )
    }
}

impl NimberSet {
    /// Whether the bits stand for machine words only.
    pub closed spec fn wf(&self) -> bool {
        64 * self.words@.len() <= usize::MAX + 1
    }

    /// How many numbers, from zero on, the list has bits for.
    pub closed spec fn room(&self) -> nat {
        64 * self.words@.len()
    }

    /// An empty set with room for the numbers below `bit_count`, in whole words.
    pub fn new(bit_count: usize) -> (set: Self)
        ensures
            set.wf(),
            set@ == Set::<int>::empty(),
            set.room() == 64 * words_for(bit_count as nat),
    {
        let set = NimberSet { words: vec![0; word_count(bit_count)] };
        proof {
            lemma_zero_bits();
            lemma_word_limit();
            assert(set@ =~= Set::<int>::empty());
        }
        set
    }

    pub fn insert(&mut self, nimber: usize)
        requires
            old(self).wf(),
        ensures
            final(self).wf(),
            final(self)@ == old(self)@.insert(nimber as int),
    {
        proof {
            lemma_word_limit();
            lemma_zero_bits();
        }
        if nimber / 64 >= self.words.len() {
            self.words.resize(nimber / 64 + 1, 0);
        }
        let ghost grown = self.words@;
        proof {
            assert forall|n: int| 0 <= n < 64 * grown.len() implies has_bit(
                #[trigger] grown[n / 64],
                n % 64,
            ) == old(self)@.contains(n) by {}
        }
        let word: u64 = self.words[nimber / 64];
        let bit: u64 = 1u64 << (nimber % 64) as u64;
        self.words.set(nimber / 64, word | bit);
        proof {
            lemma_single_bit((nimber % 64) as u64);
            lemma_or_bits(word, bit);
            assert forall|n: int| self@.contains(n) <==> old(self)@.insert(nimber as int).contains(
                n,
            ) by {
                if 0 <= n < 64 * grown.len() {
                    assert(has_bit(grown[n / 64], n % 64) == old(self)@.contains(n));
                    if n / 64 == nimber / 64 {
                        assert(has_bit(word | bit, n % 64) == (has_bit(word, n % 64) || has_bit(
                            bit,
                            n % 64,
                        )));
                    }
                }
            }
            assert(self@ =~= old(self)@.insert(nimber as int));
        }
    }

    pub fn union_with(&mut self, other: &Self)
        requires
            old(self).wf(),
            other.wf(),
        ensures
            final(self).wf(),
            final(self)@ == old(self)@.union(other@),
    {
        proof {
            lemma_zero_bits();
        }
        if other.words.len() > self.words.len() {
            self.words.resize(other.words.len(), 0);
        }
        let ghost grown = self.words@;
        proof {
            assert forall|n: int| 0 <= n < 64 * grown.len() implies has_bit(
                #[trigger] grown[n / 64],
                n % 64,
            ) == old(self)@.contains(n) by {}
        }
        let mut k: usize = 0;
        while k < other.words.len()
            invariant
                other.wf(),
                k <= other.words@.len() <= self.words@.len(),
                self.words@.len() == grown.len(),
                64 * grown.len() <= usize::MAX + 1,
                forall|w: int, i: int|
                    0 <= w < grown.len() ==> #[trigger] has_bit(self.words@[w], i) == (has_bit(
                        grown[w],
                        i,
                    ) || (w < k && has_bit(other.words@[w], i))),
            decreases other.words@.len() - k,
        {
            let left: u64 = self.words[k];
            let right: u64 = other.words[k];
            proof {
                lemma_or_bits(left, right);
                assert forall|i: int| #[trigger] has_bit(left, i) == has_bit(grown[k as int], i) by {
                    assert(has_bit(self.words@[k as int], i) == (has_bit(grown[k as int], i) || (k
                        < k && has_bit(other.words@[k as int], i))));
                }
            }
            let ghost before = self.words@;
            self.words.set(k, left | right);
            proof {
                assert forall|w: int, i: int| 0 <= w < grown.len() implies #[trigger] has_bit(
                    self.words@[w],
                    i,
                ) == (has_bit(grown[w], i) || (w < k + 1 && has_bit(other.words@[w], i))) by {
                    assert(has_bit(before[w], i) == (has_bit(grown[w], i) || (w < k && has_bit(
                        other.words@[w],
                        i,
                    ))));
                    if w == k {
                        assert(has_bit(left | right, i) == (has_bit(left, i) || has_bit(right, i)));
                    }
                }
            }
            k = k + 1;
        }
        proof {
            assert forall|n: int| self@.contains(n) <==> old(self)@.union(other@).contains(n) by {
                if 0 <= n < 64 * grown.len() {
                    assert(has_bit(grown[n / 64], n % 64) == old(self)@.contains(n));
                    assert(has_bit(self.words@[n / 64], n % 64) == (has_bit(grown[n / 64], n % 64)
                        || (n / 64 < k && has_bit(other.words@[n / 64], n % 64))));
                }
            }
            assert(self@ =~= old(self)@.union(other@));
        }
    }

    /// The least number that is not in the set, or the largest machine word if all are.
    pub fn mex(&self) -> (least: usize)
        requires
            self.wf(),
        ensures
            forall|m: int| 0 <= m < least ==> #[trigger] self@.contains(m),
            self@.contains(least as int) ==> least == usize::MAX,
    {
        let mut index: usize = 0;
        proof {
            lemma_word_limit();
        }
        while index < self.words.len()
            invariant
                self.wf(),
                64 * (usize::MAX / 64 + 1) == usize::MAX + 1,
                index <= self.words@.len(),
                forall|m: int| 0 <= m < 64 * index ==> #[trigger] self@.contains(m),
            decreases self.words@.len() - index,
        {
            let word: u64 = self.words[index];
            let missing: u64 = !word;
            proof {
                lemma_not_bits(word);
            }
            if missing != 0 {
                proof {
                    lemma_lowest_bit(missing);
                    let low = vstd::std_specs::bits::u64_trailing_zeros(missing) as int;
                    assert forall|m: int| 0 <= m < 64 * index + low implies
                        #[trigger] self@.contains(m) by {
                        if m >= 64 * index {
                            assert(!has_bit(missing, m - 64 * index));
                            assert(has_bit(word, m - 64 * index));
                            assert(m / 64 == index && m % 64 == m - 64 * index);
                        }
                    }
                    assert(has_bit(missing, low));
                    assert(!has_bit(word, low));
                    assert((64 * index + low) / 64 == index && (64 * index + low) % 64 == low);
                }
                return index * 64 + missing.trailing_zeros() as usize;
            }
            proof {
                assert forall|m: int| 0 <= m < 64 * (index + 1) implies #[trigger] self@.contains(
                    m,
                ) by {
                    if m >= 64 * index {
                        lemma_zero_bits();
                        assert(!has_bit(missing, m - 64 * index));
                        assert(has_bit(word, m - 64 * index));
                        assert(m / 64 == index && m % 64 == m - 64 * index);
                    }
                }
            }
            index = index + 1;
        }
        if self.words.len() > usize::MAX / 64 {
            return usize::MAX;
        }
        self.words.len() * 64
    }

    /// Whether `nimber` is in the set.
    pub fn contains(&self, nimber: usize) -> (contained: bool)
        ensures
            contained == self@.contains(nimber as int),
    {
        if nimber / 64 >= self.words.len() {
            return false;
        }
        let word: u64 = self.words[nimber / 64];
        proof {
            crate::bits::lemma_test_bit(word, (nimber % 64) as u64);
        }
        word & (1u64 << (nimber % 64) as u64) != 0
    }
}

impl Clone for NimberSet {
    fn clone(&self) -> (copy: Self)
        ensures
            copy@ == self@,
            self.wf() ==> copy.wf(),
    {
        let copy = NimberSet { words: self.words.clone() };
        proof {
            assert(copy.words@ =~= self.words@);
            assert(copy@ =~= self@);
        }
        copy
    }
}

impl Default for NimberSet {
    fn default() -> (set: Self)
        ensures
            set.wf(),
            set@ == Set::<int>::empty(),
    {
        NimberSet::new(0)
    }
}

/// Machine words fill whole words of 64 bits.
proof fn lemma_word_limit()
    ensures
        64 * (usize::MAX / 64 + 1) == usize::MAX + 1,
{
    assert(usize::BITS == 32 || usize::BITS == 64);
    assert(usize::MAX == 0xffff_ffff || usize::MAX == 0xffff_ffff_ffff_ffff);
}

} // verus!
