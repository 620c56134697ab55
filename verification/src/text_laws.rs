//! How the numbers on the screen are read.
use crate::text::{append_number, decimal, digit_text};
use vstd::prelude::*;

verus! {

/// Whether a character is a digit.
pub open spec fn is_digit(c: char) -> bool {
    '0' <= c && c <= '9'
}

/// The number that the digits stand for: each counts ten times what the next one counts.
pub open spec fn value_of(digits: Seq<char>) -> int
    decreases digits.len(),
{
    if digits.len() == 0 {
        0
    } else {
        10 * value_of(digits.drop_last()) + (digits.last() as int - '0' as int)
    }
}

/// Whether a text is the numeral of a number: digits that stand for it, and no zero in front.
pub open spec fn is_numeral_of(text: Seq<char>, n: int) -> bool {
    &&& text.len() > 0
    &&& forall|i: int| 0 <= i < text.len() ==> is_digit(#[trigger] text[i])
    &&& text.len() > 1 ==> text[0] != '0'
    &&& value_of(text) == n
}

proof fn lemma_digit(d: nat)
    requires
        d < 10,
    ensures
        digit_text(d).len() == 1,
        is_digit(digit_text(d)[0]),
        digit_text(d)[0] as int == '0' as int + d,
{
    reveal_strlit("0");
    reveal_strlit("1");
    reveal_strlit("2");
    reveal_strlit("3");
    reveal_strlit("4");
    reveal_strlit("5");
    reveal_strlit("6");
    reveal_strlit("7");
    reveal_strlit("8");
    reveal_strlit("9");
}

/// A number in decimal notation is read as that number.
pub proof fn lemma_decimal_is_read(n: nat)
    ensures
        is_numeral_of(decimal(n), n as int),
    decreases n,
{
    lemma_digit(n % 10);
    let text = decimal(n);
    if n < 10 {
        assert(text.drop_last() =~= Seq::empty());
        assert(value_of(text.drop_last()) == 0);
    } else {
        lemma_decimal_is_read(n / 10);
        let most = decimal(n / 10);
        assert(text.drop_last() =~= most);
        assert(text.last() == digit_text(n % 10)[0]);
        assert forall|i: int| 0 <= i < text.len() implies is_digit(#[trigger] text[i]) by {
            if i < most.len() {
                assert(text[i] == most[i]);
            }
        }
        if text[0] == '0' {
            assert(most[0] == '0');
            assert(most.len() == 1);
            assert(most.drop_last() =~= Seq::empty());
            assert(value_of(most.drop_last()) == 0);
            assert(value_of(most) == 0);
        }
    }
}

/// The number that is put at the end of a text can be read there, and the text before it stays.
pub proof fn lemma_appended_number_is_read(text: &mut String, n: usize)
    requires
        call_ensures(append_number, (text, n), ()),
    ensures
        old(text)@.is_prefix_of(final(text)@),
        is_numeral_of(final(text)@.skip(old(text)@.len() as int), n as int),
{
    lemma_decimal_is_read(n as nat);
    assert(final(text)@.skip(old(text)@.len() as int) =~= decimal(n as nat));
}

/// Different numbers give different texts.
pub proof fn lemma_different_numbers_differ(
    text: &mut String,
    other: &mut String,
    n: usize,
    m: usize,
)
    requires
        old(text)@ == old(other)@,
        call_ensures(append_number, (text, n), ()),
        call_ensures(append_number, (other, m), ()),
    ensures
        final(text)@ == final(other)@ <==> n == m,
{
    lemma_appended_number_is_read(text, n);
    lemma_appended_number_is_read(other, m);
}

} // verus!
