//! Numbers as text.

use vstd::prelude::*;
use vstd::string::*;

verus! {

/// The character of a decimal digit.
pub open spec fn digit(d: nat) -> char {
    if d == 0 {
        '0'
    } else if d == 1 {
        '1'
    } else if d == 2 {
        '2'
    } else if d == 3 {
        '3'
    } else if d == 4 {
        '4'
    } else if d == 5 {
        '5'
    } else if d == 6 {
        '6'
    } else if d == 7 {
        '7'
    } else if d == 8 {
        '8'
    } else {
        '9'
    }
}

/// A number in decimal notation, without leading zeros.
pub open spec fn decimal(n: nat) -> Seq<char>
    decreases n,
{
    if n < 10 {
        seq![digit(n)]
    } else {
        decimal(n / 10).push(digit(n % 10))
    }
}

/// The numbers in decimal notation, separated by a comma and a blank.
pub open spec fn decimals(numbers: Seq<usize>) -> Seq<char>
    decreases numbers.len(),
{
    if numbers.len() == 0 {
        Seq::empty()
    } else if numbers.len() == 1 {
        decimal(numbers[0] as nat)
    } else {
        decimals(numbers.drop_last()) + ", "@ + decimal(numbers.last() as nat)
    }
}

/// Gives the text of a decimal digit.
fn digit_text(d: usize) -> (text: &'static str)
    requires
        d < 10,
    ensures
        text@ == seq![digit(d as nat)],
{
    proof {
        reveal_strlit("0");
        reveal_strlit("1");
        reveal_strlit("2");
        reveal_strlit("3");
        reveal_strlit("4");
        reveal_strlit("5");
        reveal_strlit("6");
        reveal_strlit("7");
        reveal_strlit("8");
        reveal_strlit("9");
    }
    let text = if d == 0 {
        "0"
    } else if d == 1 {
        "1"
    } else if d == 2 {
        "2"
    } else if d == 3 {
        "3"
    } else if d == 4 {
        "4"
    } else if d == 5 {
        "5"
    } else if d == 6 {
        "6"
    } else if d == 7 {
        "7"
    } else if d == 8 {
        "8"
    } else {
        "9"
    };
    assert(text@ =~= seq![digit(d as nat)]);
    text
}

/// Appends a number in decimal notation to `text`.
pub fn append_decimal(text: &mut String, n: usize)
    ensures
        final(text)@ == old(text)@ + decimal(n as nat),
    decreases n,
{
    if n < 10 {
        text.append(digit_text(n));
    } else {
        append_decimal(text, n / 10);
        text.append(digit_text(n % 10));
        assert(text@ =~= old(text)@ + decimal(n as nat));
    }
}

/// Appends numbers in decimal notation, separated by a comma and a blank,
/// to `text`.
pub fn append_decimals(text: &mut String, numbers: &[usize])
    ensures
        final(text)@ == old(text)@ + decimals(numbers@),
{
    let mut i: usize = 0;
    assert(numbers@.take(0) =~= Seq::<usize>::empty());
    assert(text@ =~= old(text)@ + decimals(numbers@.take(0)));
    while i < numbers.len()
        invariant
            i <= numbers@.len(),
            text@ == old(text)@ + decimals(numbers@.take(i as int)),
        decreases numbers@.len() - i,
    {
        let ghost before = text@;
        if i > 0 {
            text.append(", ");
        }
        append_decimal(text, numbers[i]);
        proof {
            assert(numbers@.take(i + 1).drop_last() =~= numbers@.take(i as int));
            assert(numbers@.take(i + 1).last() == numbers@[i as int]);
            if i == 0 {
                assert(numbers@.take(1)[0] == numbers@[0]);
                assert(decimals(numbers@.take(0)) =~= Seq::<char>::empty());
            }
            assert(text@ =~= old(text)@ + decimals(numbers@.take(i + 1)));
        }
        i += 1;
    }
    assert(numbers@.take(i as int) =~= numbers@);
}

} // verus!
