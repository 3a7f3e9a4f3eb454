//! Numbers as they are written in decimal digits.

use crate::digest::hex_digit;
use crate::entry::decimal;
use vstd::prelude::*;
use vstd::string::StrSliceExecFns;

verus! {

/// The value of a decimal digit.
pub open spec fn digit_of(c: char) -> Option<u64> {
    if '0' <= c <= '9' {
        Some((c as int - '0' as int) as u64)
    } else {
        None
    }
}

/// The number that decimal digits stand for.
pub open spec fn number_of(digits: Seq<char>) -> nat
    decreases digits.len(),
{
    if digits.len() == 0 {
        0
    } else {
        number_of(digits.drop_last()) * 10 + (digits.last() as int - '0' as int) as nat
    }
}

/// Whether a text is a number as it is written: decimal digits, at least
/// one, and no zero in front of others.
pub open spec fn canonical(digits: Seq<char>) -> bool {
    &&& digits.len() > 0
    &&& forall|i: int| 0 <= i < digits.len() ==> digit_of(#[trigger] digits[i]) is Some
    &&& digits.len() > 1 ==> digits[0] != '0'
}

/// The number that a text stands for, if it is one as it is written and fits
/// in 64 bits.
pub open spec fn parsed_number(digits: Seq<char>) -> Option<u64> {
    if canonical(digits) && number_of(digits) <= u64::MAX {
        Some(number_of(digits) as u64)
    } else {
        None
    }
}

/// The digits that numbers are written with are the decimal digits.
pub proof fn lemma_digits(d: int)
    requires
        0 <= d < 10,
    ensures
        hex_digit(d) as int == '0' as int + d,
        digit_of(hex_digit(d)) == Some(d as u64),
{
    reveal_strlit("0123456789abcdef");
    let table = "0123456789abcdef"@;
    assert(table[0] == '0' && table[1] == '1' && table[2] == '2' && table[3] == '3' && table[4]
        == '4' && table[5] == '5' && table[6] == '6' && table[7] == '7' && table[8] == '8'
        && table[9] == '9');
}

/// A number as it is written stands for itself.
pub proof fn lemma_decimal_parses(n: nat)
    ensures
        canonical(decimal(n)),
        number_of(decimal(n)) == n,
        n > 0 ==> decimal(n)[0] != '0',
    decreases n,
{
    if n < 10 {
        lemma_digits(n as int);
        assert(decimal(n).drop_last() =~= Seq::<char>::empty());
        assert(number_of(decimal(n).drop_last()) == 0);
    } else {
        lemma_decimal_parses(n / 10);
        lemma_digits((n % 10) as int);
        let front = decimal(n / 10);
        let all = decimal(n);
        assert(all.drop_last() =~= front);
        assert(all[0] == front[0]);
        assert forall|i: int| 0 <= i < all.len() implies digit_of(#[trigger] all[i]) is Some by {
            if i < front.len() {
                assert(all[i] == front[i]);
            }
        }
    }
}

/// Digits without a zero in front stand for a number above zero.
proof fn lemma_positive(digits: Seq<char>)
    requires
        canonical(digits),
        digits[0] != '0',
    ensures
        number_of(digits) > 0,
    decreases digits.len(),
{
    if digits.len() == 1 {
        assert(digits.drop_last() =~= Seq::<char>::empty());
        assert(number_of(digits.drop_last()) == 0);
        assert(digit_of(digits[0]) is Some);
    } else {
        let front = digits.drop_last();
        assert forall|i: int| 0 <= i < front.len() implies digit_of(#[trigger] front[i]) is Some by {
            assert(front[i] == digits[i]);
        }
        assert(front[0] == digits[0]);
        lemma_positive(front);
    }
}

/// A number is written in one way only: what stands for it as a number is
/// written, is it as it is written.
pub proof fn lemma_parses_decimal(digits: Seq<char>)
    requires
        canonical(digits),
    ensures
        decimal(number_of(digits)) == digits,
    decreases digits.len(),
{
    let last = digits.last();
    let d = last as int - '0' as int;
    assert(digit_of(digits[digits.len() - 1]) is Some);
    lemma_digits(d);
    if digits.len() == 1 {
        assert(digits.drop_last() =~= Seq::<char>::empty());
        assert(number_of(digits.drop_last()) == 0);
        assert(decimal(number_of(digits)) =~= digits);
    } else {
        let front = digits.drop_last();
        assert forall|i: int| 0 <= i < front.len() implies digit_of(#[trigger] front[i]) is Some by {
            assert(front[i] == digits[i]);
        }
        assert(front[0] == digits[0]);
        lemma_positive(front);
        lemma_parses_decimal(front);
        let n = number_of(digits);
        assert(n == number_of(front) * 10 + d);
        assert(n >= 10);
        assert(n / 10 == number_of(front));
        assert(n % 10 == d);
        assert(decimal(n) =~= digits);
    }
}

/// The number of more digits is no smaller.
proof fn lemma_number_grows(digits: Seq<char>, shorter: int, longer: int)
    requires
        0 <= shorter <= longer <= digits.len(),
        forall|i: int| 0 <= i < digits.len() ==> digit_of(#[trigger] digits[i]) is Some,
    ensures
        number_of(digits.take(shorter)) <= number_of(digits.take(longer)),
    decreases longer - shorter,
{
    if shorter < longer {
        lemma_number_grows(digits, shorter, longer - 1);
        assert(digits.take(longer).drop_last() =~= digits.take(longer - 1));
        assert(digit_of(digits[longer - 1]) is Some);
        assert(digits.take(longer).last() == digits[longer - 1]);
    }
}

/// The value of a character as a decimal digit, if it is one.
pub fn digit_value(c: char) -> (value: Option<u64>)
    ensures
        value == digit_of(c),
{
    match c {
        '0' => Some(0),
        '1' => Some(1),
        '2' => Some(2),
        '3' => Some(3),
        '4' => Some(4),
        '5' => Some(5),
        '6' => Some(6),
        '7' => Some(7),
        '8' => Some(8),
        '9' => Some(9),
        _ => None,
    }
}

/// Reads a number as it is written.
pub fn parse_number(text: &str) -> (number: Option<u64>)
    ensures
        number == parsed_number(text@),
{
    let length = text.unicode_len();
    if length == 0 {
        return None;
    }
    let mut value: u64 = 0;
    let mut i: usize = 0;
    while i < length
        invariant
            i <= length,
            length == text@.len(),
            forall|j: int| 0 <= j < i ==> digit_of(#[trigger] text@[j]) is Some,
            i > 0 && length > 1 ==> text@[0] != '0',
            value == number_of(text@.take(i as int)),
        decreases length - i,
    {
        let digit = match digit_value(text.get_char(i)) {
            Some(d) => d,
            None => { return None; },
        };
        if i == 0 && digit == 0 && length > 1 {
            return None;
        }
        proof {
            assert(text@.take(i + 1).drop_last() =~= text@.take(i as int));
            assert(text@.take(i + 1).last() == text@[i as int]);
        }
        if value > (u64::MAX - digit) / 10 {
            proof {
                if canonical(text@) {
                    lemma_number_grows(text@, i + 1, length as int);
                    assert(text@.take(length as int) =~= text@);
                }
            }
            return None;
        }
        value = value * 10 + digit;
        i += 1;
    }
    assert(text@.take(i as int) =~= text@);
    Some(value)
}

} // verus!
