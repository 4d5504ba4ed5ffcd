//! Numbers as decimal digits.

use vstd::prelude::*;
use vstd::string::StringExecFns;
use crate::text::string_of;

verus! {

/// The decimal digit `d` as a character.
pub open spec fn digit_char(d: int) -> char {
    if d == 0 {
        '0'
    } else if d == 1 {
        '1'
    } else if d == 2 {
        '2'
    } else if d == 3 {
        '3'
    } else if d == 4 {
        '4'
    } else if d == 5 {
        '5'
    } else if d == 6 {
        '6'
    } else if d == 7 {
        '7'
    } else if d == 8 {
        '8'
    } else {
        '9'
    }
}

/// Whether `c` is one of the ten decimal digits.
pub open spec fn is_digit(c: char) -> bool {
    48 <= c as u32 <= 57
}

/// The number that the decimal digit `c` stands for.
pub open spec fn digit_value(c: char) -> int {
    c as u32 - 48
}

/// The character of the decimal digit `d`.
pub fn digit_to_char(d: u32) -> (c: char)
    requires
        d <= 9,
    ensures
        c == digit_char(d as int),
        is_digit(c),
        digit_value(c) == d,
{
    if d == 0 {
        '0'
    } else if d == 1 {
        '1'
    } else if d == 2 {
        '2'
    } else if d == 3 {
        '3'
    } else if d == 4 {
        '4'
    } else if d == 5 {
        '5'
    } else if d == 6 {
        '6'
    } else if d == 7 {
        '7'
    } else if d == 8 {
        '8'
    } else {
        '9'
    }
}

/// The number of the decimal digit `c`, if `c` is one.
pub fn char_to_digit(c: char) -> (res: Option<u32>)
    ensures
        res is Some <==> is_digit(c),
        res matches Some(v) ==> v == digit_value(c),
{
    let v: u32 = c as u32;
    if 48 <= v && v <= 57 {
        Some(v - 48)
    } else {
        None
    }
}

/// The decimal digits of `n`, without leading zeros.
pub open spec fn decimal(n: nat) -> Seq<char>
    decreases n,
{
    if n < 10 {
        seq![digit_char(n as int)]
    } else {
        decimal(n / 10).push(digit_char((n % 10) as int))
    }
}

/// The number that a string of decimal digits stands for.
pub open spec fn digits_value(s: Seq<char>) -> nat
    decreases s.len(),
{
    if s.len() == 0 {
        0
    } else {
        (digits_value(s.drop_last()) * 10 + digit_value(s.last())) as nat
    }
}

/// Every character of `s` is a decimal digit.
pub open spec fn all_digits(s: Seq<char>) -> bool {
    forall|i: int| 0 <= i < s.len() ==> is_digit(#[trigger] s[i])
}

/// `k` zeros.
pub open spec fn zeros(k: nat) -> Seq<char> {
    Seq::new(k, |i: int| '0')
}

/// The decimal digits of a number are digits and stand for that number.
pub proof fn lemma_decimal(n: nat)
    ensures
        decimal(n).len() >= 1,
        all_digits(decimal(n)),
        digits_value(decimal(n)) == n,
    decreases n,
{
    if n < 10 {
        let s = decimal(n);
        assert(s.drop_last() =~= Seq::<char>::empty());
        assert(digits_value(s.drop_last()) == 0);
    } else {
        lemma_decimal(n / 10);
        let s = decimal(n);
        assert(s.drop_last() =~= decimal(n / 10));
    }
}

/// Zeros are digits and stand for zero.
pub proof fn lemma_zeros_value(k: nat)
    ensures
        digits_value(zeros(k)) == 0,
        all_digits(zeros(k)),
    decreases k,
{
    if k > 0 {
        lemma_zeros_value((k - 1) as nat);
        assert(zeros(k).drop_last() =~= zeros((k - 1) as nat));
    }
}

/// Zeros in front do not change the number.
pub proof fn lemma_leading_zeros(k: nat, s: Seq<char>)
    requires
        all_digits(s),
    ensures
        all_digits(zeros(k) + s),
        digits_value(zeros(k) + s) == digits_value(s),
    decreases s.len(),
{
    lemma_zeros_value(k);
    if s.len() == 0 {
        assert(zeros(k) + s =~= zeros(k));
    } else {
        let front = s.drop_last();
        assert forall|i: int| 0 <= i < front.len() implies is_digit(#[trigger] front[i]) by {
            assert(front[i] == s[i]);
        }
        lemma_leading_zeros(k, front);
        assert((zeros(k) + s).drop_last() =~= zeros(k) + front);
        assert forall|i: int| 0 <= i < (zeros(k) + s).len() implies is_digit(
            #[trigger] (zeros(k) + s)[i],
        ) by {
            if i >= k {
                assert((zeros(k) + s)[i] == s[i - k]);
            } else {
                assert((zeros(k) + s)[i] == zeros(k)[i]);
            }
        }
    }
}

/// A longer string of digits does not stand for a smaller number than its
/// beginning does.
pub proof fn lemma_digits_value_monotone(s: Seq<char>, i: int)
    requires
        0 <= i <= s.len(),
        all_digits(s),
    ensures
        digits_value(s.subrange(0, i)) <= digits_value(s),
    decreases s.len() - i,
{
    if i == s.len() {
        assert(s.subrange(0, i) =~= s);
    } else {
        let front = s.drop_last();
        assert forall|j: int| 0 <= j < front.len() implies is_digit(#[trigger] front[j]) by {
            assert(front[j] == s[j]);
        }
        lemma_digits_value_monotone(front, i);
        assert(front.subrange(0, i) =~= s.subrange(0, i));
        assert(is_digit(s[s.len() - 1]));
    }
}

/// The decimal digits of `n`.
pub fn format_u64(n: u64) -> (res: String)
    ensures
        res@ == decimal(n as nat),
{
    let mut digits: Vec<char> = Vec::new();
    let mut m: u64 = n;
    while m >= 10
        invariant
            decimal(n as nat) == decimal(m as nat) + digits@,
        decreases m,
    {
        let c = digit_to_char((m % 10) as u32);
        let ghost lower = digits@;
        digits.insert(0, c);
        proof {
            let rest = decimal((m / 10) as nat);
            assert(decimal(m as nat) == rest.push(c));
            assert(digits@ =~= seq![c] + lower);
            assert(rest.push(c) + lower =~= rest + digits@);
        }
        m = m / 10;
    }
    let c = digit_to_char(m as u32);
    digits.insert(0, c);
    assert(digits@ =~= decimal(n as nat));
    let res = string_of(&digits, 0, digits.len());
    assert(digits@.subrange(0, digits@.len() as int) =~= digits@);
    res
}

/// The decimal form of `v`: a minus sign before the digits of a negative
/// number.
pub open spec fn signed_decimal(v: int) -> Seq<char> {
    if v < 0 {
        seq!['-'] + decimal((-v) as nat)
    } else {
        decimal(v as nat)
    }
}

/// The decimal form of `v`.
pub fn format_i64(v: i64) -> (res: String)
    ensures
        res@ == signed_decimal(v as int),
{
    if v >= 0 {
        format_u64(v as u64)
    } else {
        let magnitude: u64 = ((-(v + 1)) as u64) + 1;
        let digits = format_u64(magnitude);
        let mut res = String::from_str("-");
        proof {
            reveal_strlit("-");
            assert("-"@ =~= seq!['-']);
        }
        res.append(digits.as_str());
        res
    }
}

} // verus!
