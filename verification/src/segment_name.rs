//! Segment names: `enso-`, the segment's number in decimal with at least four
//! digits, and `.log`.

use vstd::prelude::*;
use crate::decimal::{
    all_digits, char_to_digit, decimal, digit_to_char, digits_value, is_digit,
    lemma_decimal, lemma_digits_value_monotone, lemma_leading_zeros, zeros,
};
use crate::text::{string_of, to_chars};

verus! {

/// What every segment's name begins with.
pub open spec fn name_prefix() -> Seq<char> {
    seq!['e', 'n', 's', 'o', '-']
}

/// What the name of a segment's log ends with.
pub open spec fn log_suffix() -> Seq<char> {
    seq!['.', 'l', 'o', 'g']
}

/// What the name of a segment's sidecar index ends with.
pub open spec fn idx_suffix() -> Seq<char> {
    seq!['.', 'i', 'd', 'x']
}

/// The decimal digits of `n`, with zeros in front up to four digits.
pub open spec fn padded(n: nat) -> Seq<char> {
    let d = decimal(n);
    if d.len() >= 4 {
        d
    } else {
        zeros((4 - d.len()) as nat) + d
    }
}

/// The name of segment number `n`.
pub open spec fn segment_name(n: nat) -> Seq<char> {
    name_prefix() + padded(n) + log_suffix()
}

/// The digits between `enso-` and `.log` in `name`.
pub open spec fn name_digits(name: Seq<char>) -> Seq<char> {
    name.subrange(5, name.len() - 4)
}

/// The number of the segment that `name` names, if it is a segment name
/// with a number of at most 32 bits.
pub open spec fn segment_number(name: Seq<char>) -> Option<nat> {
    if name.len() >= 10 && name.subrange(0, 5) == name_prefix() && name.subrange(
        name.len() - 4,
        name.len() as int,
    ) == log_suffix() && all_digits(name_digits(name)) && digits_value(name_digits(name))
        <= u32::MAX {
        Some(digits_value(name_digits(name)))
    } else {
        None
    }
}

/// Every name is a segment's name, and the numbers grow along the list.
pub open spec fn names_numbered(names: Seq<Seq<char>>) -> bool {
    &&& forall|i: int| 0 <= i < names.len() ==> segment_number(#[trigger] names[i]) is Some
    &&& forall|i: int, j: int|
        0 <= i < j < names.len() ==> segment_number(names[i])->0 < segment_number(names[j])->0
}

/// The active segment stands last in a list of `len` segments, or first of two.
pub open spec fn active_placed(active: int, len: int) -> bool {
    0 <= active < len && (active == len - 1 || (len == 2 && active == 0))
}

/// The name of the sidecar index of the segment that `name` names.
pub open spec fn sidecar_name(name: Seq<char>) -> Seq<char> {
    name.subrange(0, name.len() - 4) + idx_suffix()
}

/// The name of a segment names that segment.
pub proof fn lemma_segment_name_number(n: nat)
    requires
        n <= u32::MAX,
    ensures
        segment_number(segment_name(n)) == Some(n),
        segment_name(n).len() >= 13,
{
    lemma_decimal(n);
    let d = decimal(n);
    let p = padded(n);
    if d.len() < 4 {
        lemma_leading_zeros((4 - d.len()) as nat, d);
    }
    let name = segment_name(n);
    assert(name.subrange(0, 5) =~= name_prefix());
    assert(name.subrange(name.len() - 4, name.len() as int) =~= log_suffix());
    assert(name_digits(name) =~= p);
}

/// The number of the segment that `name` names.
pub fn parse_segment_number(name: &str) -> (res: Option<u32>)
    ensures
        match res {
            Some(n) => segment_number(name@) == Some(n as nat),
            None => segment_number(name@) is None,
        },
{
    let chars = to_chars(name);
    let n = chars.len();
    if n < 10 {
        return None;
    }
    if chars[0] != 'e' || chars[1] != 'n' || chars[2] != 's' || chars[3] != 'o' || chars[4]
        != '-' {
        assert(name@.subrange(0, 5)[0] == name@[0]);
        assert(name@.subrange(0, 5)[1] == name@[1]);
        assert(name@.subrange(0, 5)[2] == name@[2]);
        assert(name@.subrange(0, 5)[3] == name@[3]);
        assert(name@.subrange(0, 5)[4] == name@[4]);
        return None;
    }
    if chars[n - 4] != '.' || chars[n - 3] != 'l' || chars[n - 2] != 'o' || chars[n - 1] != 'g' {
        let ghost tail = name@.subrange(n - 4, n as int);
        assert(tail[0] == name@[n - 4]);
        assert(tail[1] == name@[n - 3]);
        assert(tail[2] == name@[n - 2]);
        assert(tail[3] == name@[n - 1]);
        return None;
    }
    assert(name@.subrange(0, 5) =~= name_prefix());
    assert(name@.subrange(n - 4, n as int) =~= log_suffix());
    let ghost digits = name_digits(name@);
    let mut acc: u64 = 0;
    let mut i: usize = 5;
    while i < n - 4
        invariant
            chars@ == name@,
            n == chars@.len(),
            n >= 10,
            5 <= i <= n - 4,
            digits == name_digits(name@),
            acc == digits_value(digits.subrange(0, i - 5)),
            acc <= u32::MAX,
            all_digits(digits.subrange(0, i - 5)),
        decreases n - i,
    {
        let ghost before = digits.subrange(0, i - 5);
        let ghost after = digits.subrange(0, i - 4);
        assert(after.drop_last() =~= before);
        assert(after.last() == chars@[i as int]);
        match char_to_digit(chars[i]) {
            None => {
                assert(digits[i - 5] == chars@[i as int]);
                return None;
            },
            Some(d) => {
                assert forall|j: int| 0 <= j < after.len() implies is_digit(
                    #[trigger] after[j],
                ) by {
                    if j < before.len() {
                        assert(after[j] == before[j]);
                    }
                }
                let next: u64 = acc * 10 + d as u64;
                if next > u32::MAX as u64 {
                    proof {
                        if all_digits(digits) {
                            lemma_digits_value_monotone(digits, i - 4);
                        }
                    }
                    return None;
                }
                acc = next;
            },
        }
        i += 1;
    }
    assert(digits.subrange(0, i - 5) =~= digits);
    Some(acc as u32)
}

/// The name of segment number `n`.
pub fn make_segment_name(n: u32) -> (res: String)
    ensures
        res@ == segment_name(n as nat),
{
    let mut digits: Vec<char> = Vec::new();
    let mut m: u32 = n;
    while m >= 10
        invariant
            decimal(n as nat) == decimal(m as nat) + digits@,
        decreases m,
    {
        let c = digit_to_char(m % 10);
        let ghost lower = digits@;
        digits.insert(0, c);
        proof {
            let rest = decimal((m / 10) as nat);
            assert(decimal(m as nat) == rest.push(c));
            assert(digits@ =~= seq![c] + lower);
            assert(rest.push(c) + lower =~= rest + digits@);
        }
        m = m / 10;
    }
    let c = digit_to_char(m);
    digits.insert(0, c);
    assert(digits@ =~= decimal(n as nat));
    let ghost d = digits@;
    assert(zeros(0) + d =~= d);
    while digits.len() < 4
        invariant
            d == decimal(n as nat),
            d.len() <= 4 ==> digits@ == zeros((digits@.len() - d.len()) as nat) + d,
            d.len() > 4 ==> digits@ == d,
            digits@.len() >= d.len(),
            digits@.len() <= 4 || digits@.len() == d.len(),
        decreases 4 - digits@.len(),
    {
        let ghost k = (digits@.len() - d.len()) as nat;
        digits.insert(0, '0');
        assert(digits@ =~= zeros(k + 1) + d);
    }
    assert(digits@ =~= padded(n as nat)) by {
        if d.len() == 4 {
            assert(zeros(0) + d =~= d);
        }
    }
    let mut all: Vec<char> = Vec::new();
    all.push('e');
    all.push('n');
    all.push('s');
    all.push('o');
    all.push('-');
    let mut i: usize = 0;
    while i < digits.len()
        invariant
            i <= digits@.len(),
            all@ == name_prefix() + digits@.subrange(0, i as int),
        decreases digits@.len() - i,
    {
        all.push(digits[i]);
        i += 1;
        assert(all@ =~= name_prefix() + digits@.subrange(0, i as int));
    }
    all.push('.');
    all.push('l');
    all.push('o');
    all.push('g');
    assert(all@ =~= segment_name(n as nat)) by {
        assert(digits@.subrange(0, digits@.len() as int) =~= digits@);
    }
    let res = string_of(&all, 0, all.len());
    assert(all@.subrange(0, all@.len() as int) =~= all@);
    res
}

/// The name of the sidecar index that belongs to the segment file `name`:
/// the last four characters, `.log` in a segment's name, give way to `.idx`.
pub fn make_sidecar_name(name: &str) -> (res: String)
    requires
        name@.len() >= 4,
    ensures
        res@ == sidecar_name(name@),
{
    let chars = to_chars(name);
    let mut all: Vec<char> = Vec::new();
    let stem: usize = chars.len() - 4;
    let mut i: usize = 0;
    while i < stem
        invariant
            stem == chars@.len() - 4,
            i <= stem,
            all@ == chars@.subrange(0, i as int),
        decreases stem - i,
    {
        all.push(chars[i]);
        i += 1;
        assert(all@ =~= chars@.subrange(0, i as int));
    }
    all.push('.');
    all.push('i');
    all.push('d');
    all.push('x');
    assert(all@ =~= sidecar_name(name@));
    let res = string_of(&all, 0, all.len());
    assert(all@.subrange(0, all@.len() as int) =~= all@);
    res
}

} // verus!
