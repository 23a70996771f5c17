//! Grouping of a number's decimal digits in threes, for display.

use vstd::prelude::*;

verus! {

/// `String::push` of std: the character is appended to the string.
pub assume_specification[ String::push ](s: &mut String, c: char)
    ensures
        final(s)@ == old(s)@.push(c),
;

/// The character of a decimal digit.
pub open spec fn digit_char(d: int) -> char {
    (d + 48) as u8 as char
}

/// The decimal text of `n`, without leading zeros.
pub open spec fn decimal_chars(n: nat) -> Seq<char>
    decreases n,
{
    if n < 10 {
        seq![digit_char(n as int)]
    } else {
        decimal_chars(n / 10).push(digit_char((n % 10) as int))
    }
}

/// The decimal text of `n` with a comma before each group of three digits
/// counted from the right: `1234567` gives `1,234,567`.
pub open spec fn grouped(n: nat) -> Seq<char>
    decreases n,
{
    if n < 1000 {
        decimal_chars(n)
    } else {
        grouped(n / 1000) + seq![
            ',',
            digit_char((n / 100 % 10) as int),
            digit_char((n / 10 % 10) as int),
            digit_char((n % 10) as int),
        ]
    }
}

/// The text of `grouped` has one comma for each full group of three digits
/// beyond the first digit, and the digits of `decimal_chars` otherwise.
pub proof fn lemma_grouped_len(n: nat)
    ensures
        decimal_chars(n).len() >= 1,
        grouped(n).len() == decimal_chars(n).len() + (decimal_chars(n).len() - 1) / 3,
    decreases n,
{
    reveal_with_fuel(decimal_chars, 4);
    if n >= 1000 {
        lemma_grouped_len(n / 1000);
        assert(n / 10 / 10 / 10 == n / 1000);
    }
}

fn digit(d: u64) -> (c: char)
    requires
        d < 10,
    ensures
        c == digit_char(d as int),
{
    (d as u8 + 48) as char
}

/// The decimal text of a number below one thousand.
fn fmt_group(n: u64) -> (s: String)
    requires
        n < 1000,
    ensures
        s@ == decimal_chars(n as nat),
{
    reveal_with_fuel(decimal_chars, 3);
    let mut s = String::new();
    if n >= 100 {
        s.push(digit(n / 100));
    }
    if n >= 10 {
        s.push(digit(n / 10 % 10));
    }
    s.push(digit(n % 10));
    assert(s@ =~= decimal_chars(n as nat));
    s
}

/// The decimal text of `n` with thousands separators.
pub fn fmt_num(n: u64) -> (s: String)
    ensures
        s@ == grouped(n as nat),
    decreases n,
{
    if n < 1000 {
        fmt_group(n)
    } else {
        let mut s = fmt_num(n / 1000);
        s.push(',');
        s.push(digit(n / 100 % 10));
        s.push(digit(n / 10 % 10));
        s.push(digit(n % 10));
        assert(s@ =~= grouped(n as nat));
        s
    }
}

} // verus!
