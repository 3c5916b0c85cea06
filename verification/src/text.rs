//! Numbers as text.

use vstd::prelude::*;
use vstd::string::StringExecFns;

verus! {

/// The digit for a value below sixteen.
pub open spec fn digit(d: int) -> char {
    if d < 10 {
        (('0' as int) + d) as char
    } else {
        (('a' as int) + d - 10) as char
    }
}

/// `n` in base ten.
pub open spec fn decimal_text(n: int) -> Seq<char>
    decreases n,
{
    if n < 10 {
        seq![digit(n)]
    } else {
        decimal_text(n / 10).push(digit(n % 10))
    }
}

/// `n` in base sixteen, lower case, without a prefix.
pub open spec fn hex_digits(n: int) -> Seq<char>
    decreases n,
{
    if n < 16 {
        seq![digit(n)]
    } else {
        hex_digits(n / 16).push(digit(n % 16))
    }
}

/// `n` in base sixteen, lower case, behind `0x`.
pub open spec fn hex_text(n: int) -> Seq<char> {
    "0x"@ + hex_digits(n)
}

/// The digit for `d` as text.
pub(crate) fn digit_str(d: u64) -> (s: &'static str)
    requires
        d < 16,
    ensures
        s@ == seq![digit(d as int)],
{
    proof {
        reveal_strlit("0");
        reveal_strlit("1");
        reveal_strlit("2");
        reveal_strlit("3");
        reveal_strlit("4");
        reveal_strlit("5");
        reveal_strlit("6");
        reveal_strlit("7");
        reveal_strlit("8");
        reveal_strlit("9");
        reveal_strlit("a");
        reveal_strlit("b");
        reveal_strlit("c");
        reveal_strlit("d");
        reveal_strlit("e");
        reveal_strlit("f");
    }
    match d {
        0 => "0",
        1 => "1",
        2 => "2",
        3 => "3",
        4 => "4",
        5 => "5",
        6 => "6",
        7 => "7",
        8 => "8",
        9 => "9",
        10 => "a",
        11 => "b",
        12 => "c",
        13 => "d",
        14 => "e",
        _ => "f",
    }
}

/// Writes `n` in base ten.
pub fn decimal(n: u64) -> (s: String)
    ensures
        s@ == decimal_text(n as int),
    decreases n,
{
    if n < 10 {
        let mut s: String = String::new();
        s.append(digit_str(n));
        proof {
            assert(Seq::<char>::empty() + seq![digit(n as int)] =~= seq![digit(n as int)]);
        }
        s
    } else {
        let mut s: String = decimal(n / 10);
        s.append(digit_str(n % 10));
        proof {
            assert(decimal_text(n as int / 10) + seq![digit(n as int % 10)] =~= decimal_text(
                n as int / 10,
            ).push(digit(n as int % 10)));
        }
        s
    }
}

/// Writes `n` in base sixteen without a prefix.
fn hex_plain(n: u64) -> (s: String)
    ensures
        s@ == hex_digits(n as int),
    decreases n,
{
    if n < 16 {
        let mut s: String = String::new();
        s.append(digit_str(n));
        proof {
            assert(Seq::<char>::empty() + seq![digit(n as int)] =~= seq![digit(n as int)]);
        }
        s
    } else {
        let mut s: String = hex_plain(n / 16);
        s.append(digit_str(n % 16));
        proof {
            assert(hex_digits(n as int / 16) + seq![digit(n as int % 16)] =~= hex_digits(
                n as int / 16,
            ).push(digit(n as int % 16)));
        }
        s
    }
}

/// Writes `n` in base sixteen behind `0x`.
pub fn hex(n: u64) -> (s: String)
    ensures
        s@ == hex_text(n as int),
{
    let mut s: String = String::from_str("0x");
    let digits: String = hex_plain(n);
    s.append(digits.as_str());
    s
}

/// Puts `c` at the end of `s`; this is [`String::push`].
#[verifier::external_body]
pub(crate) fn push_char(s: &mut String, c: char)
    ensures
        final(s)@ == old(s)@.push(c),
{
    s.push(c);
}

/// The value that a digit stands for.
pub open spec fn digit_value(c: char) -> int {
    if '0' <= c && c <= '9' {
        (c as int) - ('0' as int)
    } else {
        (c as int) - ('a' as int) + 10
    }
}

/// The number that digits stand for in a base.
pub open spec fn value_in(s: Seq<char>, base: int) -> int
    decreases s.len(),
{
    if s.len() == 0 {
        0
    } else {
        value_in(s.drop_last(), base) * base + digit_value(s.last())
    }
}

/// The digit for a value is a decimal one or a lower-case letter, and stands for that value.
pub proof fn law_digit(d: int)
    requires
        0 <= d < 16,
    ensures
        digit_value(digit(d)) == d,
        '0' <= digit(d) && digit(d) <= '9' <==> d < 10,
        'a' <= digit(d) && digit(d) <= 'f' <==> d >= 10,
{
}

/// The decimal text of a number stands for it, has decimal digits only, and no leading zero.
pub proof fn law_decimal(n: int)
    requires
        0 <= n,
    ensures
        value_in(decimal_text(n), 10) == n,
        decimal_text(n).len() > 0,
        forall|i: int|
            0 <= i < decimal_text(n).len() ==> '0' <= #[trigger] decimal_text(n)[i]
                && decimal_text(n)[i] <= '9',
        n > 0 ==> decimal_text(n)[0] != '0',
        n == 0 ==> decimal_text(n) == seq!['0'],
    decreases n,
{
    law_digit(n % 10);
    if n < 10 {
        assert(decimal_text(n).drop_last() =~= Seq::empty());
        assert(value_in(decimal_text(n).drop_last(), 10) == 0);
    } else {
        law_decimal(n / 10);
        assert(decimal_text(n).drop_last() =~= decimal_text(n / 10));
    }
}

/// The digits of a number in base sixteen stand for it, are lower-case, and have no leading
/// zero.
pub proof fn law_hex(n: int)
    requires
        0 <= n,
    ensures
        value_in(hex_digits(n), 16) == n,
        hex_digits(n).len() > 0,
        forall|i: int|
            0 <= i < hex_digits(n).len() ==> '0' <= #[trigger] hex_digits(n)[i] && hex_digits(n)[i]
                <= '9' || 'a' <= hex_digits(n)[i] && hex_digits(n)[i] <= 'f',
        n > 0 ==> hex_digits(n)[0] != '0',
        n == 0 ==> hex_digits(n) == seq!['0'],
        hex_text(n).len() == hex_digits(n).len() + 2,
        hex_text(n)[0] == '0',
        hex_text(n)[1] == 'x',
        hex_text(n).skip(2) == hex_digits(n),
    decreases n,
{
    reveal_strlit("0x");
    assert(hex_text(n).skip(2) =~= hex_digits(n));
    law_digit(n % 16);
    if n < 16 {
        assert(hex_digits(n).drop_last() =~= Seq::empty());
        assert(value_in(hex_digits(n).drop_last(), 16) == 0);
    } else {
        law_hex(n / 16);
        assert(hex_digits(n).drop_last() =~= hex_digits(n / 16));
    }
}

} // verus!
