//! Numbers as text.

use vstd::prelude::*;

verus! {

/// The character of one hexadecimal digit, upper case.
pub open spec fn digit_char(d: nat) -> char {
    if d < 10 {
        (48 + d) as char
    } else {
        (55 + d) as char
    }
}

/// `n` in decimal, without leading zeros.
pub open spec fn decimal(n: nat) -> Seq<char>
    decreases n,
{
    if n < 10 {
        seq![digit_char(n)]
    } else {
        decimal(n / 10).push(digit_char(n % 10))
    }
}

/// The low `digits` hexadecimal digits of `n`, upper case, with leading zeros.
pub open spec fn hex(n: nat, digits: nat) -> Seq<char>
    decreases digits,
{
    if digits == 0 {
        seq![]
    } else {
        hex(n / 16, (digits - 1) as nat).push(digit_char(n % 16))
    }
}

/// The one-character text of a digit.
fn digit_text(d: usize) -> (r: &'static str)
    requires
        d < 16,
    ensures
        r@ == seq![digit_char(d as nat)],
{
    proof {
        reveal_strlit("0");
        reveal_strlit("1");
        reveal_strlit("2");
        reveal_strlit("3");
        reveal_strlit("4");
        reveal_strlit("5");
        reveal_strlit("6");
        reveal_strlit("7");
        reveal_strlit("8");
        reveal_strlit("9");
        reveal_strlit("A");
        reveal_strlit("B");
        reveal_strlit("C");
        reveal_strlit("D");
        reveal_strlit("E");
        reveal_strlit("F");
    }
    match d {
        0 => "0",
        1 => "1",
        2 => "2",
        3 => "3",
        4 => "4",
        5 => "5",
        6 => "6",
        7 => "7",
        8 => "8",
        9 => "9",
        10 => "A",
        11 => "B",
        12 => "C",
        13 => "D",
        14 => "E",
        _ => "F",
    }
}

/// Appends `n` in decimal.
pub fn push_decimal(out: &mut String, n: usize)
    ensures
        final(out)@ == old(out)@ + decimal(n as nat),
    decreases n,
{
    if n < 10 {
        out.append(digit_text(n));
    } else {
        push_decimal(out, n / 10);
        out.append(digit_text(n % 10));
    }
    assert(out@ =~= old(out)@ + decimal(n as nat));
}

/// Appends the low `digits` hexadecimal digits of `n`.
pub fn push_hex(out: &mut String, n: usize, digits: usize)
    ensures
        final(out)@ == old(out)@ + hex(n as nat, digits as nat),
    decreases digits,
{
    if digits > 0 {
        push_hex(out, n / 16, digits - 1);
        out.append(digit_text(n % 16));
    }
    assert(out@ =~= old(out)@ + hex(n as nat, digits as nat));
}

/// The value of a digit.
pub open spec fn digit_value(c: char) -> int {
    if '0' <= c <= '9' {
        c as int - 48
    } else {
        c as int - 55
    }
}

/// The number that a text stands for in a base.
pub open spec fn value_of(text: Seq<char>, base: int) -> int
    decreases text.len(),
{
    if text.len() == 0 {
        0
    } else {
        value_of(text.drop_last(), base) * base + digit_value(text.last())
    }
}

/// A number in decimal stands for that number, is made of digits, and has no
/// leading zero.
pub proof fn lemma_decimal_stands_for(n: nat)
    ensures
        value_of(decimal(n), 10) == n,
        decimal(n).len() > 0,
        forall|i: int| 0 <= i < decimal(n).len() ==> '0' <= #[trigger] decimal(n)[i] <= '9',
        decimal(n).len() > 1 ==> decimal(n)[0] != '0',
        n > 0 ==> decimal(n)[0] != '0',
    decreases n,
{
    let text = decimal(n);
    if n < 10 {
        assert(text.drop_last() =~= seq![]);
        assert(value_of(text.drop_last(), 10) == 0);
    } else {
        lemma_decimal_stands_for(n / 10);
        assert(text.drop_last() =~= decimal(n / 10));
    }
}

/// A number in hexadecimal stands for that number, as far as the digits go.
pub proof fn lemma_hex_stands_for(n: nat, digits: nat)
    ensures
        hex(n, digits).len() == digits,
        value_of(hex(n, digits), 16) == n % vstd::arithmetic::power::pow(16, digits) as nat,
        forall|i: int|
            0 <= i < digits ==> ('0' <= #[trigger] hex(n, digits)[i] <= '9' || 'A' <= hex(
                n,
                digits,
            )[i] <= 'F'),
    decreases digits,
{
    reveal(vstd::arithmetic::power::pow);
    let text = hex(n, digits);
    vstd::arithmetic::power::lemma_pow_positive(16, digits);
    if digits > 0 {
        let fewer = (digits - 1) as nat;
        lemma_hex_stands_for(n / 16, fewer);
        assert(text.drop_last() =~= hex(n / 16, fewer));
        vstd::arithmetic::power::lemma_pow_positive(16, fewer);
        let p = vstd::arithmetic::power::pow(16, fewer);
        let whole = vstd::arithmetic::power::pow(16, digits);
        assert(whole == 16 * p);
        vstd::arithmetic::div_mod::lemma_breakdown(n as int, 16, p);
        assert(n as int % (16 * p) == 16 * ((n as int / 16) % p) + n as int % 16);
    }
}

} // verus!
