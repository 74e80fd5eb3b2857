//! Rendering of integers as text, for diagnostics.

use vstd::prelude::*;

verus! {

/// The character of one digit `d` (0 to 15), with upper-case letters above 9.
pub open spec fn digit_char(d: nat) -> char {
    if d < 10 {
        (48 + d) as char
    } else {
        (55 + d) as char
    }
}

/// The digits of `n` in base `radix`, most significant first, with no leading zeros
/// (zero is the single digit `0`).
pub open spec fn digits(n: nat, radix: nat) -> Seq<char>
    recommends
        2 <= radix <= 16,
    decreases n,
{
    if n < radix || radix < 2 {
        seq![digit_char(n % radix)]
    } else {
        proof {
            lemma_quotient_smaller(n, radix);
        }
        digits(n / radix, radix).push(digit_char(n % radix))
    }
}

pub proof fn lemma_quotient_smaller(n: nat, radix: nat)
    requires
        2 <= radix <= n,
    ensures
        n / radix < n,
{
    assert(n / radix < n) by (nonlinear_arith)
        requires
            2 <= radix <= n,
    ;
}

/// What `format!("{}", n)` writes for an unsigned integer.
pub open spec fn decimal(n: nat) -> Seq<char> {
    digits(n, 10)
}

/// What `format!("{:#X}", n)` writes for an unsigned integer.
pub open spec fn hex_prefixed(n: nat) -> Seq<char> {
    seq!['0', 'x'] + digits(n, 16)
}

/// What `format!("{:#04X}", b)` writes for a byte: `0x` and exactly two digits.
pub open spec fn hex_byte_prefixed(b: u8) -> Seq<char> {
    seq!['0', 'x', digit_char((b / 16) as nat), digit_char((b % 16) as nat)]
}

fn digit_str(d: u64) -> (s: &'static str)
    requires
        d < 16,
    ensures
        s@ == seq![digit_char(d as nat)],
{
    proof {
        reveal_strlit("0");
        reveal_strlit("1");
        reveal_strlit("2");
        reveal_strlit("3");
        reveal_strlit("4");
        reveal_strlit("5");
        reveal_strlit("6");
        reveal_strlit("7");
        reveal_strlit("8");
        reveal_strlit("9");
        reveal_strlit("A");
        reveal_strlit("B");
        reveal_strlit("C");
        reveal_strlit("D");
        reveal_strlit("E");
        reveal_strlit("F");
    }
    match d {
        0 => "0",
        1 => "1",
        2 => "2",
        3 => "3",
        4 => "4",
        5 => "5",
        6 => "6",
        7 => "7",
        8 => "8",
        9 => "9",
        10 => "A",
        11 => "B",
        12 => "C",
        13 => "D",
        14 => "E",
        _ => "F",
    }
}

/// Appends the digits of `n` in base `radix` to `out`.
pub fn push_digits(out: &mut String, n: u64, radix: u64)
    requires
        2 <= radix <= 16,
    ensures
        final(out)@ == old(out)@ + digits(n as nat, radix as nat),
    decreases n,
{
    if n >= radix {
        proof {
            lemma_quotient_smaller(n as nat, radix as nat);
        }
        push_digits(out, n / radix, radix);
    }
    out.append(digit_str(n % radix));
}

/// Appends `n` in decimal, as `format!("{}", n)` writes it.
pub fn push_decimal(out: &mut String, n: u64)
    ensures
        final(out)@ == old(out)@ + decimal(n as nat),
{
    push_digits(out, n, 10);
}

/// Appends `n` in upper-case hexadecimal behind `0x`, as `format!("{:#X}", n)` writes it.
pub fn push_hex_prefixed(out: &mut String, n: u64)
    ensures
        final(out)@ == old(out)@ + hex_prefixed(n as nat),
{
    out.append("0x");
    proof {
        reveal_strlit("0x");
    }
    push_digits(out, n, 16);
    assert(out@ =~= old(out)@ + hex_prefixed(n as nat));
}

/// Appends the byte `b` as `format!("{:#04X}", b)` writes it: `0x` and two upper-case digits.
pub fn push_hex_byte_prefixed(out: &mut String, b: u8)
    ensures
        final(out)@ == old(out)@ + hex_byte_prefixed(b),
{
    out.append("0x");
    out.append(digit_str((b / 16) as u64));
    out.append(digit_str((b % 16) as u64));
    proof {
        reveal_strlit("0x");
    }
    assert(out@ =~= old(out)@ + hex_byte_prefixed(b));
}

} // verus!
