//! Numbers in messages: decimal and hexadecimal digits, and joining them to text.

use vstd::prelude::*;
use vstd::string::StringExecFns;

verus! {

/// The digit `d` of a number written in a base of at most sixteen.
pub open spec fn digit(d: nat) -> char {
    if d < 10 {
        (d + 0x30) as char
    } else {
        (d - 10 + 0x61) as char
    }
}

/// The digits of `n` in the base `base`, most significant first, without leading zeros.
pub open spec fn digits(n: nat, base: nat) -> Seq<char>
    decreases n,
{
    if n < base || base < 2 {
        seq![digit(n)]
    } else {
        proof {
            assert(n / base < n) by (nonlinear_arith)
                requires
                    n >= base,
                    base >= 2,
            ;
        }
        digits(n / base, base).push(digit(n % base))
    }
}

/// `n` written in decimal.
pub open spec fn decimal(n: nat) -> Seq<char> {
    digits(n, 10)
}

/// `n` written in hexadecimal, with the prefix `0x` and lower-case digits.
pub open spec fn hexadecimal(n: nat) -> Seq<char> {
    "0x"@ + digits(n, 16)
}

fn digit_str(d: u64) -> (s: &'static str)
    requires
        d < 16,
    ensures
        s@ == seq![digit(d as nat)],
{
    proof {
        reveal_strlit("0");
        reveal_strlit("1");
        reveal_strlit("2");
        reveal_strlit("3");
        reveal_strlit("4");
        reveal_strlit("5");
        reveal_strlit("6");
        reveal_strlit("7");
        reveal_strlit("8");
        reveal_strlit("9");
        reveal_strlit("a");
        reveal_strlit("b");
        reveal_strlit("c");
        reveal_strlit("d");
        reveal_strlit("e");
        reveal_strlit("f");
    }
    let s: &'static str = match d {
        0 => "0",
        1 => "1",
        2 => "2",
        3 => "3",
        4 => "4",
        5 => "5",
        6 => "6",
        7 => "7",
        8 => "8",
        9 => "9",
        10 => "a",
        11 => "b",
        12 => "c",
        13 => "d",
        14 => "e",
        _ => "f",
    };
    assert(s@ =~= seq![digit(d as nat)]);
    s
}

fn push_digits(out: &mut String, n: u64, base: u64)
    requires
        2 <= base <= 16,
    ensures
        final(out)@ == old(out)@ + digits(n as nat, base as nat),
    decreases n,
{
    if n < base {
        out.append(digit_str(n));
    } else {
        assert(n / base < n) by (nonlinear_arith)
            requires
                n >= base,
                base >= 2,
        ;
        assert(n % base < base) by (nonlinear_arith)
            requires
                base >= 2,
        ;
        push_digits(out, n / base, base);
        out.append(digit_str(n % base));
    }
    assert(out@ =~= old(out)@ + digits(n as nat, base as nat));
}

/// Appends `n` in decimal to `out`.
pub(crate) fn push_decimal(out: &mut String, n: u64)
    ensures
        final(out)@ == old(out)@ + decimal(n as nat),
{
    push_digits(out, n, 10);
}

/// Appends `n` to `out` in hexadecimal, with the prefix `0x`.
pub(crate) fn push_hexadecimal(out: &mut String, n: u64)
    ensures
        final(out)@ == old(out)@ + hexadecimal(n as nat),
{
    out.append("0x");
    push_digits(out, n, 16);
    assert(out@ =~= old(out)@ + hexadecimal(n as nat));
}

/// `text` as a string of its own.
pub(crate) fn message(text: &str) -> (out: String)
    ensures
        out@ == text@,
{
    String::from_str(text)
}

/// The text `before`, the number `n` in decimal, and the text `after`.
pub(crate) fn message_with(before: &str, n: u64, after: &str) -> (out: String)
    ensures
        out@ == before@ + decimal(n as nat) + after@,
{
    let mut out = String::from_str(before);
    push_decimal(&mut out, n);
    out.append(after);
    out
}

/// `c` is a decimal digit.
pub open spec fn is_digit(c: char) -> bool {
    '0' <= c <= '9'
}

/// `s` consists of decimal digits.
pub open spec fn all_digits(s: Seq<char>) -> bool {
    forall|i: int| 0 <= i < s.len() ==> is_digit(#[trigger] s[i])
}

/// The number that the decimal digits `s` write; zero where there are none.
pub open spec fn digits_value(s: Seq<char>) -> nat
    decreases s.len(),
{
    if s.len() == 0 {
        0
    } else {
        10 * digits_value(s.drop_last()) + (s.last() as int - 0x30) as nat
    }
}

pub(crate) proof fn lemma_digits_value_prefix(s: Seq<char>, i: nat)
    requires
        i <= s.len(),
    ensures
        digits_value(s.take(i as int)) <= digits_value(s),
    decreases s.len() - i,
{
    if i < s.len() {
        lemma_digits_value_prefix(s, i + 1);
        assert(s.take(i as int + 1).drop_last() =~= s.take(i as int));
    } else {
        assert(s.take(i as int) =~= s);
    }
}

/// A number written in decimal reads back as the number.
pub proof fn law_decimal_reads_back(n: nat)
    ensures
        all_digits(decimal(n)),
        digits_value(decimal(n)) == n,
    decreases n,
{
    let s = decimal(n);
    if n < 10 {
        assert(s.drop_last() =~= Seq::empty());
        assert(digits_value(Seq::<char>::empty()) == 0);
    } else {
        law_decimal_reads_back(n / 10);
        assert(s.drop_last() =~= decimal(n / 10));
    }
}

} // verus!
