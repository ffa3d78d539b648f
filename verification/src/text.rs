//! Writing numbers as text.

use vstd::prelude::*;

verus! {

/// `std::string::String::push`: afterwards the string is what it was before with
/// the character at its end.
pub assume_specification[ String::push ](s: &mut String, c: char)
    ensures
        final(s)@ == old(s)@.push(c),
;

/// The code of the character `0`.
pub const ASCII_ZERO: u8 = 0x30;

/// The code of the character `A`.
pub const ASCII_A: u8 = 0x41;

/// The character of a digit below 16, in upper case.
pub open spec fn hex_digit(digit: nat) -> char {
    if digit < 10 {
        ('0' as nat + digit) as char
    } else {
        ('A' as nat + digit - 10) as char
    }
}

/// The decimal digits of `n`, without leading zeros.
pub open spec fn decimal(n: nat) -> Seq<char>
    decreases n,
{
    if n < 10 {
        seq![hex_digit(n)]
    } else {
        decimal(n / 10).push(hex_digit(n % 10))
    }
}

/// `s`, with spaces put before it where it is shorter than `width`.
pub open spec fn padded(s: Seq<char>, width: nat) -> Seq<char> {
    if s.len() < width {
        Seq::new((width - s.len()) as nat, |i: int| ' ') + s
    } else {
        s
    }
}

/// The character of a digit below 16, in upper case.
pub fn hex_digit_char(digit: u32) -> (c: char)
    requires
        digit < 16,
    ensures
        c == hex_digit(digit as nat),
        c == "0123456789ABCDEF"@[digit as int],
{
    proof {
        law_digits_stand_for_their_numbers(digit as nat);
    }
    if digit < 10 {
        (ASCII_ZERO + digit as u8) as char
    } else {
        (ASCII_A + (digit as u8 - 10)) as char
    }
}

/// Appends the decimal digits of `n`.
pub fn push_decimal(out: &mut String, n: u32)
    ensures
        final(out)@ == old(out)@ + decimal(n as nat),
        is_number(final(out)@.skip(old(out)@.len() as int), n as nat),
    decreases n,
{
    if n >= 10 {
        push_decimal(out, n / 10);
    }
    out.push(hex_digit_char(n % 10));
    assert(out@ =~= old(out)@ + decimal(n as nat));
    proof {
        law_numbers_read_back(n as nat, decimal(n as nat));
        assert(out@.skip(old(out)@.len() as int) =~= decimal(n as nat));
    }
}

/// How many decimal digits `n` has.
pub fn decimal_len(n: u32) -> (len: usize)
    ensures
        len == decimal(n as nat).len(),
{
    let mut rest: u32 = n;
    let mut len: usize = 1;
    while rest >= 10
        invariant
            decimal(n as nat).len() == decimal(rest as nat).len() + len - 1,
            rest + len <= n + 1,
        decreases rest,
    {
        rest = rest / 10;
        len = len + 1;
    }
    len
}

/// Appends the decimal digits of `n`, right-aligned in `width` columns.
pub fn push_decimal_padded(out: &mut String, n: u32, width: usize)
    ensures
        final(out)@ == old(out)@ + padded(decimal(n as nat), width as nat),
{
    let len = decimal_len(n);
    let ghost start = out@;
    let mut at: usize = len;
    while at < width
        invariant
            len <= at,
            at <= width || at == len,
            out@ == start + Seq::new((at - len) as nat, |i: int| ' '),
        decreases width - at,
    {
        out.push(' ');
        assert(out@ =~= start + Seq::new((at + 1 - len) as nat, |i: int| ' '));
        at = at + 1;
    }
    push_decimal(out, n);
    assert(out@ =~= start + padded(decimal(n as nat), width as nat));
}

/// The number that decimal digits stand for.
pub open spec fn digits_value(digits: Seq<char>) -> int
    decreases digits.len(),
{
    if digits.len() == 0 {
        0
    } else {
        10 * digits_value(digits.drop_last()) + (digits.last() as int - 0x30)
    }
}

/// The text is a decimal number without leading zeros, and stands for `n`.
pub open spec fn is_number(text: Seq<char>, n: nat) -> bool {
    &&& text.len() > 0
    &&& forall|i: int| 0 <= i < text.len() ==> '0' <= #[trigger] text[i] <= '9'
    &&& text.len() > 1 ==> text[0] != '0'
    &&& digits_value(text) == n
}

/// A digit below 16 is written as one of the characters 0 to 9 and A to F, in
/// this order.
pub proof fn law_digits_stand_for_their_numbers(digit: nat)
    requires
        digit < 16,
    ensures
        hex_digit(digit) == "0123456789ABCDEF"@[digit as int],
{
    reveal_strlit("0123456789ABCDEF");
}

/// A number that is written out reads back as itself, and this is the only way
/// in which it is written.
pub proof fn law_numbers_read_back(n: nat, text: Seq<char>)
    ensures
        is_number(decimal(n), n),
        is_number(text, n) ==> text == decimal(n),
    decreases n,
{
    let digits = decimal(n);
    if n >= 10 {
        let before = decimal(n / 10);
        law_numbers_read_back(n / 10, text.drop_last());
        assert(digits.drop_last() =~= before);
        assert forall|i: int| 0 <= i < digits.len() implies '0' <= #[trigger] digits[i] <= '9' by {
            if i < before.len() {
                assert('0' <= before[i] <= '9');
            }
        }
        assert(digits[0] == before[0]);
        assert(before[0] != '0') by {
            if before.len() == 1 {
                reveal_with_fuel(digits_value, 2);
                assert(digits_value(before) == before[0] as int - 0x30);
            }
        }
    } else {
        reveal_with_fuel(digits_value, 2);
    }
    if is_number(text, n) {
        let last = text[text.len() - 1];
        let rest = text.drop_last();
        assert('0' <= last <= '9');
        assert forall|i: int| 0 <= i < rest.len() implies '0' <= #[trigger] rest[i] <= '9' by {
            assert('0' <= text[i] <= '9');
        }
        if rest.len() > 0 {
            assert(rest[0] == text[0]);
            lemma_leading_digit(rest);
            assert(n >= 10);
            assert(digits_value(rest) == n / 10 && last as int - 0x30 == n % 10);
            assert(is_number(rest, n / 10));
            assert(text =~= rest.push(last));
        } else {
            assert(digits_value(rest) == 0);
            assert(text =~= seq![last]);
        }
    }
}

/// Digits that do not start with a zero stand for at least one.
proof fn lemma_leading_digit(digits: Seq<char>)
    requires
        digits.len() > 0,
        forall|i: int| 0 <= i < digits.len() ==> '0' <= #[trigger] digits[i] <= '9',
        digits[0] != '0',
    ensures
        digits_value(digits) >= 1,
    decreases digits.len(),
{
    let rest = digits.drop_last();
    assert('0' <= digits[digits.len() - 1] <= '9');
    if rest.len() > 0 {
        assert forall|i: int| 0 <= i < rest.len() implies '0' <= #[trigger] rest[i] <= '9' by {
            assert('0' <= digits[i] <= '9');
        }
        lemma_leading_digit(rest);
    } else {
        assert(digits_value(rest) == 0);
    }
}

/// Padding puts spaces in front of a text up to the width, and leaves a text
/// alone that is as wide already.
pub proof fn law_padding_aligns_to_the_right(s: Seq<char>, width: nat)
    ensures
        padded(s, width).len() == if s.len() < width {
            width
        } else {
            s.len()
        },
        forall|i: int|
            0 <= i < padded(s, width).len() - s.len() ==> #[trigger] padded(s, width)[i] == ' ',
        padded(s, width).skip(padded(s, width).len() - s.len()) == s,
{
    assert(padded(s, width).skip(padded(s, width).len() - s.len()) =~= s);
}

} // verus!
