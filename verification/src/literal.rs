//! Integer literals: what a lexeme has to look like, and the number that it
//! stands for.

use vstd::prelude::*;
use vstd::string::*;

verus! {

/// Whether `c` is one of the ten decimal digits.
pub open spec fn is_digit(c: char) -> bool {
    '0' <= c && c <= '9'
}

/// The number that the digits of `text` stand for in base ten.
pub open spec fn decimal(text: Seq<char>) -> int
    decreases text.len(),
{
    if text.len() == 0 {
        0
    } else {
        10 * decimal(text.drop_last()) + (text.last() as int - '0' as int)
    }
}

/// Whether `text` is a run of at least one decimal digit.
pub open spec fn is_digits(text: Seq<char>) -> bool {
    &&& text.len() > 0
    &&& forall|i: int| 0 <= i < text.len() ==> is_digit(#[trigger] text[i])
}

/// The digits of a literal: the text without a leading sign.
pub open spec fn unsigned_part(text: Seq<char>) -> Seq<char> {
    if text.len() > 0 && (text[0] == '-' || text[0] == '+') {
        text.drop_first()
    } else {
        text
    }
}

/// The number that a literal stands for: its digits in base ten, negated
/// behind a minus sign.
pub open spec fn literal_value(text: Seq<char>) -> int {
    if text.len() > 0 && text[0] == '-' {
        -decimal(unsigned_part(text))
    } else {
        decimal(unsigned_part(text))
    }
}

/// Whether `text` is the literal of a signed 32-bit integer: an optional
/// sign, then digits, and a value in range.
pub open spec fn is_int_literal(text: Seq<char>) -> bool {
    &&& is_digits(unsigned_part(text))
    &&& i32::MIN <= literal_value(text) <= i32::MAX
}

/// A run of digits stands for a number that is not negative and not less
/// than the number of any run it starts with.
pub proof fn lemma_decimal_grows(text: Seq<char>, n: int)
    requires
        forall|i: int| 0 <= i < text.len() ==> is_digit(#[trigger] text[i]),
        0 <= n <= text.len(),
    ensures
        0 <= decimal(text.take(n)) <= decimal(text),
    decreases text.len() - n,
{
    if n == text.len() {
        assert(text.take(n) =~= text);
        lemma_decimal_nonnegative(text);
    } else {
        lemma_decimal_grows(text, n + 1);
        assert(text.take(n + 1).drop_last() =~= text.take(n));
        lemma_decimal_nonnegative(text.take(n));
    }
}

/// A run of digits stands for a number that is not negative.
pub proof fn lemma_decimal_nonnegative(text: Seq<char>)
    requires
        forall|i: int| 0 <= i < text.len() ==> is_digit(#[trigger] text[i]),
    ensures
        0 <= decimal(text),
    decreases text.len(),
{
    if text.len() > 0 {
        lemma_decimal_nonnegative(text.drop_last());
    }
}

/// The number that `lexeme` stands for, if it is the literal of a signed
/// 32-bit integer.
pub fn parse_int(lexeme: &str) -> (value: Option<i32>)
    ensures
        value is Some <==> is_int_literal(lexeme@),
        value matches Some(v) ==> v == literal_value(lexeme@),
{
    let len: usize = lexeme.unicode_len();
    if len == 0 {
        return None;
    }
    let first = lexeme.get_char(0);
    let negative = first == '-';
    let start: usize = if first == '-' || first == '+' {
        1
    } else {
        0
    };
    if start == len {
        return None;
    }
    let ghost digits = unsigned_part(lexeme@);
    assert(digits =~= lexeme@.subrange(start as int, len as int));
    let mut acc: i64 = 0;
    let mut i: usize = start;
    assert(digits.take(0) =~= Seq::<char>::empty());
    while i < len
        invariant
            start <= i <= len,
            len == lexeme@.len(),
            digits == lexeme@.subrange(start as int, len as int),
            digits == unsigned_part(lexeme@),
            forall|j: int| 0 <= j < i - start ==> is_digit(#[trigger] digits[j]),
            acc == decimal(digits.take(i - start)),
            0 <= acc <= 0x8000_0000,
        decreases len - i,
    {
        let ch = lexeme.get_char(i);
        assert(ch == digits[i - start]);
        if ch < '0' || ch > '9' {
            assert(!is_digit(digits[i - start]));
            return None;
        }
        let digit: i64 = (ch as u32 - '0' as u32) as i64;
        assert(digits.take(i - start + 1).drop_last() =~= digits.take(i - start));
        assert(digits.take(i - start + 1).last() == ch);
        let next: i64 = acc * 10 + digit;
        assert(next == decimal(digits.take(i - start + 1)));
        if next > 0x8000_0000 {
            proof {
                if forall|j: int| 0 <= j < digits.len() ==> is_digit(#[trigger] digits[j]) {
                    lemma_decimal_grows(digits, i - start + 1);
                }
            }
            return None;
        }
        acc = next;
        i += 1;
    }
    assert(digits.take(len - start) =~= digits);
    if negative {
        Some((-acc) as i32)
    } else if acc == 0x8000_0000 {
        None
    } else {
        Some(acc as i32)
    }
}

} // verus!
