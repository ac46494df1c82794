//! What holds of searching, of comparing without case and of decimal numbers,
//! byte for byte.

use crate::bytes::{
    ascii, decimal, find, is_blank, is_number, law_decimal_reads_back, lemma_find,
    lemma_skip_blanks, lower, number_or_zero, number_value, same_ignoring_case, skip_blanks,
    unsigned_part, PLUS,
};
use vstd::prelude::*;

verus! {

/// Whether two bytes are the same letter in different cases, the first in upper
/// case.
pub open spec fn upper_and_lower(a: u8, b: u8) -> bool {
    65 <= a <= 90 && b == a + 32
}

/// Two byte strings are the same up to case if and only if they are of one
/// length and differ nowhere but in the case of a letter.
pub proof fn law_only_case_is_ignored(a: Seq<u8>, b: Seq<u8>)
    ensures
        same_ignoring_case(a, b) <==> a.len() == b.len() && forall|i: int|
            0 <= i < a.len() ==> #[trigger] a[i] == b[i] || upper_and_lower(a[i], b[i])
                || upper_and_lower(b[i], a[i]),
{
    if same_ignoring_case(a, b) {
        assert forall|i: int| 0 <= i < a.len() implies #[trigger] a[i] == b[i] || upper_and_lower(
            a[i],
            b[i],
        ) || upper_and_lower(b[i], a[i]) by {
            assert(lower(a[i]) == lower(b[i]));
        }
    }
}

/// A run of digits stands for a number to the base ten: one more digit at its
/// end makes the number ten times as large, and adds the digit.
pub proof fn law_digit_counts_to_ten(digits: Seq<u8>, digit: u8)
    requires
        digit < 10,
    ensures
        number_value(Seq::empty()) == 0,
        number_value(digits.push((48 + digit) as u8)) == 10 * number_value(digits) + digit,
{
    assert(digits.push((48 + digit) as u8).drop_last() =~= digits);
}

/// Digits, with or without one sign `+` before them, are read as the number
/// that they stand for, or as zero where that number is beyond `usize`.
pub proof fn law_digits_are_read(digits: Seq<u8>)
    requires
        digits.len() > 0,
        forall|i: int| 0 <= i < digits.len() ==> 48 <= #[trigger] digits[i] <= 57,
    ensures
        number_or_zero(digits) == if number_value(digits) <= usize::MAX {
            number_value(digits)
        } else {
            0
        },
        number_or_zero(seq![43u8] + digits) == number_or_zero(digits),
{
    assert(digits[0] != PLUS);
    assert(unsigned_part(seq![43u8] + digits) =~= digits);
}

/// Nothing but digits is read as a number: a byte that is no digit, unless it
/// is a sign `+` at the start, makes it zero, and so does the want of digits.
pub proof fn law_no_number_is_zero(s: Seq<u8>, i: int)
    requires
        0 <= i < s.len(),
        s[i] < 48 || s[i] > 57,
        i > 0 || s[0] != 43,
    ensures
        number_or_zero(s) == 0,
        number_or_zero(Seq::empty()) == 0,
        number_or_zero(seq![43u8]) == 0,
{
    let digits = unsigned_part(s);
    let k = i - (s.len() - digits.len());
    assert(digits[k] == s[i]);
    assert(!is_number(digits));
    assert(unsigned_part(seq![43u8]).len() == 0);
}

/// The decimal digits of a number stand for the number, and start with zero
/// only where the number is zero.
pub proof fn law_decimal_has_no_leading_zero(n: nat)
    ensures
        decimal(n).len() > 0,
        forall|i: int| 0 <= i < decimal(n).len() ==> 48 <= #[trigger] decimal(n)[i] <= 57,
        number_value(decimal(n)) == n,
        decimal(n)[0] == 48 <==> n == 0,
    decreases n,
{
    law_decimal_reads_back(n);
    if n >= 10 {
        law_decimal_has_no_leading_zero(n / 10);
    }
}

/// A text in ASCII has one byte for each character, its code.
pub proof fn law_ascii_is_byte_for_byte(text: Seq<char>, i: int)
    ensures
        ascii(text).len() == text.len(),
        0 <= i < text.len() ==> ascii(text)[i] == text[i] as u8,
{
}

/// Looking for a byte gives its first place, or the end where there is none.
pub proof fn law_first_place_is_found(s: Seq<u8>, b: u8, from: int)
    requires
        0 <= from <= s.len(),
    ensures
        from <= find(s, b, from) <= s.len(),
        find(s, b, from) < s.len() ==> s[find(s, b, from)] == b,
        forall|i: int| from <= i < find(s, b, from) ==> s[i] != b,
{
    lemma_find(s, b, from);
}

/// Skipping blanks passes over spaces and tabs alone, and over all of them.
pub proof fn law_blanks_are_skipped(s: Seq<u8>, from: int)
    requires
        0 <= from <= s.len(),
    ensures
        from <= skip_blanks(s, from) <= s.len(),
        skip_blanks(s, from) < s.len() ==> s[skip_blanks(s, from)] != 32 && s[skip_blanks(
            s,
            from,
        )] != 9,
        forall|i: int| from <= i < skip_blanks(s, from) ==> s[i] == 32 || s[i] == 9,
{
    lemma_skip_blanks(s, from);
    assert forall|i: int| from <= i < skip_blanks(s, from) implies s[i] == 32 || s[i] == 9 by {
        assert(is_blank(s[i]));
    }
}

} // verus!
