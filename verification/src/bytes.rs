//! Bytes of protocol text: searching, comparing without case, and decimal
//! numbers.

use vstd::prelude::*;
use vstd::string::*;

verus! {

/// Horizontal tab.
pub const TAB: u8 = 9;

/// Line feed.
pub const LF: u8 = 10;

/// Carriage return.
pub const CR: u8 = 13;

/// Space.
pub const SPACE: u8 = 32;

/// The sign `+`.
pub const PLUS: u8 = 43;

/// The digit `0`.
pub const ZERO: u8 = 48;

/// The digit `9`.
pub const NINE: u8 = 57;

/// The colon that ends a header name.
pub const COLON: u8 = 58;

/// The bytes of a text whose characters all lie in the ASCII range.
pub open spec fn ascii(text: Seq<char>) -> Seq<u8> {
    text.map_values(|c: char| c as u8)
}

/// The bytes of `text`, for a text in ASCII.
pub fn ascii_bytes(text: &str) -> (r: &[u8])
    requires
        is_ascii(text),
    ensures
        r@ == ascii(text@),
{
    proof {
        is_ascii_spec_bytes(text);
    }
    text.as_bytes()
}

/// The first index at or after `from` that holds `b`, or the length of `s`
/// where there is none; an index beyond `s` stays as it is.
pub open spec fn find(s: Seq<u8>, b: u8, from: int) -> int
    decreases s.len() - from,
{
    if from >= s.len() || s[from] == b {
        from
    } else {
        find(s, b, from + 1)
    }
}

/// `find` gives the first occurrence, and nothing before it matches.
pub proof fn lemma_find(s: Seq<u8>, b: u8, from: int)
    requires
        0 <= from <= s.len(),
    ensures
        from <= find(s, b, from) <= s.len(),
        find(s, b, from) < s.len() ==> s[find(s, b, from)] == b,
        forall|i: int| from <= i < find(s, b, from) ==> s[i] != b,
    decreases s.len() - from,
{
    if from < s.len() && s[from] != b {
        lemma_find(s, b, from + 1);
    }
}

/// An index that holds `b`, with no `b` before it, is what `find` gives.
pub proof fn lemma_find_is(s: Seq<u8>, b: u8, from: int, at: int)
    requires
        0 <= from <= at <= s.len(),
        at < s.len() ==> s[at] == b,
        forall|i: int| from <= i < at ==> s[i] != b,
    ensures
        find(s, b, from) == at,
{
    lemma_find(s, b, from);
    let f = find(s, b, from);
    if f < at {
        assert(s[f] != b);
    } else if at < f {
        assert(s[at] != b);
    }
}

/// The index of the first `b` at or after `from`, or the length of `s`.
pub fn find_byte(s: &[u8], b: u8, from: usize) -> (r: usize)
    requires
        from <= s@.len(),
    ensures
        r == find(s@, b, from as int),
        from <= r <= s@.len(),
{
    proof {
        lemma_find(s@, b, from as int);
    }
    let mut i: usize = from;
    while i < s.len() && s[i] != b
        invariant
            from <= i <= s@.len(),
            find(s@, b, from as int) == find(s@, b, i as int),
        decreases s@.len() - i,
    {
        i = i + 1;
    }
    i
}

/// Whether `b` is a space or a tab.
pub open spec fn is_blank(b: u8) -> bool {
    b == SPACE || b == TAB
}

/// The first index at or after `from` that holds neither a space nor a tab, or
/// the length of `s`.
pub open spec fn skip_blanks(s: Seq<u8>, from: int) -> int
    decreases s.len() - from,
{
    if from >= s.len() || !is_blank(s[from]) {
        from
    } else {
        skip_blanks(s, from + 1)
    }
}

/// `skip_blanks` stops at the first byte that is no blank, and only blanks lie
/// before it.
pub proof fn lemma_skip_blanks(s: Seq<u8>, from: int)
    requires
        0 <= from <= s.len(),
    ensures
        from <= skip_blanks(s, from) <= s.len(),
        skip_blanks(s, from) < s.len() ==> !is_blank(s[skip_blanks(s, from)]),
        forall|i: int| from <= i < skip_blanks(s, from) ==> is_blank(#[trigger] s[i]),
    decreases s.len() - from,
{
    if from < s.len() && is_blank(s[from]) {
        lemma_skip_blanks(s, from + 1);
    }
}

/// The index of the first byte at or after `from` that is no blank.
pub fn skip_blank_bytes(s: &[u8], from: usize) -> (r: usize)
    requires
        from <= s@.len(),
    ensures
        r == skip_blanks(s@, from as int),
        from <= r <= s@.len(),
{
    proof {
        lemma_skip_blanks(s@, from as int);
    }
    let mut i: usize = from;
    while i < s.len() && (s[i] == SPACE || s[i] == TAB)
        invariant
            from <= i <= s@.len(),
            skip_blanks(s@, from as int) == skip_blanks(s@, i as int),
        decreases s@.len() - i,
    {
        i = i + 1;
    }
    i
}

/// Whether two byte strings are the same.
pub fn bytes_eq(a: &[u8], b: &[u8]) -> (r: bool)
    ensures
        r == (a@ == b@),
{
    if a.len() != b.len() {
        return false;
    }
    let mut i: usize = 0;
    while i < a.len()
        invariant
            i <= a@.len(),
            a@.len() == b@.len(),
            forall|j: int| 0 <= j < i ==> a@[j] == b@[j],
        decreases a@.len() - i,
    {
        if a[i] != b[i] {
            return false;
        }
        i = i + 1;
    }
    assert(a@ =~= b@);
    true
}

/// An upper-case ASCII letter in lower case; any other byte as it is.
pub open spec fn lower(b: u8) -> u8 {
    if 65 <= b <= 90 {
        (b + 32) as u8
    } else {
        b
    }
}

/// Whether two byte strings differ at most in the case of ASCII letters.
pub open spec fn same_ignoring_case(a: Seq<u8>, b: Seq<u8>) -> bool {
    &&& a.len() == b.len()
    &&& forall|i: int| 0 <= i < a.len() ==> lower(#[trigger] a[i]) == lower(b[i])
}

fn lower_byte(b: u8) -> (r: u8)
    ensures
        r == lower(b),
{
    if 65 <= b && b <= 90 {
        b + 32
    } else {
        b
    }
}

/// Whether two byte strings differ at most in the case of ASCII letters.
pub fn eq_ignore_case(a: &[u8], b: &[u8]) -> (r: bool)
    ensures
        r == same_ignoring_case(a@, b@),
{
    if a.len() != b.len() {
        return false;
    }
    let mut i: usize = 0;
    while i < a.len()
        invariant
            i <= a@.len(),
            a@.len() == b@.len(),
            forall|j: int| 0 <= j < i ==> lower(#[trigger] a@[j]) == lower(b@[j]),
        decreases a@.len() - i,
    {
        if lower_byte(a[i]) != lower_byte(b[i]) {
            assert(lower(a@[i as int]) != lower(b@[i as int]));
            return false;
        }
        i = i + 1;
    }
    true
}

/// Whether `s` is a non-empty run of decimal digits.
pub open spec fn is_number(s: Seq<u8>) -> bool {
    &&& s.len() > 0
    &&& forall|i: int| 0 <= i < s.len() ==> ZERO <= #[trigger] s[i] <= NINE
}

/// The number that a run of decimal digits stands for.
pub open spec fn number_value(s: Seq<u8>) -> nat
    decreases s.len(),
{
    if s.len() == 0 {
        0
    } else {
        number_value(s.drop_last()) * 10 + (s.last() - ZERO) as nat
    }
}

/// What is left of `s` without one leading `+`.
pub open spec fn unsigned_part(s: Seq<u8>) -> Seq<u8> {
    if s.len() > 0 && s[0] == PLUS {
        s.skip(1)
    } else {
        s
    }
}

/// The number that `s` writes down, with or without a leading `+`; zero where
/// `s` holds anything but digits, holds none, or stands for a number beyond
/// `usize`.
pub open spec fn number_or_zero(s: Seq<u8>) -> nat {
    let digits = unsigned_part(s);
    if is_number(digits) && number_value(digits) <= usize::MAX {
        number_value(digits)
    } else {
        0
    }
}

/// A run of digits stands for at least what any of its prefixes stands for.
proof fn lemma_number_prefix(s: Seq<u8>, n: int)
    requires
        0 <= n <= s.len(),
        is_number(s),
    ensures
        number_value(s.take(n)) <= number_value(s),
    decreases s.len() - n,
{
    if n < s.len() {
        lemma_number_prefix(s, n + 1);
        assert(s.take(n + 1).drop_last() =~= s.take(n));
        assert(ZERO <= s[n]);
    } else {
        assert(s.take(n) =~= s);
    }
}

/// Reads a decimal number; anything else counts as zero.
pub fn parse_number(s: &[u8]) -> (r: usize)
    ensures
        r == number_or_zero(s@),
{
    let start: usize = if s.len() > 0 && s[0] == PLUS {
        1
    } else {
        0
    };
    let ghost digits = unsigned_part(s@);
    assert(digits =~= s@.skip(start as int));
    if start == s.len() {
        return 0;
    }
    let mut value: usize = 0;
    let mut i: usize = start;
    while i < s.len()
        invariant
            start <= i <= s@.len(),
            start < s@.len(),
            digits == s@.skip(start as int),
            digits == unsigned_part(s@),
            value == number_value(digits.take(i - start)),
            forall|j: int| 0 <= j < i - start ==> ZERO <= #[trigger] digits[j] <= NINE,
        decreases s@.len() - i,
    {
        let b: u8 = s[i];
        assert(b == digits[i - start]);
        if b < ZERO || b > NINE {
            return 0;
        }
        let ghost before = digits.take(i - start);
        let ghost after = digits.take(i - start + 1);
        assert(after.drop_last() =~= before);
        assert(number_value(after) == value * 10 + (b - ZERO));
        proof {
            if is_number(digits) {
                lemma_number_prefix(digits, i - start + 1);
            }
        }
        let digit: usize = (b - ZERO) as usize;
        value = match value.checked_mul(10) {
            Some(tens) => match tens.checked_add(digit) {
                Some(v) => v,
                None => {
                    return 0;
                },
            },
            None => {
                return 0;
            },
        };
        i = i + 1;
    }
    assert(digits.take(i - start) =~= digits);
    value
}

/// The decimal digits of `n`, without leading zeros.
pub open spec fn decimal(n: nat) -> Seq<u8>
    decreases n,
{
    if n < 10 {
        seq![(ZERO + n) as u8]
    } else {
        decimal(n / 10).push((ZERO + n % 10) as u8)
    }
}

/// Reading the decimal digits of a number gives the number back.
pub proof fn law_decimal_reads_back(n: nat)
    ensures
        is_number(decimal(n)),
        number_value(decimal(n)) == n,
        n <= usize::MAX ==> number_or_zero(decimal(n)) == n,
    decreases n,
{
    let d = decimal(n);
    if n < 10 {
        assert(d.drop_last() =~= Seq::<u8>::empty());
        assert(number_value(d.drop_last()) == 0);
    } else {
        law_decimal_reads_back(n / 10);
        assert(d.drop_last() =~= decimal(n / 10));
    }
    assert(d[0] != PLUS);
}

/// The decimal digits of a number of up to sixteen bits.
pub fn decimal_bytes(n: u16) -> (r: Vec<u8>)
    ensures
        r@ == decimal(n as nat),
    decreases n,
{
    if n < 10 {
        let mut v: Vec<u8> = Vec::new();
        v.push(ZERO + n as u8);
        assert(v@ =~= decimal(n as nat));
        v
    } else {
        let mut v: Vec<u8> = decimal_bytes(n / 10);
        v.push(ZERO + (n % 10) as u8);
        v
    }
}

} // verus!
