//! Reading unsigned decimal numbers as `str::parse` does for unsigned integer types:
//! an optional leading `+`, then one or more ASCII digits, of a value the type can hold.
//! Where it fails it says why, as `ParseIntError`'s kind does.
use vstd::prelude::*;

use crate::text::chars_of;

verus! {

/// Why a text is not an unsigned number.
#[derive(Clone, Copy, Debug, PartialEq, Eq)]
pub enum ParseFailure {
    /// The text is empty.
    Empty,
    /// A character is not a digit (or the text is a lone sign).
    InvalidDigit,
    /// The number is too large for the type.
    PosOverflow,
}

/// `c` is an ASCII digit.
pub open spec fn is_digit(c: char) -> bool {
    48 <= (c as int) <= 57
}

/// The digits of `text`: all of it, less one leading `+`.
pub open spec fn digits_part(text: Seq<char>) -> Seq<char> {
    if text.len() > 0 && text[0] == '+' {
        text.drop_first()
    } else {
        text
    }
}

/// Reading the first `n` characters of `digits` from the left, digit by digit, with the
/// value kept at most `max`: the value so far, or the first failure met. At each
/// character a non-digit fails before a value too large does.
pub open spec fn scan_digits(digits: Seq<char>, n: nat, max: int) -> Result<int, ParseFailure>
    decreases n,
{
    if n == 0 {
        Ok(0)
    } else {
        match scan_digits(digits, (n - 1) as nat, max) {
            Err(e) => Err(e),
            Ok(v) => {
                let c = digits[n - 1];
                if !is_digit(c) {
                    Err(ParseFailure::InvalidDigit)
                } else if 10 * v + (c as int - 48) > max {
                    Err(ParseFailure::PosOverflow)
                } else {
                    Ok(10 * v + (c as int - 48))
                }
            },
        }
    }
}

/// What parsing `text` as an unsigned integer of largest value `max` gives.
pub open spec fn parse_outcome(text: Seq<char>, max: int) -> Result<int, ParseFailure> {
    if text.len() == 0 {
        Err(ParseFailure::Empty)
    } else if digits_part(text).len() == 0 {
        Err(ParseFailure::InvalidDigit)
    } else {
        scan_digits(digits_part(text), digits_part(text).len(), max)
    }
}

/// The value that parsing `text` gives, if it succeeds.
pub open spec fn parsed_unsigned(text: Seq<char>, max: int) -> Option<int> {
    match parse_outcome(text, max) {
        Ok(v) => Some(v),
        Err(_) => None,
    }
}

proof fn lemma_failure_stays(digits: Seq<char>, n: nat, m: nat, max: int)
    requires
        n <= m,
        scan_digits(digits, n, max) is Err,
    ensures
        scan_digits(digits, m, max) == scan_digits(digits, n, max),
    decreases m,
{
    if m > n {
        lemma_failure_stays(digits, n, (m - 1) as nat, max);
    }
}

proof fn lemma_scan_tail(digits: Seq<char>, n: nat, max: int)
    requires
        n <= digits.len(),
        scan_digits(digits, n, max) is Err,
    ensures
        scan_digits(digits, digits.len(), max) == scan_digits(digits, n, max),
{
    lemma_failure_stays(digits, n, digits.len(), max);
}

/// The value of the ASCII digit `c`.
fn digit_value(c: char) -> (v: u8)
    requires
        is_digit(c),
    ensures
        v == c as int - 48,
{
    match c {
        '0' => 0,
        '1' => 1,
        '2' => 2,
        '3' => 3,
        '4' => 4,
        '5' => 5,
        '6' => 6,
        '7' => 7,
        '8' => 8,
        _ => 9,
    }
}

/// The unsigned integer, at most `max`, that `text` spells, as `str::parse` reads it,
/// or why it spells none.
pub fn parse_unsigned(text: &str, max: u64) -> (value: Result<u64, ParseFailure>)
    ensures
        match value {
            Ok(v) => parse_outcome(text@, max as int) == Ok::<int, ParseFailure>(v as int),
            Err(e) => parse_outcome(text@, max as int) == Err::<int, ParseFailure>(e),
        },
{
    let chars = chars_of(text);
    if chars.len() == 0 {
        return Err(ParseFailure::Empty);
    }
    let start: usize = if chars[0] == '+' {
        1
    } else {
        0
    };
    let ghost d = digits_part(text@);
    assert(d =~= chars@.skip(start as int));
    if start >= chars.len() {
        return Err(ParseFailure::InvalidDigit);
    }
    let mut acc: u128 = 0;
    let mut i: usize = start;
    while i < chars.len()
        invariant
            start <= i <= chars@.len(),
            start < chars@.len(),
            d == chars@.skip(start as int),
            d == digits_part(text@),
            text@.len() > 0,
            scan_digits(d, (i - start) as nat, max as int) == Ok::<int, ParseFailure>(acc as int),
            acc <= max,
        decreases chars@.len() - i,
    {
        let c = chars[i];
        assert(c == d[i - start]);
        if !(c >= '0' && c <= '9') {
            proof {
                lemma_scan_tail(d, (i + 1 - start) as nat, max as int);
            }
            return Err(ParseFailure::InvalidDigit);
        }
        let digit = digit_value(c) as u128;
        acc = acc * 10 + digit;
        if acc > max as u128 {
            proof {
                lemma_scan_tail(d, (i + 1 - start) as nat, max as int);
            }
            return Err(ParseFailure::PosOverflow);
        }
        i = i + 1;
    }
    Ok(acc as u64)
}

/// The light id that `text` spells, as `text.parse::<u16>().ok()` reads it.
pub fn parse_light_id(text: &str) -> (id: Option<u16>)
    ensures
        match id {
            Some(v) => parsed_unsigned(text@, 0xffff) == Some(v as int),
            None => parsed_unsigned(text@, 0xffff) is None,
        },
{
    match parse_unsigned(text, 0xffff) {
        Ok(v) => Some(v as u16),
        Err(_) => None,
    }
}

/// The index that `text` spells, as `text.parse::<usize>()` reads it, or why it spells
/// none.
pub fn parse_index(text: &str) -> (index: Result<usize, ParseFailure>)
    ensures
        match index {
            Ok(v) => parse_outcome(text@, usize::MAX as int) == Ok::<int, ParseFailure>(v as int),
            Err(e) => parse_outcome(text@, usize::MAX as int) == Err::<int, ParseFailure>(e),
        },
{
    match parse_unsigned(text, usize::MAX as u64) {
        Ok(v) => Ok(v as usize),
        Err(e) => Err(e),
    }
}


/// The ASCII digit for `v` in `0..10`.
pub open spec fn digit_char(v: int) -> char {
    if v == 0 {
        '0'
    } else if v == 1 {
        '1'
    } else if v == 2 {
        '2'
    } else if v == 3 {
        '3'
    } else if v == 4 {
        '4'
    } else if v == 5 {
        '5'
    } else if v == 6 {
        '6'
    } else if v == 7 {
        '7'
    } else if v == 8 {
        '8'
    } else {
        '9'
    }
}

/// `n` written in decimal, without leading zeros.
pub open spec fn decimal_text(n: nat) -> Seq<char>
    decreases n,
{
    if n < 10 {
        seq![digit_char(n as int)]
    } else {
        decimal_text(n / 10).push(digit_char((n % 10) as int))
    }
}

proof fn lemma_scan_extends(s: Seq<char>, t: Seq<char>, n: nat, max: int)
    requires
        n <= s.len(),
    ensures
        scan_digits(s + t, n, max) == scan_digits(s, n, max),
    decreases n,
{
    if n > 0 {
        lemma_scan_extends(s, t, (n - 1) as nat, max);
        assert((s + t)[n - 1] == s[n - 1]);
    }
}

proof fn lemma_scan_decimal(n: nat, max: int)
    requires
        max >= 0,
    ensures
        decimal_text(n).len() > 0,
        n <= max ==> scan_digits(decimal_text(n), decimal_text(n).len(), max) == Ok::<int, ParseFailure>(n as int),
        n > max ==> scan_digits(decimal_text(n), decimal_text(n).len(), max) == Err::<int, ParseFailure>(ParseFailure::PosOverflow),
    decreases n,
{
    let d = (n % 10) as int;
    assert(is_digit(digit_char(d)) && digit_char(d) as int - 48 == d);
    if n < 10 {
        let s = decimal_text(n);
        assert(scan_digits(s, 0, max) == Ok::<int, ParseFailure>(0));
    } else {
        let p = decimal_text(n / 10);
        lemma_scan_decimal(n / 10, max);
        let s = decimal_text(n);
        assert(s == p + seq![digit_char(d)]);
        lemma_scan_extends(p, seq![digit_char(d)], p.len(), max);
        assert(s[p.len() as int] == digit_char(d));
        if n / 10 > max {
            assert(n > max);
        }
    }
}

/// Parsing reads back any number written in decimal, with or without a leading `+`,
/// when the type can hold it, and reports it too large when it cannot.
pub proof fn law_decimal_round_trip(n: nat, max: int)
    requires
        max >= 0,
    ensures
        n <= max ==> parse_outcome(decimal_text(n), max) == Ok::<int, ParseFailure>(n as int),
        n <= max ==> parse_outcome(seq!['+'] + decimal_text(n), max) == Ok::<int, ParseFailure>(n as int),
        n > max ==> parse_outcome(decimal_text(n), max) == Err::<int, ParseFailure>(ParseFailure::PosOverflow),
{
    lemma_scan_decimal(n, max);
    let s = decimal_text(n);
    assert(s[0] != '+') by {
        lemma_decimal_digits(n);
    }
    assert(digits_part(s) == s);
    assert((seq!['+'] + s)[0] == '+');
    assert(digits_part(seq!['+'] + s) =~= s);
}

proof fn lemma_decimal_digits(n: nat)
    ensures
        forall|i: int| 0 <= i < decimal_text(n).len() ==> is_digit(#[trigger] decimal_text(n)[i]),
    decreases n,
{
    if n >= 10 {
        lemma_decimal_digits(n / 10);
        let d = (n % 10) as int;
        assert(is_digit(digit_char(d)));
        let p = decimal_text(n / 10);
        assert forall|i: int| 0 <= i < decimal_text(n).len() implies is_digit(#[trigger] decimal_text(n)[i]) by {
            if i < p.len() {
                assert(decimal_text(n)[i] == p[i]);
            }
        }
    } else {
        assert(is_digit(digit_char(n as int)));
    }
}

/// A text with a character that is not a digit, after an optional leading `+`, is no
/// number: parsing it fails (for that character, or for a value too large before it),
/// and never as an empty text.
pub proof fn law_non_digit_fails(text: Seq<char>, max: int)
    requires
        max >= 0,
        digits_part(text).len() > 0,
        exists|i: int| 0 <= i < digits_part(text).len() && !is_digit(#[trigger] digits_part(text)[i]),
    ensures
        parse_outcome(text, max) is Err,
        parse_outcome(text, max) != Err::<int, ParseFailure>(ParseFailure::Empty),
{
    let d = digits_part(text);
    let i = choose|i: int| 0 <= i < d.len() && !is_digit(#[trigger] d[i]);
    lemma_scan_fails_at(d, i, max);
    lemma_failure_stays(d, (i + 1) as nat, d.len(), max);
}

proof fn lemma_scan_fails_at(d: Seq<char>, i: int, max: int)
    requires
        0 <= i < d.len(),
        !is_digit(d[i]),
    ensures
        scan_digits(d, (i + 1) as nat, max) is Err,
        scan_digits(d, (i + 1) as nat, max) != Err::<int, ParseFailure>(ParseFailure::Empty),
{
    lemma_scan_never_empty(d, i as nat, max);
}

proof fn lemma_scan_never_empty(d: Seq<char>, n: nat, max: int)
    ensures
        scan_digits(d, n, max) != Err::<int, ParseFailure>(ParseFailure::Empty),
    decreases n,
{
    if n > 0 {
        lemma_scan_never_empty(d, (n - 1) as nat, max);
    }
}

} // verus!
