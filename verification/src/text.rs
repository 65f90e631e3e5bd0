//! Small operations on text that the standard library provides.
use vstd::prelude::*;

verus! {

/// `a == b` for string slices (`str`'s `PartialEq`): equal exactly when the
/// characters are equal.
#[verifier::external_body]
pub(crate) fn str_eq(a: &str, b: &str) -> (r: bool)
    ensures
        r == (a@ == b@),
{
    a == b
}

/// `s` holds `pat` as a contiguous run of characters.
pub open spec fn contains_text(s: Seq<char>, pat: Seq<char>) -> bool {
    exists|i: int| 0 <= i <= s.len() - pat.len() && #[trigger] s.subrange(i, i + pat.len()) == pat
}

/// `s.contains(pat)` (`str::contains` with a string pattern): whether `pat`
/// occurs in `s`.
#[verifier::external_body]
pub(crate) fn str_contains(s: &str, pat: &str) -> (r: bool)
    ensures
        r == contains_text(s@, pat@),
{
    s.contains(pat)
}

/// `s.push(c)` (`String::push`): appends one character.
#[verifier::external_body]
pub(crate) fn string_push(s: &mut String, c: char)
    ensures
        final(s)@ == old(s)@.push(c),
{
    s.push(c)
}

/// `s.pop()` (`String::pop`): removes and returns the last character.
#[verifier::external_body]
pub(crate) fn string_pop(s: &mut String) -> (r: Option<char>)
    ensures
        old(s)@.len() == 0 ==> r is None && final(s)@ == old(s)@,
        old(s)@.len() > 0 ==> r == Some(old(s)@.last()) && final(s)@ == old(s)@.drop_last(),
{
    s.pop()
}

/// `s.clear()` (`String::clear`): makes the string empty.
#[verifier::external_body]
pub(crate) fn string_clear(s: &mut String)
    ensures
        final(s)@ == Seq::<char>::empty(),
{
    s.clear()
}

/// `c` is an ASCII digit.
pub open spec fn is_digit(c: char) -> bool {
    '0' <= c <= '9'
}

/// The number that the ASCII digits `s` write in base ten (zero for none).
pub open spec fn digits_value(s: Seq<char>) -> nat
    decreases s.len(),
{
    if s.len() == 0 {
        0
    } else {
        digits_value(s.drop_last()) * 10 + ((s.last() as u32) - ('0' as u32)) as nat
    }
}

/// What `str::parse::<u64>` returns for `s` (`None` on an error): an
/// optional `+` and then one or more ASCII digits, nothing else, whose
/// value fits in a `u64`.
pub open spec fn u64_parse(s: Seq<char>) -> Option<u64> {
    let ds = if s.len() > 0 && s[0] == '+' {
        s.drop_first()
    } else {
        s
    };
    if ds.len() > 0 && (forall|i: int| 0 <= i < ds.len() ==> is_digit(#[trigger] ds[i]))
        && digits_value(ds) <= u64::MAX {
        Some(digits_value(ds) as u64)
    } else {
        None
    }
}

/// `s.parse::<u64>()`, with the error dropped.
/// Claims: as `u64::from_str` is documented, an optional `+` followed by
/// only ASCII digits is accepted when its value fits, and anything else
/// (an empty string, a sign alone, any other character) is an error.
#[verifier::external_body]
pub(crate) fn parse_u64(s: &str) -> (r: Option<u64>)
    ensures
        r == u64_parse(s@),
{
    match s.parse::<u64>() {
        Ok(n) => Some(n),
        Err(_) => None,
    }
}

/// The ASCII digit for `d` (below ten).
pub open spec fn digit_char(d: nat) -> char {
    if d == 0 { '0' } else if d == 1 { '1' } else if d == 2 { '2' } else if d == 3 { '3' } else if d
        == 4 { '4' } else if d == 5 { '5' } else if d == 6 { '6' } else if d == 7 { '7' } else if d
        == 8 { '8' } else { '9' }
}

/// The decimal digits of `n`, most significant first, with no leading
/// zero (`"0"` for zero).
pub open spec fn nat_digits(n: nat) -> Seq<char>
    decreases n,
{
    if n < 10 {
        seq![digit_char(n)]
    } else {
        nat_digits(n / 10).push(digit_char(n % 10))
    }
}

/// The decimal digits of `n`, as `u64`'s `Display` writes them.
pub open spec fn u64_text(n: u64) -> Seq<char> {
    nat_digits(n as nat)
}

/// `n` written by `u64`'s `Display`.
/// Claims: the text is `n` in decimal digits, with no sign, padding or
/// leading zero.
#[verifier::external_body]
pub(crate) fn u64_to_text(n: u64) -> (r: String)
    ensures
        r@ == u64_text(n),
{
    n.to_string()
}

} // verus!
