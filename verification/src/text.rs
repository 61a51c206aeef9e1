use vstd::prelude::*;
use vstd::string::StringExecFns;

verus! {

/// The digit for `d`: `0` to `9`, then `A` to `F`.
pub open spec fn digit(d: nat) -> char {
    if d == 0 {
        '0'
    } else if d == 1 {
        '1'
    } else if d == 2 {
        '2'
    } else if d == 3 {
        '3'
    } else if d == 4 {
        '4'
    } else if d == 5 {
        '5'
    } else if d == 6 {
        '6'
    } else if d == 7 {
        '7'
    } else if d == 8 {
        '8'
    } else if d == 9 {
        '9'
    } else if d == 10 {
        'A'
    } else if d == 11 {
        'B'
    } else if d == 12 {
        'C'
    } else if d == 13 {
        'D'
    } else if d == 14 {
        'E'
    } else {
        'F'
    }
}

/// The decimal digits of `n`, without leading zeros.
pub open spec fn decimal_digits(n: nat) -> Seq<char>
    decreases n,
{
    if n < 10 {
        seq![digit(n)]
    } else {
        decimal_digits(n / 10).push(digit(n % 10))
    }
}

/// The hexadecimal digits of `n`, in upper case, without leading zeros.
pub open spec fn hex_digits(n: nat) -> Seq<char>
    decreases n,
{
    if n < 16 {
        seq![digit(n)]
    } else {
        hex_digits(n / 16).push(digit(n % 16))
    }
}

/// The text that `format!` writes for a text with `{:?}`: the text in
/// double quotes, with the characters escaped that need it.
pub uninterp spec fn quoted(text: Seq<char>) -> Seq<char>;

/// `text` in double quotes, as `format!` writes a text with `{:?}`.
#[verifier::external_body]
pub(crate) fn quote(text: &str) -> (shown: String)
    ensures
        shown@ == quoted(text@),
{
    format!("{text:?}")
}

/// `head` followed by `tail`.
pub(crate) fn join(head: &str, tail: &str) -> (text: String)
    ensures
        text@ == head@ + tail@,
{
    head.to_owned().concat(tail)
}

/// `n` in decimal digits, as `format!` writes a number.
#[verifier::external_body]
pub(crate) fn decimal(n: usize) -> (text: String)
    ensures
        text@ == decimal_digits(n as nat),
{
    format!("{n}")
}

/// `n` in upper-case hexadecimal digits, as `format!` writes a number with `X`.
#[verifier::external_body]
pub(crate) fn hex(n: usize) -> (text: String)
    ensures
        text@ == hex_digits(n as nat),
{
    format!("{n:X}")
}

} // verus!
