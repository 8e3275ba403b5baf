//! Text helpers: numerals, scalar values and colouring, over std and colored.
use vstd::prelude::*;
use colored::Colorize;

verus! {

/// A code point that is a Unicode scalar value, so a `char`.
pub open spec fn is_scalar(v: u32) -> bool {
    v < 0xD800 || 0xE000 <= v <= 0x10FFFF
}

/// The decimal digit of `d < 10`.
pub open spec fn digit(d: nat) -> char {
    if d == 0 {
        '0'
    } else if d == 1 {
        '1'
    } else if d == 2 {
        '2'
    } else if d == 3 {
        '3'
    } else if d == 4 {
        '4'
    } else if d == 5 {
        '5'
    } else if d == 6 {
        '6'
    } else if d == 7 {
        '7'
    } else if d == 8 {
        '8'
    } else {
        '9'
    }
}

/// The decimal numeral of `n`, without leading zeros.
pub open spec fn decimal(n: nat) -> Seq<char>
    decreases n,
{
    if n < 10 {
        seq![digit(n)]
    } else {
        decimal(n / 10).push(digit(n % 10))
    }
}

/// The terminal sequence that ends a colour.
pub open spec fn reset_code() -> Seq<char> {
    seq!['\x1b', '[', '0', 'm']
}

/// `s` holds the sequence that ends a colour.
pub open spec fn holds_reset(s: Seq<char>) -> bool {
    exists|i: int| 0 <= i && i + 4 <= s.len() && #[trigger] s.subrange(i, i + 4) == reset_code()
}

/// `r` shows `s` in the foreground colour `code`: either plainly, where
/// colours are off, or between the colour's start and end sequences.
pub open spec fn painted(r: Seq<char>, s: Seq<char>, code: Seq<char>) -> bool {
    r == s || r == seq!['\x1b', '['] + code + seq!['m'] + s + reset_code()
}

/// The colour code of green.
pub open spec fn green_code() -> Seq<char> {
    seq!['3', '2']
}

/// The colour code of yellow.
pub open spec fn yellow_code() -> Seq<char> {
    seq!['3', '3']
}

/// `s` holds no escape character.
pub open spec fn escape_free(s: Seq<char>) -> bool {
    forall|i: int| 0 <= i < s.len() ==> #[trigger] s[i] != '\x1b'
}

/// Text without an escape character holds no colour end.
pub proof fn lemma_escape_free(s: Seq<char>)
    requires
        escape_free(s),
    ensures
        !holds_reset(s),
{
    assert forall|i: int| 0 <= i && i + 4 <= s.len() implies #[trigger] s.subrange(i, i + 4)
        != reset_code() by {
        assert(s.subrange(i, i + 4)[0] == s[i]);
    }
}

/// A numeral holds digits only.
pub proof fn lemma_decimal_escape_free(n: nat)
    ensures
        escape_free(decimal(n)),
        decimal(n).len() > 0,
    decreases n,
{
    if n >= 10 {
        lemma_decimal_escape_free(n / 10);
    }
}

/// One character holds no colour end.
pub proof fn lemma_single_no_reset(c: char)
    ensures
        !holds_reset(seq![c]),
{
}

/// Relies on `char::from_u32`: `Some` exactly for scalar values, holding the
/// character of that code.
#[verifier::external_body]
pub(crate) fn char_from(v: u32) -> (r: Option<char>)
    ensures
        r is Some <==> is_scalar(v),
        r matches Some(c) ==> c as u32 == v,
{
    char::from_u32(v)
}

/// Relies on the `Display` of `u64`: its decimal numeral.
#[verifier::external_body]
pub(crate) fn decimal_text(n: u64) -> (r: String)
    ensures
        r@ == decimal(n as nat),
{
    n.to_string()
}

/// Relies on `char::to_string`: the one character.
#[verifier::external_body]
pub(crate) fn char_text(c: char) -> (r: String)
    ensures
        r@ == seq![c],
{
    c.to_string()
}

/// Relies on colored's `Colorize::green` and the `Display` of its result:
/// the text itself, or the text between "\x1b[32m" and "\x1b[0m", as colours
/// are off or on; the text holds no "\x1b[0m" that would be escaped.
#[verifier::external_body]
pub(crate) fn green(s: &str) -> (r: String)
    requires
        !holds_reset(s@),
    ensures
        painted(r@, s@, green_code()),
{
    s.green().to_string()
}

/// Relies on colored's `Colorize::yellow` and the `Display` of its result,
/// as `green` does, with "\x1b[33m".
#[verifier::external_body]
pub(crate) fn yellow(s: &str) -> (r: String)
    requires
        !holds_reset(s@),
    ensures
        painted(r@, s@, yellow_code()),
{
    s.yellow().to_string()
}

} // verus!
