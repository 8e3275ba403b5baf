//! Errors and their messages.
use vstd::prelude::*;
use vstd::string::StringExecFns;
use crate::text::{
    char_text, decimal, decimal_text, green, green_code, lemma_decimal_escape_free,
    lemma_escape_free, lemma_single_no_reset, painted, yellow, yellow_code,
};

verus! {

/// What can go wrong, at compile time or at run time.
#[derive(Clone, Copy, Debug, PartialEq, Eq, Structural)]
pub enum Error {
    /// A close token at this position has no open token before it.
    UnmatchedCloseLoop(usize),
    /// The body of an unterminated loop begins at this position.
    UnmatchedOpenLoop(usize),
    /// This cell went above its largest value.
    PositiveOverflow(usize),
    /// This cell went below zero.
    NegativeOverflow(usize),
    RightMostCell,
    LeftMostCell,
    /// This cell value is no character.
    InvalidUnicode(u32),
    WriteOutputFail,
    NoInput,
    ReadInputFail,
    /// The character read needs cells of this many bits.
    RequiresWiderCell(char, u32),
}

/// The part of an error's message that is coloured.
pub open spec fn message_part(e: Error) -> Seq<char> {
    match e {
        Error::UnmatchedCloseLoop(p) => decimal(p as nat),
        Error::UnmatchedOpenLoop(p) => decimal(p as nat),
        Error::PositiveOverflow(p) => decimal(p as nat),
        Error::NegativeOverflow(p) => decimal(p as nat),
        Error::InvalidUnicode(v) => decimal(v as nat),
        Error::RequiresWiderCell(c, _) => seq![c],
        _ => Seq::empty(),
    }
}

/// The colour of that part: yellow for a character, green for a number.
pub open spec fn message_colour(e: Error) -> Seq<char> {
    match e {
        Error::RequiresWiderCell(_, _) => yellow_code(),
        _ => green_code(),
    }
}

/// The message of an error, around its coloured part `g`.
pub open spec fn message_text(e: Error, g: Seq<char>) -> Seq<char> {
    match e {
        Error::UnmatchedCloseLoop(_) => "Unmatched close loop token at position "@ + g,
        Error::UnmatchedOpenLoop(_) => "Unmatched open loop token at position "@ + g,
        Error::PositiveOverflow(_) => "Cell "@ + g + " positively overflowed"@,
        Error::NegativeOverflow(_) => "Cell "@ + g + " negatively overflowed"@,
        Error::RightMostCell => "Reached the rightmost cell"@,
        Error::LeftMostCell => "Reached the leftmost cell"@,
        Error::InvalidUnicode(_) => g + " isn't a valid Unicode scalar value"@,
        Error::WriteOutputFail => "Failed to write output"@,
        Error::NoInput => "Expected input, got none"@,
        Error::ReadInputFail => "Failed to read input"@,
        Error::RequiresWiderCell(_, bits) => "Storing the character '"@ + g + "' requires "@
            + decimal(bits as nat) + " bits"@,
    }
}

/// `s` is the message of `e`, its part coloured or not.
pub open spec fn shows_message(e: Error, s: Seq<char>) -> bool {
    exists|g: Seq<char>|
        #[trigger] message_text(e, g) == s && painted(g, message_part(e), message_colour(e))
}

fn number_green(n: u64) -> (r: String)
    ensures
        painted(r@, decimal(n as nat), green_code()),
{
    let digits = decimal_text(n);
    proof {
        lemma_decimal_escape_free(n as nat);
        lemma_escape_free(decimal(n as nat));
    }
    green(digits.as_str())
}

fn joined(before: &str, after: &str) -> (r: String)
    ensures
        r@ == before@ + after@,
{
    let mut s = String::from_str(before);
    s.append(after);
    s
}

fn around(before: &str, middle: &str, after: &str) -> (r: String)
    ensures
        r@ == before@ + middle@ + after@,
{
    let mut s = String::from_str(before);
    s.append(middle);
    s.append(after);
    s
}

impl Error {
    /// A description of the error for people, its number or character in
    /// colour where colours are on.
    pub fn message(&self) -> (r: String)
        ensures
            shows_message(*self, r@),
    {
        let e = *self;
        let r = match e {
            Error::UnmatchedCloseLoop(p) => {
                let g = number_green(p as u64);
                let r = joined("Unmatched close loop token at position ", g.as_str());
                proof {
                    assert(message_text(e, g@) == r@);
                }
                r
            },
            Error::UnmatchedOpenLoop(p) => {
                let g = number_green(p as u64);
                let r = joined("Unmatched open loop token at position ", g.as_str());
                proof {
                    assert(message_text(e, g@) == r@);
                }
                r
            },
            Error::PositiveOverflow(p) => {
                let g = number_green(p as u64);
                let r = around("Cell ", g.as_str(), " positively overflowed");
                proof {
                    assert(message_text(e, g@) == r@);
                }
                r
            },
            Error::NegativeOverflow(p) => {
                let g = number_green(p as u64);
                let r = around("Cell ", g.as_str(), " negatively overflowed");
                proof {
                    assert(message_text(e, g@) == r@);
                }
                r
            },
            Error::InvalidUnicode(v) => {
                let g = number_green(v as u64);
                let r = joined(g.as_str(), " isn't a valid Unicode scalar value");
                proof {
                    assert(message_text(e, g@) == r@);
                }
                r
            },
            Error::RequiresWiderCell(c, bits) => {
                let one = char_text(c);
                proof {
                    lemma_single_no_reset(c);
                }
                let g = yellow(one.as_str());
                let mut r = around("Storing the character '", g.as_str(), "' requires ");
                let b = decimal_text(bits as u64);
                r.append(b.as_str());
                r.append(" bits");
                proof {
                    assert(message_text(e, g@) == r@);
                }
                r
            },
            _ => {
                let r = String::from_str(
                    match e {
                        Error::RightMostCell => "Reached the rightmost cell",
                        Error::LeftMostCell => "Reached the leftmost cell",
                        Error::WriteOutputFail => "Failed to write output",
                        Error::NoInput => "Expected input, got none",
                        _ => "Failed to read input",
                    },
                );
                proof {
                    assert(message_text(e, Seq::empty()) == r@);
                }
                r
            },
        };
        r
    }
}

} // verus!
