//! Lexing: source text to tokens, one per recognised character.
use vstd::prelude::*;
use vstd::std_specs::iter::IteratorSpec;

verus! {

broadcast use vstd::string::group_string_axioms;

/// One recognised source character.
#[derive(Clone, Copy, Debug, PartialEq, Eq, Structural)]
pub enum Token {
    Increment,
    Decrement,
    MoveRight,
    MoveLeft,
    Write,
    Read,
    Fork,
    EnterLoop,
    ExitLoop,
}

/// The token a source character stands for, if any. `Y` is a fork only
/// when the fork capability is enabled.
pub open spec fn token_of(c: char, fork: bool) -> Option<Token> {
    if c == '+' {
        Some(Token::Increment)
    } else if c == '-' {
        Some(Token::Decrement)
    } else if c == '>' {
        Some(Token::MoveRight)
    } else if c == '<' {
        Some(Token::MoveLeft)
    } else if c == '.' {
        Some(Token::Write)
    } else if c == ',' {
        Some(Token::Read)
    } else if c == '[' {
        Some(Token::EnterLoop)
    } else if c == ']' {
        Some(Token::ExitLoop)
    } else if c == 'Y' && fork {
        Some(Token::Fork)
    } else {
        None
    }
}

/// The tokens of a source text: one per recognised character, in order.
pub open spec fn lex_chars(s: Seq<char>, fork: bool) -> Seq<Token>
    decreases s.len(),
{
    if s.len() == 0 {
        Seq::empty()
    } else {
        let rest = lex_chars(s.drop_last(), fork);
        match token_of(s.last(), fork) {
            Some(t) => rest.push(t),
            None => rest,
        }
    }
}

/// Lexing has no state carried between characters: the tokens of a
/// concatenation are the tokens of its parts, concatenated.
pub proof fn lemma_lex_concat(a: Seq<char>, b: Seq<char>, fork: bool)
    ensures
        lex_chars(a + b, fork) == lex_chars(a, fork) + lex_chars(b, fork),
    decreases b.len(),
{
    if b.len() == 0 {
        assert(a + b =~= a);
    } else {
        lemma_lex_concat(a, b.drop_last(), fork);
        assert((a + b).drop_last() =~= a + b.drop_last());
        assert((a + b).last() == b.last());
    }
}

fn token_for(c: char, fork: bool) -> (r: Option<Token>)
    ensures
        r == token_of(c, fork),
{
    match c {
        '+' => Some(Token::Increment),
        '-' => Some(Token::Decrement),
        '>' => Some(Token::MoveRight),
        '<' => Some(Token::MoveLeft),
        '.' => Some(Token::Write),
        ',' => Some(Token::Read),
        '[' => Some(Token::EnterLoop),
        ']' => Some(Token::ExitLoop),
        'Y' => if fork {
            Some(Token::Fork)
        } else {
            None
        },
        _ => None,
    }
}

/// Turns source text into tokens, dropping every unrecognised character.
pub fn lex(program: &str, fork: bool) -> (tokens: Vec<Token>)
    ensures
        tokens@ == lex_chars(program@, fork),
{
    let mut tokens: Vec<Token> = Vec::new();
    for c in it: program.chars()
        invariant
            it.seq() == program@,
            tokens@ == lex_chars(it.seq().take(it.index() as int), fork),
    {
        proof {
            assert(it.seq().take(it.index() + 1).drop_last() =~= it.seq().take(it.index() as int));
        }
        if let Some(t) = token_for(c, fork) {
            tokens.push(t);
        }
    }
    assert(program@.take(program@.len() as int) =~= program@);
    tokens
}

} // verus!
