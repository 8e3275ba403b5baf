use brainfork::{lex, optimise, parse, Edit, Error, Instruction, Move, Token};

fn parsed(source: &str) -> Result<Vec<Instruction>, Error> {
    parse(&lex(source, true))
}

#[test]
fn lex_keeps_order_and_drops_comments() {
    let tokens = lex("a+b-c>d<e.f,g[h]i", false);
    assert_eq!(
        tokens,
        vec![
            Token::Increment,
            Token::Decrement,
            Token::MoveRight,
            Token::MoveLeft,
            Token::Write,
            Token::Read,
            Token::EnterLoop,
            Token::ExitLoop,
        ]
    );
}

#[test]
fn lex_fork_only_when_enabled() {
    assert_eq!(lex("Y+Y", true), vec![Token::Fork, Token::Increment, Token::Fork]);
    assert_eq!(lex("Y+Y", false), vec![Token::Increment]);
}

#[test]
fn lex_twice_gives_the_same_tokens() {
    let source = "++[>+<-]Y. some words, too";
    assert_eq!(lex(source, true), lex(source, true));
    assert_eq!(lex("", true), vec![]);
}

#[test]
fn lex_of_concatenation_is_concatenation() {
    let mut joined = lex("+[x", true);
    joined.extend(lex("y-]Y", true));
    assert_eq!(lex("+[xy-]Y", true), joined);
}

#[test]
fn parse_builds_loops() {
    let program = parsed("+[-]").unwrap();
    assert_eq!(
        program,
        vec![
            Instruction::Edit(Edit::Increment(1)),
            Instruction::Loop(vec![Instruction::Edit(Edit::Decrement(1))]),
        ]
    );
}

#[test]
fn parse_nested_loops_and_leaves() {
    let program = parsed(">[<[.,]Y]").unwrap();
    assert_eq!(
        program,
        vec![
            Instruction::Move(Move::Right(1)),
            Instruction::Loop(vec![
                Instruction::Move(Move::Left(1)),
                Instruction::Loop(vec![Instruction::Write, Instruction::Read]),
                Instruction::Fork,
            ]),
        ]
    );
}

#[test]
fn parse_unmatched_close_at_its_index() {
    assert_eq!(parsed("]"), Err(Error::UnmatchedCloseLoop(0)));
    assert_eq!(parsed("+[-]]+"), Err(Error::UnmatchedCloseLoop(4)));
    // positions count tokens, not characters
    assert_eq!(parsed("ab + cd ] ef"), Err(Error::UnmatchedCloseLoop(1)));
}

#[test]
fn parse_close_before_open_is_unmatched() {
    assert_eq!(parsed("][]"), Err(Error::UnmatchedCloseLoop(0)));
    assert_eq!(parsed("+][["), Err(Error::UnmatchedCloseLoop(1)));
}

#[test]
fn parse_unmatched_open_fails() {
    assert_eq!(parsed("["), Err(Error::UnmatchedOpenLoop(1)));
    assert_eq!(parsed("+++["), Err(Error::UnmatchedOpenLoop(4)));
    assert!(matches!(parsed("[[]"), Err(Error::UnmatchedOpenLoop(_))));
}

#[test]
fn parse_reports_innermost_unterminated_loop() {
    // the loop opened at token 1 is closed; the one at token 0 is not
    assert_eq!(parsed("[[-]+"), Err(Error::UnmatchedOpenLoop(1)));
    // the loop opened at token 2 is the innermost unterminated one
    assert_eq!(parsed("+[[-"), Err(Error::UnmatchedOpenLoop(3)));
}

#[test]
fn parse_empty_program() {
    assert_eq!(parsed(""), Ok(vec![]));
    assert_eq!(parsed("no tokens here"), Ok(vec![]));
}

#[test]
fn optimise_clear_idiom() {
    let program = optimise(parsed("[-]").unwrap());
    assert_eq!(program, vec![Instruction::Clear]);
}

#[test]
fn optimise_edit_other() {
    let program = optimise(parsed(">+<").unwrap());
    assert_eq!(program, vec![Instruction::EditOther(Move::Right(1), Edit::Increment(1))]);
    let program = optimise(parsed("<<--->>").unwrap());
    assert_eq!(program, vec![Instruction::EditOther(Move::Left(2), Edit::Decrement(3))]);
}

#[test]
fn optimise_merges_and_cancels() {
    assert_eq!(optimise(parsed("+++--").unwrap()), vec![Instruction::Edit(Edit::Increment(1))]);
    assert_eq!(optimise(parsed("+--").unwrap()), vec![Instruction::Edit(Edit::Decrement(1))]);
    assert_eq!(optimise(parsed("+-").unwrap()), vec![]);
    assert_eq!(optimise(parsed("><<<").unwrap()), vec![Instruction::Move(Move::Left(2))]);
    assert_eq!(optimise(parsed("+><-").unwrap()), vec![]);
}

#[test]
fn optimise_move_edit_and_unequal_return() {
    assert_eq!(
        optimise(parsed(">>+<").unwrap()),
        vec![
            Instruction::MoveEdit(Move::Right(2), Edit::Increment(1)),
            Instruction::Move(Move::Left(1)),
        ]
    );
}

#[test]
fn optimise_loop_bodies_first() {
    assert_eq!(
        optimise(parsed("[>[-]<-]").unwrap()),
        vec![Instruction::Loop(vec![
            Instruction::Move(Move::Right(1)),
            Instruction::Clear,
            Instruction::MoveEdit(Move::Left(1), Edit::Decrement(1)),
        ])]
    );
    assert_eq!(optimise(parsed("[--]").unwrap()), vec![Instruction::Loop(vec![
        Instruction::Edit(Edit::Decrement(2)),
    ])]);
}

#[test]
fn optimise_is_idempotent() {
    for source in ["[-]>+<", "++>>-<<[->+<]Y.", ">+<+>", "[[-]+>>+<<]", ",[.,]", "+->-<+"] {
        let once = optimise(parsed(source).unwrap());
        let twice = optimise(optimise(parsed(source).unwrap()));
        assert_eq!(once, twice, "{}", source);
    }
}
