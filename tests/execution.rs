use brainfork::{
    lex, optimise, parse, Action, Args, Error, Input, Instruction, Machine, Memory, Memory16,
    Memory32, Memory8,
};

fn args(memory_size: u32, wrap_around: bool, no_overflows: bool, debug: bool) -> Args {
    Args {
        file: String::from("program.b"),
        cell_size: 8,
        memory_size,
        wrap_around,
        no_overflows,
        unoptimised: false,
        timed: false,
        debug,
        fork: true,
    }
}

fn program(source: &str, optimised: bool) -> Vec<Instruction> {
    let parsed = parse(&lex(source, true)).unwrap();
    if optimised {
        optimise(parsed)
    } else {
        parsed
    }
}

struct Outcome<M: Memory> {
    output: Vec<String>,
    spawned: Vec<Machine<M>>,
    joined: usize,
    result: Result<Machine<M>, Error>,
}

/// Steps a machine to its end, answering reads from `lines` and keeping
/// spawned continuations aside without running them.
fn drive<M: Memory>(mut machine: Machine<M>, lines: &[Input]) -> Outcome<M> {
    let mut output = Vec::new();
    let mut spawned = Vec::new();
    let mut joined = 0;
    let mut pending = None;
    let mut next_line = 0;
    for _ in 0..100_000 {
        let (after, action) = machine.step(pending.take());
        machine = after;
        match action {
            Action::Continue => {}
            Action::Output(text) => output.push(text),
            Action::Input => {
                pending = Some(if next_line < lines.len() { lines[next_line] } else { Input::Exhausted });
                next_line += 1;
            }
            Action::Spawn(child) => spawned.push(child),
            Action::Join(n) => joined += n,
            Action::Done => {
                return Outcome { output, spawned, joined, result: Ok(machine) };
            }
            Action::Fail(e) => {
                return Outcome { output, spawned, joined, result: Err(e) };
            }
        }
    }
    panic!("the program did not stop");
}

fn cells<M: Memory>(machine: &Machine<M>, count: usize) -> Vec<u32> {
    (0..count).map(|i| machine.memory().value(i)).collect()
}

#[test]
fn write_after_three_increments() {
    for optimised in [false, true] {
        let machine = Machine::new(program("+++.", optimised), Memory8::new(&args(4, false, false, false)));
        let outcome = drive(machine, &[]);
        assert_eq!(outcome.output, vec![String::from('\u{3}')]);
        assert!(outcome.result.is_ok());
    }
}

#[test]
fn clear_loop_from_two_hundred() {
    assert_eq!(program("[-]", true), vec![Instruction::Clear]);
    for optimised in [false, true] {
        let mut memory = Memory8::new(&args(2, false, false, false));
        memory.set_value(0, 200);
        let outcome = drive(Machine::new(program("[-]", optimised), memory), &[]);
        assert!(outcome.output.is_empty());
        let machine = outcome.result.unwrap();
        assert_eq!(machine.memory().value(0), 0);
    }
}

#[test]
fn edit_other_leaves_pointer() {
    for optimised in [false, true] {
        let machine = Machine::new(program(">+<", optimised), Memory8::new(&args(3, false, false, false)));
        let machine = drive(machine, &[]).result.unwrap();
        assert_eq!(machine.memory().pointer(), 0);
        assert_eq!(cells(&machine, 3), vec![0, 1, 0]);
    }
}

#[test]
fn increment_past_max_wraps_or_fails() {
    let mut memory = Memory8::new(&args(2, false, false, false));
    memory.set_value(0, 255);
    assert_eq!(memory.add_value(0, 1), Ok(0));
    let mut strict = Memory8::new(&args(2, false, true, false));
    strict.set_value(1, 255);
    assert_eq!(strict.add_value(1, 1), Err(Error::PositiveOverflow(1)));
    assert_eq!(strict.incr_value(1, 1), Err(Error::PositiveOverflow(1)));
    assert_eq!(strict.value(1), 255);
}

#[test]
fn decrement_below_zero_wraps_or_fails() {
    let memory = Memory16::new(&args(2, false, false, false));
    assert_eq!(memory.sub_value(0, 1), Ok(0xFFFF));
    let strict = Memory16::new(&args(2, false, true, false));
    assert_eq!(strict.sub_value(0, 1), Err(Error::NegativeOverflow(0)));
    let wide = Memory32::new(&args(1, false, false, false));
    assert_eq!(wide.sub_value(0, 1), Ok(u32::MAX));
}

#[test]
fn wrapping_arithmetic_with_large_counts() {
    let mut memory = Memory8::new(&args(1, false, false, false));
    memory.set_value(0, 10);
    assert_eq!(memory.add_value(0, 300), Ok(54));
    assert_eq!(memory.sub_value(0, 300), Ok(222));
    assert_eq!(memory.sub_value(0, 10), Ok(0));
}

#[test]
fn move_right_at_last_cell() {
    let mut memory = Memory8::new(&args(3, true, false, false));
    memory.set_pointer(2);
    assert_eq!(memory.add_pointer(1), Ok(0));
    let mut bounded = Memory8::new(&args(3, false, false, false));
    bounded.set_pointer(2);
    assert_eq!(bounded.add_pointer(1), Err(Error::RightMostCell));
    assert_eq!(bounded.incr_pointer(1), Err(Error::RightMostCell));
    assert_eq!(bounded.pointer(), 2);
}

#[test]
fn move_left_at_first_cell() {
    let memory = Memory8::new(&args(3, true, false, false));
    assert_eq!(memory.sub_pointer(1), Ok(2));
    assert_eq!(memory.sub_pointer(7), Ok(2));
    let bounded = Memory8::new(&args(3, false, false, false));
    assert_eq!(bounded.sub_pointer(1), Err(Error::LeftMostCell));
}

#[test]
fn wrapping_moves_by_large_counts() {
    let mut memory = Memory8::new(&args(5, true, false, false));
    memory.set_pointer(3);
    assert_eq!(memory.add_pointer(9), Ok(2));
    assert_eq!(memory.sub_pointer(9), Ok(4));
}

#[test]
fn run_moves_off_the_tape() {
    let machine = Machine::new(program("<", false), Memory8::new(&args(3, false, false, false)));
    assert!(matches!(drive(machine, &[]).result, Err(Error::LeftMostCell)));
    let machine = Machine::new(program(">>>", true), Memory8::new(&args(3, false, false, false)));
    assert!(matches!(drive(machine, &[]).result, Err(Error::RightMostCell)));
}

#[test]
fn run_overflow_error_names_the_cell() {
    let machine = Machine::new(program(">-", false), Memory8::new(&args(3, false, true, false)));
    assert!(matches!(drive(machine, &[]).result, Err(Error::NegativeOverflow(1))));
}

#[test]
fn read_stores_the_first_character() {
    let machine = Machine::new(program(",.", false), Memory8::new(&args(1, false, false, false)));
    let outcome = drive(machine, &[Input::Char('A')]);
    assert_eq!(outcome.output, vec![String::from("A")]);
    assert_eq!(outcome.result.unwrap().memory().value(0), 65);
}

#[test]
fn read_errors() {
    let run = |input: Input| {
        let machine = Machine::new(program(",", false), Memory8::new(&args(1, false, false, false)));
        drive(machine, &[input]).result.err()
    };
    assert_eq!(run(Input::Exhausted), Some(Error::NoInput));
    assert_eq!(run(Input::ReadFailed), Some(Error::ReadInputFail));
    assert_eq!(run(Input::FlushFailed), Some(Error::WriteOutputFail));
    assert_eq!(run(Input::Char('\u{100}')), Some(Error::RequiresWiderCell('\u{100}', 16)));
    assert_eq!(run(Input::Char('\u{1F600}')), Some(Error::RequiresWiderCell('\u{1F600}', 32)));
}

#[test]
fn read_wide_characters() {
    let memory = Memory16::new(&args(1, false, false, false));
    assert_eq!(memory.char_to_value('\u{100}'), Ok(256));
    assert_eq!(memory.char_to_value('\u{1F600}'), Err(Error::RequiresWiderCell('\u{1F600}', 32)));
    let memory = Memory32::new(&args(1, false, false, false));
    assert_eq!(memory.char_to_value('\u{1F600}'), Ok(0x1F600));
}

#[test]
fn write_invalid_scalar_fails() {
    let mut memory = Memory16::new(&args(1, false, false, false));
    memory.set_value(0, 0xD800);
    assert_eq!(memory.write(), Err(Error::InvalidUnicode(0xD800)));
    memory.set_value(0, 0xE9);
    assert_eq!(memory.write(), Ok(String::from("\u{e9}")));
}

#[test]
fn write_debug_record() {
    let mut memory = Memory16::new(&args(3, false, false, true));
    memory.set_pointer(2);
    memory.set_value(2, 0xD800);
    let record = memory.write().unwrap();
    assert!(record.contains("debug:"));
    assert!(record.contains("[pointer: "));
    assert!(record.contains("2"));
    assert!(record.contains("55296"));
    assert!(record.ends_with("invalid character]"));
    memory.set_value(2, 66);
    let record = memory.write().unwrap();
    assert!(record.contains("66"));
    assert!(record.contains(", character: '"));
    assert!(record.contains('B'));
}

#[test]
fn loop_runs_while_cell_is_nonzero() {
    for optimised in [false, true] {
        let machine = Machine::new(
            program("+++[>++<-]>.", optimised),
            Memory8::new(&args(2, false, false, false)),
        );
        let outcome = drive(machine, &[]);
        assert_eq!(outcome.output, vec![String::from('\u{6}')]);
        assert_eq!(cells(&outcome.result.unwrap(), 2), vec![0, 6]);
    }
}

#[test]
fn fork_spawns_one_continuation() {
    let machine = Machine::new(program("Y+.", false), Memory8::new(&args(3, false, false, false)));
    let outcome = drive(machine, &[]);
    assert_eq!(outcome.spawned.len(), 1);
    assert_eq!(outcome.joined, 1);
    let parent = outcome.result.unwrap();
    assert_eq!(parent.memory().pointer(), 1);
    assert_eq!(cells(&parent, 3), vec![0, 1, 0]);
    assert_eq!(outcome.output, vec![String::from('\u{1}')]);

    let child = drive(outcome.spawned.into_iter().next().unwrap(), &[]);
    assert_eq!(child.output, vec![String::from('\u{2}')]);
    let child = child.result.unwrap();
    assert_eq!(child.memory().pointer(), 1);
    assert_eq!(cells(&child, 3), vec![0, 2, 0]);
}

#[test]
fn fork_at_the_right_end_fails() {
    let mut memory = Memory8::new(&args(2, false, false, false));
    memory.set_pointer(1);
    let outcome = drive(Machine::new(program("Y", false), memory), &[]);
    assert!(outcome.spawned.is_empty());
    assert!(matches!(outcome.result, Err(Error::RightMostCell)));
}

#[test]
fn fork_in_loop_joins_each_iteration() {
    let machine = Machine::new(program("++[Y<-]", false), Memory8::new(&args(4, false, false, false)));
    let outcome = drive(machine, &[]);
    assert_eq!(outcome.spawned.len(), 2);
    assert_eq!(outcome.joined, 2);
}

#[test]
fn messages_name_their_numbers() {
    let text = Error::UnmatchedCloseLoop(17).message();
    assert!(text.starts_with("Unmatched close loop token at position "));
    assert!(text.contains("17"));
    let text = Error::PositiveOverflow(3).message();
    assert!(text.starts_with("Cell "));
    assert!(text.ends_with(" positively overflowed"));
    let text = Error::InvalidUnicode(55296).message();
    assert!(text.contains("55296"));
    assert_eq!(Error::RightMostCell.message(), "Reached the rightmost cell");
    assert_eq!(Error::NoInput.message(), "Expected input, got none");
    let text = Error::RequiresWiderCell('\u{100}', 16).message();
    assert!(text.contains('\u{100}'));
    assert!(text.ends_with("' requires 16 bits"));
}

#[test]
fn optimised_runs_match_plain_runs() {
    let sources = [
        "++>+++[<+>-]<.",
        "+++++[>++++++++++<-]>+.+.-.<[-]>>+<<",
        ",[.,]",
        ">>+<<+>-<>>[-]<<.",
        "++[>+<-]>[<++>-]<.",
    ];
    let lines = [Input::Char('h'), Input::Char('i'), Input::Char('\u{0}')];
    for source in sources {
        let plain = drive(Machine::new(program(source, false), Memory8::new(&args(4, false, false, false))), &lines);
        let fast = drive(Machine::new(program(source, true), Memory8::new(&args(4, false, false, false))), &lines);
        assert_eq!(plain.output, fast.output, "{}", source);
        let plain = plain.result.unwrap();
        let fast = fast.result.unwrap();
        assert_eq!(cells(&plain, 4), cells(&fast, 4), "{}", source);
        assert_eq!(plain.memory().pointer(), fast.memory().pointer(), "{}", source);
    }
}

#[test]
fn optimised_runs_match_errors_when_everything_wraps() {
    for source in ["<<<+>.", "-->+<.", ">,"] {
        let plain = drive(Machine::new(program(source, false), Memory16::new(&args(3, true, false, false))), &[]);
        let fast = drive(Machine::new(program(source, true), Memory16::new(&args(3, true, false, false))), &[]);
        assert_eq!(plain.output, fast.output, "{}", source);
        assert_eq!(plain.result.err(), fast.result.err(), "{}", source);
    }
}

#[test]
fn optimised_run_may_skip_an_overflow() {
    // with overflow errors the plain run fails where the merged edit does not
    let mut memory = Memory8::new(&args(1, false, true, false));
    memory.set_value(0, 255);
    let plain = drive(Machine::new(program("+-", false), memory), &[]);
    assert_eq!(plain.result.err(), Some(Error::PositiveOverflow(0)));
    let mut memory = Memory8::new(&args(1, false, true, false));
    memory.set_value(0, 255);
    let fast = drive(Machine::new(program("+-", true), memory), &[]);
    assert!(fast.result.is_ok());
}

#[test]
fn single_cell_tape_wraps_onto_itself() {
    let memory = Memory8::new(&args(1, true, false, false));
    assert_eq!(memory.add_pointer(1), Ok(0));
    assert_eq!(memory.sub_pointer(1), Ok(0));
    let bounded = Memory8::new(&args(1, false, false, false));
    assert_eq!(bounded.add_pointer(1), Err(Error::RightMostCell));
    assert_eq!(bounded.sub_pointer(1), Err(Error::LeftMostCell));
}

#[test]
fn widest_cells_at_their_largest_value() {
    let mut memory = Memory32::new(&args(2, false, false, false));
    memory.set_value(1, u32::MAX);
    assert_eq!(memory.add_value(1, 1), Ok(0));
    let mut strict = Memory32::new(&args(2, false, true, false));
    strict.set_value(1, u32::MAX);
    assert_eq!(strict.add_value(1, 1), Err(Error::PositiveOverflow(1)));
    assert_eq!(strict.add_value(0, u32::MAX), Ok(u32::MAX));
}

#[test]
fn sixteen_bit_cells_wrap_at_their_largest_value() {
    let mut memory = Memory16::new(&args(1, false, false, false));
    memory.set_value(0, 0xFFFF);
    assert_eq!(memory.add_value(0, 1), Ok(0));
    assert_eq!(memory.add_value(0, 0x10001), Ok(0));
}
