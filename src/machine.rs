//! The executor: a run advanced one step at a time, handing out the outside
//! work (printing, reading, forking, joining) as actions.
use vstd::prelude::*;
use crate::error::Error;
use crate::instruction::{lemma_nodes_index, node, nodes, Edit, Instruction, Move, Node};
use crate::memory::{
    added, moved_left, moved_right, read_into, shows_record, subtracted, tape_wf, with_cell,
    with_pointer, Input, Memory, Tape,
};
use crate::text::is_scalar;

verus! {

/// The effect of an edit on cell `p`.
pub open spec fn edit_cell(t: Tape, p: int, e: Edit) -> Result<u32, Error> {
    match e {
        Edit::Increment(n) => added(t, p, n as int),
        Edit::Decrement(n) => subtracted(t, p, n as int),
    }
}

/// Where a move leads.
pub open spec fn moved(t: Tape, m: Move) -> Result<int, Error> {
    match m {
        Move::Right(n) => moved_right(t, n as int),
        Move::Left(n) => moved_left(t, n as int),
    }
}

/// An instruction that only changes the tape: an edit, a move, their
/// fusions, or a clear.
pub open spec fn is_cell_op(x: Node) -> bool {
    x is Edit || x is Move || x is MoveEdit || x is EditOther || x is Clear
}

/// The tape after a cell operation, or the error it stops with.
pub open spec fn apply(x: Node, t: Tape) -> Result<Tape, Error> {
    match x {
        Node::Edit(e) => match edit_cell(t, t.pointer, e) {
            Ok(v) => Ok(with_cell(t, t.pointer, v)),
            Err(err) => Err(err),
        },
        Node::Move(m) => match moved(t, m) {
            Ok(p) => Ok(with_pointer(t, p)),
            Err(err) => Err(err),
        },
        Node::MoveEdit(m, e) => match moved(t, m) {
            Ok(p) => match edit_cell(t, p, e) {
                Ok(v) => Ok(with_cell(with_pointer(t, p), p, v)),
                Err(err) => Err(err),
            },
            Err(err) => Err(err),
        },
        Node::EditOther(m, e) => match moved(t, m) {
            Ok(p) => match edit_cell(t, p, e) {
                Ok(v) => Ok(with_cell(t, p, v)),
                Err(err) => Err(err),
            },
            Err(err) => Err(err),
        },
        Node::Clear => Ok(with_cell(t, t.pointer, 0)),
        _ => Ok(t),
    }
}

impl Instruction {
    /// Carries out a cell operation on the memory; on failure the memory is
    /// unchanged.
    pub fn run<M: Memory>(&self, memory: &mut M) -> (r: Result<(), Error>)
        requires
            tape_wf(old(memory).tape()),
            is_cell_op(node(*self)),
        ensures
            tape_wf(final(memory).tape()),
            match apply(node(*self), old(memory).tape()) {
                Ok(t) => r is Ok && final(memory).tape() == t,
                Err(e) => r == Err::<(), Error>(e) && final(memory).tape() == old(memory).tape(),
            },
    {
        match self {
            Instruction::Edit(e) => {
                let p = memory.pointer();
                edit_at(memory, p, *e)
            },
            Instruction::Move(m) => {
                let p = target(memory, *m)?;
                memory.set_pointer(p);
                Ok(())
            },
            Instruction::MoveEdit(m, e) => {
                let p = target(memory, *m)?;
                let v = edited(memory, p, *e)?;
                memory.set_pointer(p);
                memory.set_value(p, v);
                Ok(())
            },
            Instruction::EditOther(m, e) => {
                let p = target(memory, *m)?;
                edit_at(memory, p, *e)
            },
            _ => {
                let p = memory.pointer();
                memory.clear_value(p);
                Ok(())
            },
        }
    }
}

fn target<M: Memory>(memory: &M, m: Move) -> (r: Result<usize, Error>)
    requires
        tape_wf(memory.tape()),
    ensures
        match r {
            Ok(p) => moved(memory.tape(), m) == Ok::<int, Error>(p as int) && p < memory.tape().cells.len(),
            Err(e) => moved(memory.tape(), m) == Err::<int, Error>(e),
        },
{
    let t = match m {
        Move::Right(n) => memory.add_pointer(n),
        Move::Left(n) => memory.sub_pointer(n),
    };
    proof {
        let tp = memory.tape();
        let len = tp.cells.len() as int;
        if let Ok(p) = t {
            match m {
                Move::Right(n) => {
                    if tp.pointer + n >= len {
                        assert(p == (tp.pointer + n) % len);
                    }
                },
                Move::Left(n) => {
                    if tp.pointer - n < 0 {
                        assert(p == (tp.pointer - n) % len);
                    }
                },
            }
        }
    }
    t
}

fn edited<M: Memory>(memory: &M, p: usize, e: Edit) -> (r: Result<u32, Error>)
    requires
        tape_wf(memory.tape()),
        p < memory.tape().cells.len(),
    ensures
        r == edit_cell(memory.tape(), p as int, e),
        r matches Ok(v) ==> v <= memory.tape().max,
{
    match e {
        Edit::Increment(n) => memory.add_value(p, n),
        Edit::Decrement(n) => memory.sub_value(p, n),
    }
}

fn edit_at<M: Memory>(memory: &mut M, p: usize, e: Edit) -> (r: Result<(), Error>)
    requires
        tape_wf(old(memory).tape()),
        p < old(memory).tape().cells.len(),
    ensures
        tape_wf(final(memory).tape()),
        match edit_cell(old(memory).tape(), p as int, e) {
            Ok(v) => r is Ok && final(memory).tape() == with_cell(old(memory).tape(), p as int, v),
            Err(err) => r == Err::<(), Error>(err) && final(memory).tape() == old(memory).tape(),
        },
{
    let v = edited(memory, p, e)?;
    memory.set_value(p, v);
    Ok(())
}


/// One scope being run: a list of siblings, the position of the next
/// instruction in it, and the forks that it spawned and has not yet joined.
#[derive(Clone, Copy, Debug, PartialEq, Eq, Structural)]
pub struct Frame {
    pub index: usize,
    pub forks: usize,
}

/// The state of a run: the program, the tape and the scopes from the top
/// level inwards, each inner one the body of the loop its parent is at.
pub struct Run {
    pub program: Seq<Node>,
    pub tape: Tape,
    pub frames: Seq<Frame>,
}

/// The list of siblings that scope `k` runs.
pub open spec fn scope(program: Seq<Node>, frames: Seq<Frame>, k: nat) -> Seq<Node>
    decreases k,
{
    if k == 0 {
        program
    } else {
        match scope(program, frames, (k - 1) as nat)[frames[k - 1].index as int] {
            Node::Loop(body) => body,
            _ => Seq::empty(),
        }
    }
}

/// Every scope lies in the program, and every outer one is at a loop.
pub open spec fn run_wf(r: Run) -> bool {
    &&& tape_wf(r.tape)
    &&& r.frames.len() >= 1
    &&& forall|k: int|
        0 <= k < r.frames.len() ==> {
            &&& #[trigger] r.frames[k].index <= scope(r.program, r.frames, k as nat).len()
            &&& r.frames[k].forks <= r.frames[k].index
        }
    &&& forall|k: int|
        0 <= k < r.frames.len() - 1 ==> {
            &&& #[trigger] r.frames[k].index < scope(r.program, r.frames, k as nat).len()
            &&& scope(r.program, r.frames, k as nat)[r.frames[k].index as int] is Loop
        }
}

/// What a step of a run asks of its surroundings.
pub enum Effect {
    /// Nothing: run on.
    Continue,
    /// Print the character of this code point.
    Char(u32),
    /// Print the debug record of this pointer and value.
    Record(nat, u32),
    /// Read a line; the step is to be taken again with what it brought.
    Input,
    /// Run this continuation concurrently.
    Spawn(Run),
    /// Wait for this many of the most recently spawned continuations that
    /// have not been waited for.
    Join(nat),
    /// The run is over.
    Done,
    /// The run stops with this error.
    Fail(Error),
}

/// A new top-level scope.
pub open spec fn fresh_frame() -> Frame {
    Frame { index: 0, forks: 0 }
}

/// One step of a run, given what the last read brought, if anything.
pub open spec fn next(r: Run, input: Option<Input>) -> (Run, Effect) {
    let d = r.frames.len() - 1;
    let f = r.frames[d];
    let list = scope(r.program, r.frames, d as nat);
    let t = r.tape;
    let advanced = Run { frames: r.frames.update(d, Frame { index: (f.index + 1) as usize, ..f }), ..r };
    if f.index >= list.len() {
        if f.forks > 0 {
            (Run { frames: r.frames.update(d, Frame { forks: 0, ..f }), ..r }, Effect::Join(f.forks as nat))
        } else if d == 0 {
            (r, Effect::Done)
        } else {
            (Run { frames: r.frames.drop_last(), ..r }, Effect::Continue)
        }
    } else {
        match list[f.index as int] {
            Node::Loop(_) => if t.cells[t.pointer] == 0 {
                (advanced, Effect::Continue)
            } else {
                (Run { frames: r.frames.push(fresh_frame()), ..r }, Effect::Continue)
            },
            Node::Write => {
                let v = t.cells[t.pointer];
                if t.policy.debug {
                    (advanced, Effect::Record(t.pointer as nat, v))
                } else if is_scalar(v) {
                    (advanced, Effect::Char(v))
                } else {
                    (r, Effect::Fail(Error::InvalidUnicode(v)))
                }
            },
            Node::Read => match input {
                None => (r, Effect::Input),
                Some(i) => match read_into(t, i) {
                    Ok(t2) => (Run { tape: t2, ..advanced }, Effect::Continue),
                    Err(e) => (r, Effect::Fail(e)),
                },
            },
            Node::Fork => match moved_right(t, 1) {
                Ok(p) => {
                    let moved_tape = with_pointer(t, p);
                    let child = Run {
                        program: list.subrange(f.index + 1, list.len() as int),
                        tape: with_cell(moved_tape, p, 1),
                        frames: seq![fresh_frame()],
                    };
                    (
                        Run {
                            tape: with_cell(moved_tape, p, 0),
                            frames: r.frames.update(
                                d,
                                Frame { index: (f.index + 1) as usize, forks: (f.forks + 1) as usize },
                            ),
                            ..r
                        },
                        Effect::Spawn(child),
                    )
                },
                Err(e) => (r, Effect::Fail(e)),
            },
            x => match apply(x, t) {
                Ok(t2) => (Run { tape: t2, ..advanced }, Effect::Continue),
                Err(e) => (r, Effect::Fail(e)),
            },
        }
    }
}

pub(crate) proof fn lemma_scope_prefix(program: Seq<Node>, a: Seq<Frame>, b: Seq<Frame>, k: nat)
    requires
        k <= a.len(),
        k <= b.len(),
        forall|i: int| 0 <= i < k ==> a[i] == b[i],
    ensures
        scope(program, a, k) == scope(program, b, k),
    decreases k,
{
    if k > 0 {
        lemma_scope_prefix(program, a, b, (k - 1) as nat);
    }
}

fn scope_of<'a>(program: &'a Vec<Instruction>, frames: &Vec<Frame>, depth: usize) -> (r: &'a Vec<
    Instruction,
>)
    requires
        depth < frames@.len(),
        forall|k: int|
            0 <= k < depth ==> {
                &&& #[trigger] frames@[k].index < scope(nodes(program@), frames@, k as nat).len()
                &&& scope(nodes(program@), frames@, k as nat)[frames@[k].index as int] is Loop
            },
    ensures
        nodes(r@) == scope(nodes(program@), frames@, depth as nat),
{
    let mut list = program;
    let mut k: usize = 0;
    while k < depth
        invariant
            k <= depth,
            depth < frames@.len(),
            nodes(list@) == scope(nodes(program@), frames@, k as nat),
            forall|j: int|
                0 <= j < depth ==> {
                    &&& #[trigger] frames@[j].index < scope(nodes(program@), frames@, j as nat).len()
                    &&& scope(nodes(program@), frames@, j as nat)[frames@[j].index as int] is Loop
                },
        decreases depth - k,
    {
        let i = frames[k].index;
        proof {
            lemma_nodes_index(list@);
            assert(frames@[k as int].index < scope(nodes(program@), frames@, k as nat).len());
        }
        match &list[i] {
            Instruction::Loop(body) => {
                list = body;
            },
            _ => {
                proof {
                    assert(false);
                }
            },
        }
        k += 1;
    }
    list
}


fn copy_instruction(x: &Instruction) -> (r: Instruction)
    ensures
        node(r) == node(*x),
    decreases x,
{
    match x {
        Instruction::Loop(body) => {
            proof {
                assert(decreases_to!(x => body));
            }
            let copy = copy_list(body, 0);
            proof {
                assert(nodes(body@).subrange(0, body@.len() as int) =~= nodes(body@)) by {
                    lemma_nodes_index(body@);
                }
            }
            Instruction::Loop(copy)
        },
        Instruction::MoveEdit(m, e) => Instruction::MoveEdit(*m, *e),
        Instruction::EditOther(m, e) => Instruction::EditOther(*m, *e),
        Instruction::Edit(e) => Instruction::Edit(*e),
        Instruction::Move(m) => Instruction::Move(*m),
        Instruction::Clear => Instruction::Clear,
        Instruction::Write => Instruction::Write,
        Instruction::Read => Instruction::Read,
        Instruction::Fork => Instruction::Fork,
    }
}

/// A deep copy of the instructions of `list` from `from` on.
fn copy_list(list: &Vec<Instruction>, from: usize) -> (r: Vec<Instruction>)
    requires
        from <= list@.len(),
    ensures
        nodes(r@) == nodes(list@).subrange(from as int, list@.len() as int),
    decreases list, 0int,
{
    let mut copy: Vec<Instruction> = Vec::new();
    let mut i = from;
    proof {
        lemma_nodes_index(list@);
        assert(nodes(copy@) =~= nodes(list@).subrange(from as int, from as int));
    }
    while i < list.len()
        invariant
            from <= i <= list@.len(),
            nodes(list@).len() == list@.len(),
            forall|j: int| 0 <= j < list@.len() ==> #[trigger] nodes(list@)[j] == node(list@[j]),
            nodes(copy@) == nodes(list@).subrange(from as int, i as int),
        decreases list@.len() - i,
    {
        proof {
            assert(decreases_to!(list => list@[i as int]));
        }
        let x = copy_instruction(&list[i]);
        proof {
            crate::instruction::lemma_nodes_push(copy@, x);
            assert(nodes(list@).subrange(from as int, i + 1) =~= nodes(list@).subrange(from as int, i as int).push(node(list@[i as int])));
        }
        copy.push(x);
        i += 1;
    }
    copy
}


#[verifier::rlimit(80)]
proof fn lemma_wf_same_depth(r: Run, frames: Seq<Frame>, tape: Tape)
    requires
        run_wf(r),
        frames.len() == r.frames.len(),
        forall|i: int| 0 <= i < r.frames.len() - 1 ==> frames[i] == r.frames[i],
        frames.last().index <= scope(r.program, r.frames, (r.frames.len() - 1) as nat).len(),
        frames.last().forks <= frames.last().index,
        tape_wf(tape),
    ensures
        run_wf(Run { program: r.program, tape, frames }),
{
    let d = r.frames.len() - 1;
    assert forall|k: int| 0 <= k < frames.len() implies #[trigger] frames[k].index <= scope(
        r.program,
        frames,
        k as nat,
    ).len() && frames[k].forks <= frames[k].index by {
        lemma_scope_prefix(r.program, frames, r.frames, k as nat);
        if k < d {
            assert(r.frames[k].index <= scope(r.program, r.frames, k as nat).len());
        }
    }
    assert forall|k: int| 0 <= k < frames.len() - 1 implies #[trigger] frames[k].index < scope(
        r.program,
        frames,
        k as nat,
    ).len() && scope(r.program, frames, k as nat)[frames[k].index as int] is Loop by {
        lemma_scope_prefix(r.program, frames, r.frames, k as nat);
        assert(r.frames[k].index < scope(r.program, r.frames, k as nat).len());
    }
}

#[verifier::rlimit(80)]
proof fn lemma_wf_pop(r: Run)
    requires
        run_wf(r),
        r.frames.len() >= 2,
    ensures
        run_wf(Run { frames: r.frames.drop_last(), ..r }),
{
    let frames = r.frames.drop_last();
    assert forall|k: int| 0 <= k < frames.len() implies #[trigger] frames[k].index <= scope(
        r.program,
        frames,
        k as nat,
    ).len() && frames[k].forks <= frames[k].index by {
        lemma_scope_prefix(r.program, frames, r.frames, k as nat);
        assert(r.frames[k].index <= scope(r.program, r.frames, k as nat).len());
        assert(r.frames[k].index < scope(r.program, r.frames, k as nat).len());
    }
    assert forall|k: int| 0 <= k < frames.len() - 1 implies #[trigger] frames[k].index < scope(
        r.program,
        frames,
        k as nat,
    ).len() && scope(r.program, frames, k as nat)[frames[k].index as int] is Loop by {
        lemma_scope_prefix(r.program, frames, r.frames, k as nat);
        assert(r.frames[k].index < scope(r.program, r.frames, k as nat).len());
    }
}

#[verifier::rlimit(80)]
proof fn lemma_wf_push(r: Run)
    requires
        run_wf(r),
        r.frames.last().index < scope(r.program, r.frames, (r.frames.len() - 1) as nat).len(),
        scope(r.program, r.frames, (r.frames.len() - 1) as nat)[r.frames.last().index as int] is Loop,
    ensures
        run_wf(Run { frames: r.frames.push(fresh_frame()), ..r }),
{
    let frames = r.frames.push(fresh_frame());
    let d = r.frames.len() - 1;
    assert forall|k: int| 0 <= k < frames.len() implies #[trigger] frames[k].index <= scope(
        r.program,
        frames,
        k as nat,
    ).len() && frames[k].forks <= frames[k].index by {
        if k < r.frames.len() {
            lemma_scope_prefix(r.program, frames, r.frames, k as nat);
            assert(r.frames[k].index <= scope(r.program, r.frames, k as nat).len());
        }
    }
    assert forall|k: int| 0 <= k < frames.len() - 1 implies #[trigger] frames[k].index < scope(
        r.program,
        frames,
        k as nat,
    ).len() && scope(r.program, frames, k as nat)[frames[k].index as int] is Loop by {
        lemma_scope_prefix(r.program, frames, r.frames, k as nat);
        if k < d {
            assert(r.frames[k].index < scope(r.program, r.frames, k as nat).len());
        }
    }
}

/// A program being run on a memory, one step at a time. What a step needs
/// from outside (printing, reading, starting or waiting for a concurrent
/// continuation) it hands out as an `Action`.
pub struct Machine<M: Memory> {
    program: Vec<Instruction>,
    memory: M,
    frames: Vec<Frame>,
}

/// What a step asks of its surroundings.
pub enum Action<M: Memory> {
    /// Nothing: step on.
    Continue,
    /// Print this text.
    Output(String),
    /// Read a line and step again with what it brought.
    Input,
    /// Run this continuation concurrently.
    Spawn(Machine<M>),
    /// Wait for this many of the most recently spawned continuations that
    /// have not been waited for.
    Join(usize),
    /// The run is over.
    Done,
    /// The run stops with this error.
    Fail(Error),
}

impl<M: Memory> View for Machine<M> {
    type V = Run;

    closed spec fn view(&self) -> Run {
        Run { program: nodes(self.program@), tape: self.memory.tape(), frames: self.frames@ }
    }
}

/// The action carries out the effect.
pub open spec fn shows<M: Memory>(a: Action<M>, e: Effect) -> bool {
    match e {
        Effect::Continue => a is Continue,
        Effect::Char(v) => a matches Action::Output(s) && s@.len() == 1 && s@[0] as u32 == v,
        Effect::Record(p, v) => a matches Action::Output(s) && shows_record(s@, p, v),
        Effect::Input => a is Input,
        Effect::Spawn(r) => a matches Action::Spawn(m) && m@ == r,
        Effect::Join(n) => a matches Action::Join(k) && k == n,
        Effect::Done => a is Done,
        Effect::Fail(err) => a matches Action::Fail(x) && x == err,
    }
}

impl<M: Memory> Machine<M> {
    #[verifier::type_invariant]
    spec fn inv(&self) -> bool {
        run_wf(self@)
    }

    /// A run of `program` on `memory`, at its first instruction.
    pub fn new(program: Vec<Instruction>, memory: M) -> (r: Self)
        requires
            tape_wf(memory.tape()),
        ensures
            r@ == (Run { program: nodes(program@), tape: memory.tape(), frames: seq![fresh_frame()] }),
    {
        let mut frames: Vec<Frame> = Vec::new();
        frames.push(Frame { index: 0, forks: 0 });
        Machine { program, memory, frames }
    }

    /// The memory of the run.
    pub fn memory(&self) -> (r: &M)
        ensures
            r.tape() == self@.tape,
    {
        &self.memory
    }

    /// Takes one step: carries out the next instruction, or ends a scope.
    /// `input` is what the last read brought, where the step before asked
    /// for input.
    #[verifier::rlimit(80)]
    pub fn step(self, input: Option<Input>) -> (r: (Self, Action<M>))
        ensures
            r.0@ == next(self@, input).0,
            shows(r.1, next(self@, input).1),
    {
        proof {
            use_type_invariant(&self);
        }
        let ghost r0 = self@;
        let Machine { program, mut memory, mut frames } = self;
        let d = frames.len() - 1;
        let f = frames[d];
        let list = scope_of(&program, &frames, d);
        proof {
            lemma_nodes_index(list@);
        }
        if f.index >= list.len() {
            if f.forks > 0 {
                frames.set(d, Frame { index: f.index, forks: 0 });
                proof {
                    lemma_wf_same_depth(r0, frames@, r0.tape);
                }
                return (Machine { program, memory, frames }, Action::Join(f.forks));
            }
            if d == 0 {
                return (Machine { program, memory, frames }, Action::Done);
            }
            frames.pop();
            proof {
                lemma_wf_pop(r0);
                assert(frames@ == r0.frames.drop_last());
            }
            return (Machine { program, memory, frames }, Action::Continue);
        }
        let advance = Frame { index: f.index + 1, forks: f.forks };
        match &list[f.index] {
            Instruction::Loop(_) => {
                if memory.current_is_null() {
                    frames.set(d, advance);
                    proof {
                        lemma_wf_same_depth(r0, frames@, r0.tape);
                    }
                } else {
                    frames.push(Frame { index: 0, forks: 0 });
                    proof {
                        lemma_wf_push(r0);
                    }
                }
                (Machine { program, memory, frames }, Action::Continue)
            },
            Instruction::Write => {
                match memory.write() {
                    Ok(text) => {
                        frames.set(d, advance);
                        proof {
                            lemma_wf_same_depth(r0, frames@, r0.tape);
                        }
                        (Machine { program, memory, frames }, Action::Output(text))
                    },
                    Err(e) => (Machine { program, memory, frames }, Action::Fail(e)),
                }
            },
            Instruction::Read => {
                match input {
                    None => (Machine { program, memory, frames }, Action::Input),
                    Some(line) => match memory.read(line) {
                        Ok(()) => {
                            frames.set(d, advance);
                            proof {
                                lemma_wf_same_depth(r0, frames@, memory.tape());
                            }
                            (Machine { program, memory, frames }, Action::Continue)
                        },
                        Err(e) => (Machine { program, memory, frames }, Action::Fail(e)),
                    },
                }
            },
            Instruction::Fork => {
                match memory.add_pointer(1) {
                    Ok(p) => {
                        memory.set_pointer(p);
                        let mut child_memory = memory.duplicate();
                        child_memory.set_value(p, 1);
                        memory.set_value(p, 0);
                        let rest = copy_list(list, f.index + 1);
                        let mut child_frames: Vec<Frame> = Vec::new();
                        child_frames.push(Frame { index: 0, forks: 0 });
                        let child = Machine { program: rest, memory: child_memory, frames: child_frames };
                        frames.set(d, Frame { index: f.index + 1, forks: f.forks + 1 });
                        proof {
                            lemma_wf_same_depth(r0, frames@, memory.tape());
                            assert(child@.frames =~= seq![fresh_frame()]);
                        }
                        (Machine { program, memory, frames }, Action::Spawn(child))
                    },
                    Err(e) => (Machine { program, memory, frames }, Action::Fail(e)),
                }
            },
            x => {
                match x.run(&mut memory) {
                    Ok(()) => {
                        frames.set(d, advance);
                        proof {
                            lemma_wf_same_depth(r0, frames@, memory.tape());
                        }
                        (Machine { program, memory, frames }, Action::Continue)
                    },
                    Err(e) => (Machine { program, memory, frames }, Action::Fail(e)),
                }
            },
        }
    }
}

} // verus!
