//! Whole-run meaning: `eval` runs an instruction list to its end with
//! bounded loop fuel; `drive` steps a run as its caller would. Stepping and
//! `eval` agree on runs without forks, and optimising keeps both.
use vstd::prelude::*;
use vstd::arithmetic::div_mod::{
    lemma_add_mod_noop, lemma_mod_twice, lemma_small_mod, lemma_sub_mod_noop,
};
use crate::error::Error;
use crate::instruction::{Edit, Move, Node};
use crate::machine::{
    apply, edit_cell, fresh_frame, lemma_scope_prefix, moved, next, scope, Effect, Frame, Run,
};
use crate::memory::{
    added, moved_left, moved_right, read_into, subtracted, tape_wf, with_cell, with_pointer, Input,
    Tape,
};
use crate::optimise::{
    close_loop, counts_fit, edit_count, edit_total, first_pass, fuse, lemma_first_pass_totals,
    merge_edits, merge_moves, move_count, move_total, node_edits, node_moves, optimised, reverses,
    second_pass,
};
use crate::text::is_scalar;

verus! {

proof fn lemma_mod_add(x: int, y: int, m: int)
    requires
        m > 0,
    ensures
        ((x % m) + y) % m == (x + y) % m,
{
    lemma_add_mod_noop(x, y, m);
    lemma_add_mod_noop(x % m, y, m);
    lemma_mod_twice(x, m);
}

proof fn lemma_mod_sub(x: int, y: int, m: int)
    requires
        m > 0,
    ensures
        ((x % m) - y) % m == (x - y) % m,
{
    lemma_sub_mod_noop(x, y, m);
    lemma_sub_mod_noop(x % m, y, m);
    lemma_mod_twice(x, m);
}

/// Under wrapping arithmetic a cell edit is modular.
proof fn lemma_wrapping_edit(t: Tape, p: int, n: int)
    requires
        tape_wf(t),
        0 <= p < t.cells.len(),
        0 <= n,
        !t.policy.no_overflows,
    ensures
        added(t, p, n) == Ok::<u32, Error>(((t.cells[p] + n) % (t.max + 1)) as u32),
        subtracted(t, p, n) == Ok::<u32, Error>(((t.cells[p] - n) % (t.max + 1)) as u32),
        0 <= (t.cells[p] + n) % (t.max + 1) <= t.max,
        0 <= (t.cells[p] - n) % (t.max + 1) <= t.max,
{
    let m = t.max + 1;
    if t.cells[p] + n <= t.max {
        lemma_small_mod((t.cells[p] + n) as nat, m as nat);
    }
    if t.cells[p] - n >= 0 {
        lemma_small_mod((t.cells[p] - n) as nat, m as nat);
    }
}

/// Under wrapping motion a move is modular.
proof fn lemma_wrapping_move(t: Tape, n: int)
    requires
        tape_wf(t),
        0 <= n,
        t.policy.wrap_around,
    ensures
        moved_right(t, n) == Ok::<int, Error>((t.pointer + n) % (t.cells.len() as int)),
        moved_left(t, n) == Ok::<int, Error>((t.pointer - n) % (t.cells.len() as int)),
{
    let m = t.cells.len() as int;
    if t.pointer + n < m {
        lemma_small_mod((t.pointer + n) as nat, m as nat);
    }
    if t.pointer - n >= 0 {
        lemma_small_mod((t.pointer - n) as nat, m as nat);
    }
}

/// The signed amount of an edit.
pub open spec fn edit_amount(e: Edit) -> int {
    match e {
        Edit::Increment(n) => n as int,
        Edit::Decrement(n) => -(n as int),
    }
}

/// The signed amount of a move.
pub open spec fn move_amount(m: Move) -> int {
    match m {
        Move::Right(n) => n as int,
        Move::Left(n) => -(n as int),
    }
}

proof fn lemma_edit_amount(t: Tape, p: int, e: Edit)
    requires
        tape_wf(t),
        0 <= p < t.cells.len(),
    ensures
        !t.policy.no_overflows ==> edit_cell(t, p, e) == Ok::<u32, Error>(
            ((t.cells[p] + edit_amount(e)) % (t.max + 1)) as u32,
        ) && 0 <= (t.cells[p] + edit_amount(e)) % (t.max + 1) <= t.max,
        t.policy.no_overflows ==> (edit_cell(t, p, e) is Ok <==> 0 <= t.cells[p] + edit_amount(e)
            <= t.max),
        t.policy.no_overflows && edit_cell(t, p, e) is Ok ==> edit_cell(t, p, e)->Ok_0 == t.cells[p]
            + edit_amount(e),
{
    match e {
        Edit::Increment(n) => {
            if !t.policy.no_overflows {
                lemma_wrapping_edit(t, p, n as int);
            }
        },
        Edit::Decrement(n) => {
            if !t.policy.no_overflows {
                lemma_wrapping_edit(t, p, n as int);
            }
        },
    }
}

proof fn lemma_move_amount(t: Tape, m: Move)
    requires
        tape_wf(t),
    ensures
        t.policy.wrap_around ==> moved(t, m) == Ok::<int, Error>(
            (t.pointer + move_amount(m)) % (t.cells.len() as int),
        ),
        !t.policy.wrap_around ==> (moved(t, m) is Ok <==> 0 <= t.pointer + move_amount(m)
            < t.cells.len()),
        !t.policy.wrap_around && moved(t, m) is Ok ==> moved(t, m)->Ok_0 == t.pointer + move_amount(
            m,
        ),
        moved(t, m) is Ok ==> 0 <= moved(t, m)->Ok_0 < t.cells.len(),
{
    match m {
        Move::Right(n) => {
            if t.policy.wrap_around {
                lemma_wrapping_move(t, n as int);
            }
        },
        Move::Left(n) => {
            if t.policy.wrap_around {
                lemma_wrapping_move(t, n as int);
            }
        },
    }
}

/// Two edits that succeed one after the other do what their merge does.
#[verifier::rlimit(80)]
proof fn lemma_merge_edits(t: Tape, a: Edit, b: Edit)
    requires
        tape_wf(t),
        edit_count(a) + edit_count(b) <= u32::MAX,
        apply(Node::Edit(a), t) is Ok,
        apply(Node::Edit(b), apply(Node::Edit(a), t)->Ok_0) is Ok,
    ensures
        ({
            let t2 = apply(Node::Edit(b), apply(Node::Edit(a), t)->Ok_0)->Ok_0;
            match merge_edits(a, b) {
                Some(e) => apply(Node::Edit(e), t) == Ok::<Tape, Error>(t2),
                None => t2 == t,
            }
        }),
{
    let p = t.pointer;
    let t1 = apply(Node::Edit(a), t)->Ok_0;
    let t2 = apply(Node::Edit(b), t1)->Ok_0;
    let m = t.max + 1;
    lemma_edit_amount(t, p, a);
    let v1 = edit_cell(t, p, a)->Ok_0;
    assert(t1 == with_cell(t, p, v1));
    assert(tape_wf(t1));
    lemma_edit_amount(t1, p, b);
    let v2 = edit_cell(t1, p, b)->Ok_0;
    assert(t2 == with_cell(t1, p, v2));
    assert(t1.cells[p] == v1);
    let total = edit_amount(a) + edit_amount(b);
    if !t.policy.no_overflows {
        lemma_mod_add(t.cells[p] + edit_amount(a), edit_amount(b), m);
        assert(v2 == (t.cells[p] + total) % m);
    } else {
        assert(v2 == t.cells[p] + total);
    }
    match merge_edits(a, b) {
        Some(e) => {
            assert(edit_amount(e) == total);
            lemma_edit_amount(t, p, e);
            assert(t2.cells =~= with_cell(t, p, v2).cells);
        },
        None => {
            assert(total == 0);
            if !t.policy.no_overflows {
                lemma_small_mod(t.cells[p] as nat, m as nat);
            }
            assert(t2.cells =~= t.cells);
        },
    }
}


/// Two moves that succeed one after the other do what their merge does.
#[verifier::rlimit(80)]
proof fn lemma_merge_moves(t: Tape, a: Move, b: Move)
    requires
        tape_wf(t),
        move_count(a) + move_count(b) <= usize::MAX,
        apply(Node::Move(a), t) is Ok,
        apply(Node::Move(b), apply(Node::Move(a), t)->Ok_0) is Ok,
    ensures
        ({
            let t2 = apply(Node::Move(b), apply(Node::Move(a), t)->Ok_0)->Ok_0;
            match merge_moves(a, b) {
                Some(m) => apply(Node::Move(m), t) == Ok::<Tape, Error>(t2),
                None => t2 == t,
            }
        }),
{
    let len = t.cells.len() as int;
    let t1 = apply(Node::Move(a), t)->Ok_0;
    let t2 = apply(Node::Move(b), t1)->Ok_0;
    lemma_move_amount(t, a);
    let q1 = moved(t, a)->Ok_0;
    assert(t1 == with_pointer(t, q1));
    lemma_move_amount(t1, b);
    let q2 = moved(t1, b)->Ok_0;
    assert(t2 == with_pointer(t1, q2));
    let total = move_amount(a) + move_amount(b);
    if t.policy.wrap_around {
        lemma_mod_add(t.pointer + move_amount(a), move_amount(b), len);
        assert(q2 == (t.pointer + total) % len);
    } else {
        assert(q2 == t.pointer + total);
    }
    match merge_moves(a, b) {
        Some(m) => {
            assert(move_amount(m) == total);
            lemma_move_amount(t, m);
        },
        None => {
            assert(total == 0);
            if t.policy.wrap_around {
                lemma_small_mod(t.pointer as nat, len as nat);
            }
        },
    }
}

/// A move followed by an edit does what the move-edit does.
proof fn lemma_move_edit(t: Tape, m: Move, e: Edit)
    requires
        tape_wf(t),
        apply(Node::Move(m), t) is Ok,
        apply(Node::Edit(e), apply(Node::Move(m), t)->Ok_0) is Ok,
    ensures
        apply(Node::MoveEdit(m, e), t) == apply(Node::Edit(e), apply(Node::Move(m), t)->Ok_0),
{
    lemma_move_amount(t, m);
    let q = moved(t, m)->Ok_0;
    let t1 = with_pointer(t, q);
    assert(edit_cell(t1, q, e) == edit_cell(t, q, e));
}

/// A move-edit followed by the move back does what editing the other cell
/// does.
#[verifier::rlimit(80)]
proof fn lemma_edit_other(t: Tape, m: Move, e: Edit, b: Move)
    requires
        tape_wf(t),
        reverses(m, b),
        apply(Node::MoveEdit(m, e), t) is Ok,
        apply(Node::Move(b), apply(Node::MoveEdit(m, e), t)->Ok_0) is Ok,
    ensures
        apply(Node::EditOther(m, e), t) == apply(
            Node::Move(b),
            apply(Node::MoveEdit(m, e), t)->Ok_0,
        ),
{
    let len = t.cells.len() as int;
    lemma_move_amount(t, m);
    let q = moved(t, m)->Ok_0;
    let v = edit_cell(t, q, e)->Ok_0;
    let t1 = with_cell(with_pointer(t, q), q, v);
    assert(apply(Node::MoveEdit(m, e), t) == Ok::<Tape, Error>(t1));
    lemma_edit_amount(t, q, e);
    assert(tape_wf(t1));
    lemma_move_amount(t1, b);
    let q2 = moved(t1, b)->Ok_0;
    assert(move_amount(b) == -move_amount(m));
    if t.policy.wrap_around {
        lemma_mod_add(t.pointer + move_amount(m), move_amount(b), len);
        lemma_small_mod(t.pointer as nat, len as nat);
    }
    assert(q2 == t.pointer);
    assert(with_pointer(t1, q2).cells =~= with_cell(t, q, v).cells);
}


/// A run seen from outside: the tape, the input lines not yet read, and what
/// has been printed.
pub struct Trace {
    pub tape: Tape,
    pub input: Seq<Input>,
    pub output: Seq<Effect>,
}

/// The trace with another tape.
pub open spec fn with_tape(s: Trace, t: Tape) -> Trace {
    Trace { tape: t, ..s }
}

/// Running one instruction to its end, with at most `fuel` loop iterations
/// on the way: `None` where the fuel runs out, else the final trace or the
/// error that stops the run. A fork is followed by the continuation that
/// forks only.
pub open spec fn eval_node(x: Node, s: Trace, fuel: nat) -> Option<Result<Trace, Error>>
    decreases fuel, x, 0int,
{
    let t = s.tape;
    match x {
        Node::Loop(body) => if t.cells[t.pointer] == 0 {
            Some(Ok(s))
        } else if fuel == 0 {
            None
        } else {
            match eval(body, s, (fuel - 1) as nat) {
                Some(Ok(s1)) => eval_node(x, s1, (fuel - 1) as nat),
                r => r,
            }
        },
        Node::Write => {
            let v = t.cells[t.pointer];
            if t.policy.debug {
                Some(Ok(Trace { output: s.output.push(Effect::Record(t.pointer as nat, v)), ..s }))
            } else if is_scalar(v) {
                Some(Ok(Trace { output: s.output.push(Effect::Char(v)), ..s }))
            } else {
                Some(Err(Error::InvalidUnicode(v)))
            }
        },
        Node::Read => if s.input.len() == 0 {
            Some(Err(Error::NoInput))
        } else {
            match read_into(t, s.input[0]) {
                Ok(t2) => Some(Ok(Trace { tape: t2, input: s.input.drop_first(), ..s })),
                Err(e) => Some(Err(e)),
            }
        },
        Node::Fork => match moved_right(t, 1) {
            Ok(p) => Some(Ok(with_tape(s, with_cell(with_pointer(t, p), p, 0)))),
            Err(e) => Some(Err(e)),
        },
        _ => match apply(x, t) {
            Ok(t2) => Some(Ok(with_tape(s, t2))),
            Err(e) => Some(Err(e)),
        },
    }
}

/// Running a list of instructions in order, as `eval_node` runs one.
pub open spec fn eval(prog: Seq<Node>, s: Trace, fuel: nat) -> Option<Result<Trace, Error>>
    decreases fuel, prog, 0int,
{
    if prog.len() == 0 {
        Some(Ok(s))
    } else {
        match eval(prog.subrange(0, prog.len() - 1), s, fuel) {
            Some(Ok(s1)) => eval_node(prog[prog.len() - 1], s1, fuel),
            r => r,
        }
    }
}

/// `a` ends as `b` does wherever `b` ends without error, and, where `total`
/// holds, wherever `b` ends at all.
pub open spec fn agrees(a: Option<Result<Trace, Error>>, b: Option<Result<Trace, Error>>, total: bool) -> bool {
    (b matches Some(r) && (r is Ok || total)) ==> a == b
}

/// Pointer motion wraps and cell arithmetic wraps: no move and no edit fails.
pub open spec fn wraps_everywhere(t: Tape) -> bool {
    t.policy.wrap_around && !t.policy.no_overflows
}

proof fn lemma_eval_push(prog: Seq<Node>, x: Node, s: Trace, fuel: nat)
    ensures
        eval(prog.push(x), s, fuel) == match eval(prog, s, fuel) {
            Some(Ok(s1)) => eval_node(x, s1, fuel),
            r => r,
        },
{
    assert(prog.push(x).subrange(0, prog.len() as int) =~= prog);
}

proof fn lemma_eval_last(prog: Seq<Node>, s: Trace, fuel: nat)
    requires
        prog.len() > 0,
    ensures
        eval(prog, s, fuel) == match eval(prog.drop_last(), s, fuel) {
            Some(Ok(s1)) => eval_node(prog.last(), s1, fuel),
            r => r,
        },
{
    assert(prog.drop_last() =~= prog.subrange(0, prog.len() - 1));
}


proof fn lemma_apply_wf(x: Node, t: Tape)
    requires
        tape_wf(t),
    ensures
        apply(x, t) matches Ok(t2) ==> tape_wf(t2) && t2.policy == t.policy,
        wraps_everywhere(t) && (x is Edit || x is Move || x is MoveEdit || x is EditOther)
            ==> apply(x, t) is Ok,
{
    match x {
        Node::Edit(e) => {
            lemma_edit_amount(t, t.pointer, e);
        },
        Node::Move(m) => {
            lemma_move_amount(t, m);
        },
        Node::MoveEdit(m, e) => {
            lemma_move_amount(t, m);
            if let Ok(q) = moved(t, m) {
                lemma_edit_amount(t, q, e);
            }
        },
        Node::EditOther(m, e) => {
            lemma_move_amount(t, m);
            if let Ok(q) = moved(t, m) {
                lemma_edit_amount(t, q, e);
            }
        },
        _ => {},
    }
}

#[verifier::rlimit(80)]
proof fn lemma_eval_node_wf(x: Node, s: Trace, fuel: nat)
    requires
        tape_wf(s.tape),
    ensures
        eval_node(x, s, fuel) matches Some(Ok(s1)) ==> tape_wf(s1.tape) && s1.tape.policy
            == s.tape.policy,
    decreases fuel, x, 0int,
{
    let t = s.tape;
    match x {
        Node::Loop(body) => {
            if t.cells[t.pointer] != 0 && fuel > 0 {
                lemma_eval_wf(body, s, (fuel - 1) as nat);
                if let Some(Ok(s1)) = eval(body, s, (fuel - 1) as nat) {
                    lemma_eval_node_wf(x, s1, (fuel - 1) as nat);
                }
            }
        },
        Node::Write | Node::Read => {},
        Node::Fork => {
            if let Ok(p) = moved_right(t, 1) {
                lemma_move_amount(t, Move::Right(1));
            }
        },
        _ => {
            lemma_apply_wf(x, t);
        },
    }
}

proof fn lemma_eval_wf(prog: Seq<Node>, s: Trace, fuel: nat)
    requires
        tape_wf(s.tape),
    ensures
        eval(prog, s, fuel) matches Some(Ok(s1)) ==> tape_wf(s1.tape) && s1.tape.policy
            == s.tape.policy,
    decreases fuel, prog, 0int,
{
    if prog.len() > 0 {
        let d = prog.subrange(0, prog.len() - 1);
        lemma_eval_wf(d, s, fuel);
        if let Some(Ok(s1)) = eval(d, s, fuel) {
            lemma_eval_node_wf(prog[prog.len() - 1], s1, fuel);
        }
    }
}

#[verifier::rlimit(80)]
proof fn lemma_pair_refines(acc: Seq<Node>, x: Node, s: Trace, fuel: nat)
    requires
        tape_wf(s.tape),
    ensures
        agrees(eval(crate::optimise::pair(acc, x), s, fuel), eval(acc.push(x), s, fuel), wraps_everywhere(s.tape)),
{
    lemma_eval_push(acc, x, s, fuel);
    if acc.len() > 0 {
        let init = acc.drop_last();
        lemma_eval_last(acc, s, fuel);
        lemma_eval_wf(init, s, fuel);
        match acc.last() {
            Node::Move(m) => {
                if let Node::Edit(e) = x {
                    lemma_eval_push(init, Node::MoveEdit(m, e), s, fuel);
                    if let Some(Ok(s1)) = eval(init, s, fuel) {
                        if apply(Node::Move(m), s1.tape) is Ok {
                            let t1 = apply(Node::Move(m), s1.tape)->Ok_0;
                            if apply(Node::Edit(e), t1) is Ok {
                                lemma_move_edit(s1.tape, m, e);
                            }
                        }
                    }
                }
            },
            Node::MoveEdit(m, e) => {
                if let Node::Move(b) = x {
                    if reverses(m, b) {
                        lemma_eval_push(init, Node::EditOther(m, e), s, fuel);
                        if let Some(Ok(s1)) = eval(init, s, fuel) {
                            if apply(Node::MoveEdit(m, e), s1.tape) is Ok {
                                let t1 = apply(Node::MoveEdit(m, e), s1.tape)->Ok_0;
                                if apply(Node::Move(b), t1) is Ok {
                                    lemma_edit_other(s1.tape, m, e, b);
                                }
                            }
                        }
                    }
                }
            },
            _ => {},
        }
    }
}

proof fn lemma_second_pass_refines(q: Seq<Node>, s: Trace, fuel: nat)
    requires
        tape_wf(s.tape),
    ensures
        agrees(eval(crate::optimise::second_pass(q), s, fuel), eval(q, s, fuel), wraps_everywhere(s.tape)),
    decreases q.len(),
{
    if q.len() > 0 {
        let d = q.drop_last();
        let sd = crate::optimise::second_pass(d);
        lemma_second_pass_refines(d, s, fuel);
        lemma_pair_refines(sd, q.last(), s, fuel);
        lemma_eval_push(sd, q.last(), s, fuel);
        lemma_eval_last(q, s, fuel);
    }
}


proof fn lemma_counts_last(p: Seq<Node>)
    requires
        p.len() > 0,
    ensures
        edit_total(p) == edit_total(p.drop_last()) + node_edits(p.last()),
        move_total(p) == move_total(p.drop_last()) + node_moves(p.last()),
        edit_total(p.drop_last()) >= 0,
        move_total(p.drop_last()) >= 0,
        node_edits(p.last()) >= 0,
        node_moves(p.last()) >= 0,
        p.last() matches Node::Edit(e) ==> node_edits(p.last()) == edit_count(e),
        p.last() matches Node::Move(m) ==> node_moves(p.last()) == move_count(m),
{
    crate::optimise::lemma_totals_last(p);
}

#[verifier::rlimit(80)]
proof fn lemma_fuse_refines(acc: Seq<Node>, x: Node, s: Trace, fuel: nat)
    requires
        tape_wf(s.tape),
        edit_total(acc) + node_edits(x) <= u32::MAX,
        move_total(acc) + node_moves(x) <= usize::MAX,
    ensures
        agrees(eval(fuse(acc, x), s, fuel), eval(acc.push(x), s, fuel), wraps_everywhere(s.tape)),
{
    lemma_eval_push(acc, x, s, fuel);
    if acc.len() > 0 {
        let init = acc.drop_last();
        lemma_eval_last(acc, s, fuel);
        lemma_eval_wf(init, s, fuel);
        lemma_counts_last(acc);
        match acc.last() {
            Node::Edit(a) => {
                if let Node::Edit(b) = x {
                    assert(node_edits(x) == edit_count(b));
                    if let Some(e) = merge_edits(a, b) {
                        lemma_eval_push(init, Node::Edit(e), s, fuel);
                    }
                    if let Some(s1) = eval(init, s, fuel) {
                        if let Ok(s1) = s1 {
                            lemma_apply_wf(Node::Edit(a), s1.tape);
                            if apply(Node::Edit(a), s1.tape) is Ok {
                                let t1 = apply(Node::Edit(a), s1.tape)->Ok_0;
                                lemma_apply_wf(Node::Edit(b), t1);
                                if apply(Node::Edit(b), t1) is Ok {
                                    lemma_merge_edits(s1.tape, a, b);
                                }
                            }
                        }
                    }
                }
            },
            Node::Move(a) => {
                if let Node::Move(b) = x {
                    assert(node_moves(x) == move_count(b));
                    if let Some(m) = merge_moves(a, b) {
                        lemma_eval_push(init, Node::Move(m), s, fuel);
                    }
                    if let Some(s1) = eval(init, s, fuel) {
                        if let Ok(s1) = s1 {
                            lemma_apply_wf(Node::Move(a), s1.tape);
                            if apply(Node::Move(a), s1.tape) is Ok {
                                let t1 = apply(Node::Move(a), s1.tape)->Ok_0;
                                lemma_apply_wf(Node::Move(b), t1);
                                if apply(Node::Move(b), t1) is Ok {
                                    lemma_merge_moves(s1.tape, a, b);
                                }
                            }
                        }
                    }
                }
            },
            _ => {},
        }
    }
}

proof fn lemma_eval_single(x: Node, s: Trace, fuel: nat)
    ensures
        eval(seq![x], s, fuel) == eval_node(x, s, fuel),
{
    lemma_eval_push(Seq::empty(), x, s, fuel);
    assert(Seq::<Node>::empty().push(x) =~= seq![x]);
}

#[verifier::rlimit(80)]
proof fn lemma_loop_refines(x: Node, s: Trace, fuel: nat)
    requires
        x is Loop,
        counts_fit(x->Loop_0),
        tape_wf(s.tape),
    ensures
        agrees(eval_node(close_loop(optimised(x->Loop_0)), s, fuel), eval_node(x, s, fuel), wraps_everywhere(s.tape)),
    decreases x, 0int, fuel,
{
    let body = x->Loop_0;
    let ob = optimised(body);
    let t = s.tape;
    let p = t.pointer;
    if t.cells[p] != 0 && fuel > 0 {
        let f1 = (fuel - 1) as nat;
        lemma_optimised_refines(body, s, f1);
        lemma_eval_wf(body, s, f1);
        if ob == seq![Node::Edit(Edit::Decrement(1))] {
            lemma_eval_single(Node::Edit(Edit::Decrement(1)), s, f1);
            lemma_apply_wf(Node::Edit(Edit::Decrement(1)), t);
        }
        if let Some(Ok(s1)) = eval(body, s, f1) {
            lemma_loop_refines(x, s1, f1);
            if ob == seq![Node::Edit(Edit::Decrement(1))] {
                lemma_eval_single(Node::Edit(Edit::Decrement(1)), s, f1);
                lemma_edit_amount(t, p, Edit::Decrement(1));
                if !t.policy.no_overflows {
                    lemma_small_mod((t.cells[p] - 1) as nat, (t.max + 1) as nat);
                }
                assert(s1 == with_tape(s, with_cell(t, p, (t.cells[p] - 1) as u32)));
                assert(with_cell(s1.tape, p, 0) == with_cell(t, p, 0)) by {
                    assert(with_cell(s1.tape, p, 0).cells =~= with_cell(t, p, 0).cells);
                }
            }
        }
    } else if t.cells[p] == 0 {
        assert(with_cell(t, p, 0) == t) by {
            assert(with_cell(t, p, 0).cells =~= t.cells);
        }
    }
}

#[verifier::rlimit(80)]
proof fn lemma_first_pass_refines(p: Seq<Node>, s: Trace, fuel: nat)
    requires
        counts_fit(p),
        tape_wf(s.tape),
    ensures
        agrees(eval(first_pass(p), s, fuel), eval(p, s, fuel), wraps_everywhere(s.tape)),
    decreases p, 1int, 0nat,
{
    if p.len() > 0 {
        let d = p.subrange(0, p.len() - 1);
        let x = p[p.len() - 1];
        assert(p.drop_last() == d);
        lemma_counts_last(p);
        lemma_first_pass_refines(d, s, fuel);
        lemma_first_pass_totals(d);
        let acc = first_pass(d);
        lemma_eval_last(p, s, fuel);
        lemma_eval_wf(d, s, fuel);
        match x {
            Node::Loop(body) => {
                assert(node_edits(x) == edit_total(body));
                assert(node_moves(x) == move_total(body));
                lemma_eval_push(acc, close_loop(optimised(body)), s, fuel);
                if let Some(Ok(s1)) = eval(d, s, fuel) {
                    lemma_loop_refines(x, s1, fuel);
                }
            },
            _ => {
                lemma_fuse_refines(acc, x, s, fuel);
                lemma_eval_push(acc, x, s, fuel);
            },
        }
    }
}

proof fn lemma_optimised_refines(p: Seq<Node>, s: Trace, fuel: nat)
    requires
        counts_fit(p),
        tape_wf(s.tape),
    ensures
        agrees(eval(optimised(p), s, fuel), eval(p, s, fuel), wraps_everywhere(s.tape)),
    decreases p, 2int, 0nat,
{
    lemma_first_pass_refines(p, s, fuel);
    crate::semantics::lemma_second_pass_refines(first_pass(p), s, fuel);
}


/// Optimising keeps what a run does. Wherever a program, run from a trace
/// with at most `fuel` loop iterations, ends without error, its optimised
/// form ends the same way, with the same tape, the same input left unread
/// and the same output. Where both motion and arithmetic wrap, this holds of
/// every run that ends, errors included.
pub proof fn lemma_optimise_preserves_runs(prog: Seq<Node>, s: Trace, fuel: nat)
    requires
        counts_fit(prog),
        tape_wf(s.tape),
        eval(prog, s, fuel) matches Some(r) && (r is Ok || wraps_everywhere(s.tape)),
    ensures
        eval(optimised(prog), s, fuel) == eval(prog, s, fuel),
{
    lemma_optimised_refines(prog, s, fuel);
}


/// No fork, and loop bodies that are `runnable`.
pub open spec fn runnable_node(x: Node) -> bool
    decreases x,
{
    match x {
        Node::Loop(body) => runnable(body),
        Node::Fork => false,
        _ => true,
    }
}

/// Lists short enough for a frame's index to step past their end, and no
/// fork anywhere.
pub open spec fn runnable(prog: Seq<Node>) -> bool
    decreases prog,
{
    &&& prog.len() < usize::MAX
    &&& forall|i: int| 0 <= i < prog.len() ==> runnable_node(#[trigger] prog[i])
}

/// A run as its caller carries it out: input lines still to give, output
/// printed so far, and how the run ended, once it has.
pub struct Drive {
    pub run: Run,
    pub input: Seq<Input>,
    pub output: Seq<Effect>,
    pub end: Option<Result<(), Error>>,
}

/// One step as the caller carries it out: a read is answered with the next
/// input line (or exhaustion), printing is collected, spawning and joining
/// pass without effect.
pub open spec fn drive_step(d: Drive) -> Drive {
    if d.end is Some {
        d
    } else {
        let (r1, e1) = next(d.run, None);
        match e1 {
            Effect::Input => {
                let line = if d.input.len() > 0 {
                    d.input[0]
                } else {
                    Input::Exhausted
                };
                let rest = if d.input.len() > 0 {
                    d.input.drop_first()
                } else {
                    d.input
                };
                match next(d.run, Some(line)).1 {
                    Effect::Fail(e) => Drive { end: Some(Err(e)), ..d },
                    _ => Drive { run: next(d.run, Some(line)).0, input: rest, ..d },
                }
            },
            Effect::Char(_) => Drive { run: r1, output: d.output.push(e1), ..d },
            Effect::Record(_, _) => Drive { run: r1, output: d.output.push(e1), ..d },
            Effect::Done => Drive { end: Some(Ok(())), ..d },
            Effect::Fail(e) => Drive { end: Some(Err(e)), ..d },
            _ => Drive { run: r1, ..d },
        }
    }
}

/// `n` steps as the caller carries them out.
pub open spec fn drive(d: Drive, n: nat) -> Drive
    decreases n,
{
    if n == 0 {
        d
    } else {
        drive(drive_step(d), (n - 1) as nat)
    }
}

/// A run of `prog` from a trace, at its first instruction.
pub open spec fn start(prog: Seq<Node>, s: Trace) -> Drive {
    Drive {
        run: Run { program: prog, tape: s.tape, frames: seq![fresh_frame()] },
        input: s.input,
        output: s.output,
        end: None,
    }
}

/// What a drive has shown of the run so far, as a trace.
pub open spec fn trace_of(d: Drive) -> Trace {
    Trace { tape: d.run.tape, input: d.input, output: d.output }
}

/// The innermost scope of a run.
pub open spec fn top_frame(r: Run) -> Frame {
    r.frames[r.frames.len() - 1]
}

/// The list of siblings of the innermost scope.
pub open spec fn top_list(r: Run) -> Seq<Node> {
    scope(r.program, r.frames, (r.frames.len() - 1) as nat)
}

/// The drive with the innermost scope at index `j` and the trace `s`.
pub open spec fn moved_on(d: Drive, j: int, s: Trace) -> Drive {
    Drive {
        run: Run {
            tape: s.tape,
            frames: d.run.frames.update(
                d.run.frames.len() - 1,
                Frame { index: j as usize, ..top_frame(d.run) },
            ),
            ..d.run
        },
        input: s.input,
        output: s.output,
        end: None,
    }
}

proof fn lemma_drive_add(d: Drive, a: nat, b: nat)
    ensures
        drive(d, a + b) == drive(drive(d, a), b),
    decreases a,
{
    if a > 0 {
        lemma_drive_add(drive_step(d), (a - 1) as nat, b);
        assert(drive(d, a + b) == drive(drive_step(d), (a + b - 1) as nat));
    }
}



/// Running instructions `[index, j)` of the innermost scope, as `eval` does,
/// takes the drive to index `j` with the trace that `eval` gives.
#[verifier::rlimit(80)]
proof fn lemma_segment(d: Drive, j: int, fuel: nat) -> (n: nat)
    requires
        d.end is None,
        d.run.frames.len() >= 1,
        runnable(top_list(d.run)),
        top_frame(d.run).index <= j <= top_list(d.run).len(),
        eval(top_list(d.run).subrange(top_frame(d.run).index as int, j), trace_of(d), fuel) is Some,
        eval(top_list(d.run).subrange(top_frame(d.run).index as int, j), trace_of(d), fuel)->Some_0 is Ok,
    ensures
        drive(d, n) == moved_on(
            d,
            j,
            eval(top_list(d.run).subrange(top_frame(d.run).index as int, j), trace_of(d), fuel)->Some_0->Ok_0,
        ),
    decreases fuel, j - top_frame(d.run).index, 1int,
{
    let l = top_list(d.run);
    let f = top_frame(d.run);
    let i = f.index as int;
    let k = d.run.frames.len() - 1;
    let seg = l.subrange(i, j);
    if j == i {
        assert(seg.len() == 0);
        assert(d.run.frames.update(k, Frame { index: j as usize, ..f }) =~= d.run.frames);
        0
    } else {
        let shorter = l.subrange(i, j - 1);
        assert(seg.subrange(0, seg.len() - 1) =~= shorter);
        assert(seg[seg.len() - 1] == l[j - 1]);
        let s1 = eval(shorter, trace_of(d), fuel)->Some_0->Ok_0;
        let n1 = lemma_segment(d, j - 1, fuel);
        let d1 = moved_on(d, j - 1, s1);
        assert(d1.run.frames.len() == d.run.frames.len());
        lemma_scope_prefix(d.run.program, d1.run.frames, d.run.frames, k as nat);
        assert(top_list(d1.run) == l);
        assert(top_frame(d1.run).index == j - 1);
        assert(trace_of(d1) == s1);
        let n2 = lemma_instruction(d1, fuel);
        lemma_drive_add(d, n1, n2);
        assert(moved_on(d1, j, eval_node(l[j - 1], s1, fuel)->Some_0->Ok_0).run.frames =~= moved_on(
            d,
            j,
            eval(seg, trace_of(d), fuel)->Some_0->Ok_0,
        ).run.frames);
        n1 + n2
    }
}

/// Running the instruction at the index of the innermost scope, as
/// `eval_node` does, takes the drive one index on.
#[verifier::rlimit(80)]
proof fn lemma_instruction(d: Drive, fuel: nat) -> (n: nat)
    requires
        d.end is None,
        d.run.frames.len() >= 1,
        runnable(top_list(d.run)),
        top_frame(d.run).index < top_list(d.run).len(),
        eval_node(top_list(d.run)[top_frame(d.run).index as int], trace_of(d), fuel) is Some,
        eval_node(top_list(d.run)[top_frame(d.run).index as int], trace_of(d), fuel)->Some_0 is Ok,
    ensures
        drive(d, n) == moved_on(
            d,
            top_frame(d.run).index + 1,
            eval_node(top_list(d.run)[top_frame(d.run).index as int], trace_of(d), fuel)->Some_0->Ok_0,
        ),
    decreases fuel, 0int, 0int,
{
    let l = top_list(d.run);
    let f = top_frame(d.run);
    let i = f.index as int;
    let k = d.run.frames.len() - 1;
    let x = l[i];
    let s = trace_of(d);
    let t = s.tape;
    let s2 = eval_node(x, s, fuel)->Some_0->Ok_0;
    assert(drive(d, 1) == drive_step(d)) by {
        assert(drive(drive_step(d), 0) == drive_step(d));
    }
    match x {
        Node::Loop(body) => {
            if t.cells[t.pointer] == 0 {
                1
            } else {
                let f1 = (fuel - 1) as nat;
                assert(runnable_node(l[i]));
                assert(runnable(body));
                assert(body.len() < usize::MAX);
                let s1 = eval(body, s, f1)->Some_0->Ok_0;
                let frames1 = d.run.frames.push(fresh_frame());
                let d1 = Drive { run: Run { frames: frames1, ..d.run }, ..d };
                assert(drive_step(d) == d1);
                lemma_scope_prefix(d.run.program, frames1, d.run.frames, k as nat);
                assert(top_list(d1.run) == body);
                assert(body.subrange(0, body.len() as int) =~= body);
                let n1 = lemma_segment(d1, body.len() as int, f1);
                let d2 = moved_on(d1, body.len() as int, s1);
                assert(d2.run.frames.len() == frames1.len());
                lemma_scope_prefix(d.run.program, d2.run.frames, frames1, (k + 1) as nat);
                assert(top_list(d2.run) == body);
                let d3 = Drive { run: Run { tape: s1.tape, ..d.run }, input: s1.input, output: s1.output, end: None };
                assert(d2.run.frames.drop_last() =~= d.run.frames);
                assert(d2.run.frames[k + 1] == Frame { index: body.len() as usize, forks: 0 });
                assert(top_frame(d2.run).index == body.len());
                assert(top_frame(d2.run).forks == 0);
                assert(next(d2.run, None).1 is Continue);
                assert(next(d2.run, None).0 == d3.run);
                assert(drive_step(d2) == d3);
                assert(top_list(d3.run) == l);
                assert(trace_of(d3) == s1);
                let n3 = lemma_instruction(d3, f1);
                lemma_drive_add(d, 1, n1);
                lemma_drive_add(d, 1 + n1, 1);
                lemma_drive_add(d, 1 + n1 + 1, n3);
                assert(drive(d2, 1) == d3) by {
                    assert(drive(drive_step(d2), 0) == drive_step(d2));
                }
                assert(moved_on(d3, i + 1, s2).run.frames =~= moved_on(d, i + 1, s2).run.frames);
                1 + n1 + 1 + n3
            }
        },
        _ => {
            assert(drive_step(d).run.frames =~= moved_on(d, i + 1, s2).run.frames);
            1
        },
    }
}


/// Where `eval` runs a program to its end without error, stepping a run of
/// it as its caller would reaches the end too, with the same tape, the same
/// input left unread and the same output.
#[verifier::rlimit(80)]
pub proof fn lemma_steps_follow_eval(prog: Seq<Node>, s: Trace, fuel: nat) -> (n: nat)
    requires
        runnable(prog),
        eval(prog, s, fuel) matches Some(Ok(_)),
    ensures
        ({
            let e = eval(prog, s, fuel)->Some_0->Ok_0;
            let d = drive(start(prog, s), n);
            &&& d.end == Some(Ok::<(), Error>(()))
            &&& d.run.tape == e.tape
            &&& d.input == e.input
            &&& d.output == e.output
        }),
{
    let d0 = start(prog, s);
    assert(top_list(d0.run) == prog);
    assert(prog.subrange(0, prog.len() as int) =~= prog);
    assert(trace_of(d0) == s);
    let n1 = lemma_segment(d0, prog.len() as int, fuel);
    let d1 = drive(d0, n1);
    assert(top_list(d1.run) == prog);
    assert(top_frame(d1.run) == Frame { index: prog.len() as usize, forks: 0 });
    assert(next(d1.run, None).1 is Done);
    lemma_drive_add(d0, n1, 1);
    assert(drive(d1, 1) == drive_step(d1)) by {
        assert(drive(drive_step(d1), 0) == drive_step(d1));
    }
    n1 + 1
}


/// All nodes of `q` are `runnable_node`.
spec fn all_runnable(q: Seq<Node>) -> bool {
    forall|i: int| 0 <= i < q.len() ==> runnable_node(#[trigger] q[i])
}

proof fn lemma_fuse_runnable(acc: Seq<Node>, x: Node)
    requires
        all_runnable(acc),
        runnable_node(x),
    ensures
        all_runnable(fuse(acc, x)),
        fuse(acc, x).len() <= acc.len() + 1,
{
    let r = fuse(acc, x);
    assert forall|i: int| 0 <= i < r.len() implies runnable_node(#[trigger] r[i]) by {
        if i < acc.len() - 1 || (r == acc.push(x) && i < acc.len()) {
            assert(r[i] == acc[i]);
        }
    }
}

proof fn lemma_pair_runnable(acc: Seq<Node>, x: Node)
    requires
        all_runnable(acc),
        runnable_node(x),
    ensures
        all_runnable(crate::optimise::pair(acc, x)),
        crate::optimise::pair(acc, x).len() <= acc.len() + 1,
{
    let r = crate::optimise::pair(acc, x);
    assert forall|i: int| 0 <= i < r.len() implies runnable_node(#[trigger] r[i]) by {
        if i < acc.len() - 1 || (r == acc.push(x) && i < acc.len()) {
            assert(r[i] == acc[i]);
        }
    }
}

proof fn lemma_second_pass_runnable(q: Seq<Node>)
    requires
        all_runnable(q),
    ensures
        all_runnable(second_pass(q)),
        second_pass(q).len() <= q.len(),
    decreases q.len(),
{
    if q.len() > 0 {
        let d = q.drop_last();
        assert forall|i: int| 0 <= i < d.len() implies runnable_node(#[trigger] d[i]) by {
            assert(d[i] == q[i]);
        }
        assert(runnable_node(q[q.len() - 1]));
        lemma_second_pass_runnable(d);
        lemma_pair_runnable(second_pass(d), q.last());
    }
}

proof fn lemma_first_pass_runnable(p: Seq<Node>)
    requires
        all_runnable(p),
    ensures
        all_runnable(first_pass(p)),
        first_pass(p).len() <= p.len(),
    decreases p, 1int,
{
    if p.len() > 0 {
        let d = p.subrange(0, p.len() - 1);
        let x = p[p.len() - 1];
        assert forall|i: int| 0 <= i < d.len() implies runnable_node(#[trigger] d[i]) by {
            assert(d[i] == p[i]);
        }
        assert(runnable_node(p[p.len() - 1]));
        lemma_first_pass_runnable(d);
        let acc = first_pass(d);
        match x {
            Node::Loop(body) => {
                lemma_optimised_runnable(body);
                let c = close_loop(optimised(body));
                assert(runnable_node(c));
                let r = acc.push(c);
                assert forall|i: int| 0 <= i < r.len() implies runnable_node(#[trigger] r[i]) by {
                    if i < acc.len() {
                        assert(r[i] == acc[i]);
                    }
                }
            },
            _ => {
                lemma_fuse_runnable(acc, x);
            },
        }
    }
}

/// Optimising keeps a program `runnable`.
proof fn lemma_optimised_runnable(p: Seq<Node>)
    requires
        runnable(p),
    ensures
        runnable(optimised(p)),
    decreases p, 2int,
{
    lemma_first_pass_runnable(p);
    lemma_second_pass_runnable(first_pass(p));
}


proof fn lemma_eval_node_more_fuel(x: Node, s: Trace, f: nat, g: nat)
    requires
        f <= g,
        eval_node(x, s, f) is Some,
    ensures
        eval_node(x, s, g) == eval_node(x, s, f),
    decreases f, x, 0int,
{
    if let Node::Loop(body) = x {
        let t = s.tape;
        if t.cells[t.pointer] != 0 {
            lemma_eval_more_fuel(body, s, (f - 1) as nat, (g - 1) as nat);
            if let Some(Ok(s1)) = eval(body, s, (f - 1) as nat) {
                lemma_eval_node_more_fuel(x, s1, (f - 1) as nat, (g - 1) as nat);
            }
        }
    }
}

proof fn lemma_eval_more_fuel(prog: Seq<Node>, s: Trace, f: nat, g: nat)
    requires
        f <= g,
        eval(prog, s, f) is Some,
    ensures
        eval(prog, s, g) == eval(prog, s, f),
    decreases f, prog, 0int,
{
    if prog.len() > 0 {
        let d = prog.subrange(0, prog.len() - 1);
        lemma_eval_more_fuel(d, s, f, g);
        if let Some(Ok(s1)) = eval(d, s, f) {
            lemma_eval_node_more_fuel(prog[prog.len() - 1], s1, f, g);
        }
    }
}

/// Running one instruction and then a list, as `eval` runs the list with
/// the instruction in front.
proof fn lemma_eval_front(x: Node, rest: Seq<Node>, s: Trace, fuel: nat)
    ensures
        eval(seq![x] + rest, s, fuel) == match eval_node(x, s, fuel) {
            Some(Ok(s1)) => eval(rest, s1, fuel),
            r => r,
        },
    decreases rest.len(),
{
    if rest.len() == 0 {
        assert(seq![x] + rest =~= seq![x]);
        lemma_eval_single(x, s, fuel);
    } else {
        let d = rest.drop_last();
        lemma_eval_front(x, d, s, fuel);
        assert((seq![x] + rest).drop_last() =~= seq![x] + d);
        assert((seq![x] + rest).last() == rest.last());
        lemma_eval_last(seq![x] + rest, s, fuel);
        if let Some(Ok(s1)) = eval_node(x, s, fuel) {
            lemma_eval_last(rest, s1, fuel);
        }
    }
}

/// The rest of a run from scope `k` outwards: the rest of that scope's list,
/// then, scope by scope, the rest of each enclosing list from its loop on.
pub open spec fn rest(program: Seq<Node>, frames: Seq<Frame>, k: nat, s: Trace, fuel: nat) -> Option<
    Result<Trace, Error>,
>
    decreases k,
{
    let l = scope(program, frames, k);
    let r = eval(l.subrange(frames[k as int].index as int, l.len() as int), s, fuel);
    if k == 0 {
        r
    } else {
        match r {
            Some(Ok(s1)) => rest(program, frames, (k - 1) as nat, s1, fuel),
            other => other,
        }
    }
}

/// The rest of a driven run, as `eval` has it.
pub open spec fn rest_of(d: Drive, fuel: nat) -> Option<Result<Trace, Error>> {
    rest(d.run.program, d.run.frames, (d.run.frames.len() - 1) as nat, trace_of(d), fuel)
}

/// Scopes lie in the program, enclosing ones at a loop; no forks are pending;
/// every list is `runnable`.
pub open spec fn steady(r: Run) -> bool {
    &&& r.frames.len() >= 1
    &&& forall|k: int|
        0 <= k < r.frames.len() ==> {
            &&& #[trigger] r.frames[k].index <= scope(r.program, r.frames, k as nat).len()
            &&& r.frames[k].forks == 0
            &&& runnable(scope(r.program, r.frames, k as nat))
        }
    &&& forall|k: int|
        0 <= k < r.frames.len() - 1 ==> {
            &&& #[trigger] r.frames[k].index < scope(r.program, r.frames, k as nat).len()
            &&& scope(r.program, r.frames, k as nat)[r.frames[k].index as int] is Loop
        }
}

proof fn lemma_rest_more_fuel(program: Seq<Node>, frames: Seq<Frame>, k: nat, s: Trace, f: nat, g: nat)
    requires
        f <= g,
        rest(program, frames, k, s, f) is Some,
    ensures
        rest(program, frames, k, s, g) == rest(program, frames, k, s, f),
    decreases k,
{
    let l = scope(program, frames, k);
    let seg = l.subrange(frames[k as int].index as int, l.len() as int);
    lemma_eval_more_fuel(seg, s, f, g);
    if k > 0 {
        if let Some(Ok(s1)) = eval(seg, s, f) {
            lemma_rest_more_fuel(program, frames, (k - 1) as nat, s1, f, g);
        }
    }
}

proof fn lemma_rest_prefix(program: Seq<Node>, a: Seq<Frame>, b: Seq<Frame>, k: nat, s: Trace, fuel: nat)
    requires
        k < a.len(),
        k < b.len(),
        forall|i: int| 0 <= i <= k ==> a[i] == b[i],
    ensures
        rest(program, a, k, s, fuel) == rest(program, b, k, s, fuel),
    decreases k,
{
    lemma_scope_prefix(program, a, b, k);
    let l = scope(program, a, k);
    let seg = l.subrange(a[k as int].index as int, l.len() as int);
    if k > 0 {
        if let Some(Ok(s1)) = eval(seg, s, fuel) {
            lemma_rest_prefix(program, a, b, (k - 1) as nat, s1, fuel);
        }
    }
}

proof fn lemma_drive_ended(d: Drive, n: nat)
    requires
        d.end is Some,
    ensures
        drive(d, n) == d,
    decreases n,
{
    if n > 0 {
        lemma_drive_ended(drive_step(d), (n - 1) as nat);
    }
}

#[verifier::rlimit(80)]
proof fn lemma_steady_frames(r: Run, frames: Seq<Frame>)
    requires
        steady(r),
        frames.len() >= 1,
        frames.len() <= r.frames.len() + 1,
        forall|i: int| 0 <= i < frames.len() - 1 ==> frames[i] == r.frames[i],
        frames.len() == r.frames.len() + 1 ==> {
            let k = r.frames.len() - 1;
            &&& r.frames[k].index < scope(r.program, r.frames, k as nat).len()
            &&& scope(r.program, r.frames, k as nat)[r.frames[k].index as int] is Loop
            &&& frames.last() == fresh_frame()
        },
        frames.len() == r.frames.len() ==> frames.last().index <= scope(
            r.program,
            r.frames,
            (frames.len() - 1) as nat,
        ).len() && frames.last().forks == 0,
        frames.len() < r.frames.len() ==> frames.last() == r.frames[frames.len() - 1],
    ensures
        steady(Run { frames, ..r }),
{
    let k = r.frames.len() - 1;
    assert forall|j: int| 0 <= j < frames.len() implies {
        &&& #[trigger] frames[j].index <= scope(r.program, frames, j as nat).len()
        &&& frames[j].forks == 0
        &&& runnable(scope(r.program, frames, j as nat))
    } by {
        if j < r.frames.len() {
            lemma_scope_prefix(r.program, frames, r.frames, j as nat);
            assert(r.frames[j].index <= scope(r.program, r.frames, j as nat).len());
        } else {
            lemma_scope_prefix(r.program, frames, r.frames, k as nat);
            let l = scope(r.program, r.frames, k as nat);
            assert(r.frames[k].index <= l.len());
            assert(runnable(l));
            assert(runnable_node(l[r.frames[k].index as int]));
        }
    }
    assert forall|j: int| 0 <= j < frames.len() - 1 implies {
        &&& #[trigger] frames[j].index < scope(r.program, frames, j as nat).len()
        &&& scope(r.program, frames, j as nat)[frames[j].index as int] is Loop
    } by {
        lemma_scope_prefix(r.program, frames, r.frames, j as nat);
        if j < k {
            assert(r.frames[j].index < scope(r.program, r.frames, j as nat).len());
        }
    }
}

/// One step of a steady run that does not end it leaves it steady.
#[verifier::rlimit(80)]
proof fn lemma_steady_step(d: Drive)
    requires
        d.end is None,
        steady(d.run),
        drive_step(d).end is None,
    ensures
        steady(drive_step(d).run),
        drive_step(d).run.program == d.run.program,
        drive_step(d).run.frames.len() >= 1,
{
    let r = d.run;
    let k = r.frames.len() - 1;
    let f = r.frames[k];
    let l = scope(r.program, r.frames, k as nat);
    assert(f.index <= l.len());
    assert(runnable(l));
    let d1 = drive_step(d);
    if f.index >= l.len() {
        if k > 0 {
            assert(d1.run.frames == r.frames.drop_last());
            lemma_steady_frames(r, r.frames.drop_last());
        }
    } else {
        assert(runnable_node(l[f.index as int]));
        match l[f.index as int] {
            Node::Loop(_) => {
                if r.tape.cells[r.tape.pointer] != 0 {
                    lemma_steady_frames(r, r.frames.push(fresh_frame()));
                    assert(d1.run == Run { frames: r.frames.push(fresh_frame()), ..r });
                } else {
                    lemma_steady_frames(r, d1.run.frames);
                    assert(d1.run == Run { frames: d1.run.frames, ..r });
                }
            },
            _ => {
                lemma_steady_frames(Run { tape: d1.run.tape, ..r }, d1.run.frames);
                assert(d1.run == Run { frames: d1.run.frames, ..Run { tape: d1.run.tape, ..r } });
            },
        }
    }
}

#[verifier::rlimit(80)]
proof fn lemma_back_pop(d: Drive, fuel: nat)
    requires
        d.end is None,
        steady(d.run),
        top_frame(d.run).index >= top_list(d.run).len(),
        d.run.frames.len() >= 2,
    ensures
        rest_of(d, fuel) == rest_of(drive_step(d), fuel),
{
    let r = d.run;
    let k = (r.frames.len() - 1) as nat;
    let l = scope(r.program, r.frames, k);
    let i = r.frames[k as int].index as int;
    let s = trace_of(d);
    let d1 = drive_step(d);
    assert(i <= l.len());
    assert(l.subrange(i, l.len() as int) =~= Seq::<Node>::empty());
    assert(r.frames[k as int].forks == 0);
    assert(d1.run.frames == r.frames.drop_last());
    assert(trace_of(d1) == s);
    lemma_rest_prefix(r.program, d1.run.frames, r.frames, (k - 1) as nat, s, fuel);
}

#[verifier::rlimit(80)]
proof fn lemma_simple_step(d: Drive, fuel: nat)
    requires
        d.end is None,
        steady(d.run),
        top_frame(d.run).index < top_list(d.run).len(),
        !(top_list(d.run)[top_frame(d.run).index as int] is Loop && d.run.tape.cells[d.run.tape.pointer]
            != 0),
        drive_step(d).end is None,
    ensures
        eval_node(top_list(d.run)[top_frame(d.run).index as int], trace_of(d), fuel) == Some(
            Ok::<Trace, Error>(trace_of(drive_step(d))),
        ),
        drive_step(d).run.frames == d.run.frames.update(
            d.run.frames.len() - 1,
            Frame { index: (top_frame(d.run).index + 1) as usize, ..top_frame(d.run) },
        ),
        drive_step(d).run.program == d.run.program,
{
    let l = top_list(d.run);
    let i = top_frame(d.run).index as int;
    assert(runnable(l));
    assert(runnable_node(l[i]));
}

#[verifier::rlimit(80)]
proof fn lemma_back_simple(d: Drive, fuel: nat)
    requires
        d.end is None,
        steady(d.run),
        top_frame(d.run).index < top_list(d.run).len(),
        !(top_list(d.run)[top_frame(d.run).index as int] is Loop && d.run.tape.cells[d.run.tape.pointer]
            != 0),
        drive_step(d).end is None,
    ensures
        rest_of(d, fuel) == rest_of(drive_step(d), fuel),
{
    let r = d.run;
    let k = (r.frames.len() - 1) as nat;
    let l = scope(r.program, r.frames, k);
    let i = r.frames[k as int].index as int;
    let s = trace_of(d);
    let d1 = drive_step(d);
    let x = l[i];
    let tail = l.subrange(i + 1, l.len() as int);
    lemma_simple_step(d, fuel);
    let s1 = trace_of(d1);
    let frames1 = d1.run.frames;
    assert(l.subrange(i, l.len() as int) =~= seq![x] + tail);
    lemma_eval_front(x, tail, s, fuel);
    assert(eval(l.subrange(i, l.len() as int), s, fuel) == eval(tail, s1, fuel));
    lemma_scope_prefix(r.program, frames1, r.frames, k);
    assert(frames1[k as int].index == i + 1);
    assert(scope(r.program, frames1, k).subrange(frames1[k as int].index as int, l.len() as int) == tail);
    if k > 0 {
        if let Some(Ok(s2)) = eval(tail, s1, fuel) {
            lemma_rest_prefix(r.program, frames1, r.frames, (k - 1) as nat, s2, fuel);
        }
    }
}

#[verifier::rlimit(80)]
proof fn lemma_back_enter(d: Drive, fuel: nat)
    requires
        d.end is None,
        steady(d.run),
        top_frame(d.run).index < top_list(d.run).len(),
        top_list(d.run)[top_frame(d.run).index as int] is Loop,
        d.run.tape.cells[d.run.tape.pointer] != 0,
        rest_of(drive_step(d), fuel) matches Some(Ok(_)),
    ensures
        rest_of(d, fuel + 1) == rest_of(drive_step(d), fuel),
{
    let r = d.run;
    let k = (r.frames.len() - 1) as nat;
    let l = scope(r.program, r.frames, k);
    let i = r.frames[k as int].index as int;
    let s = trace_of(d);
    let d1 = drive_step(d);
    let x = l[i];
    let body = x->Loop_0;
    let tail = l.subrange(i + 1, l.len() as int);
    assert(l.subrange(i, l.len() as int) =~= seq![x] + tail);
    let frames1 = r.frames.push(fresh_frame());
    assert(d1.run.frames == frames1);
    assert(trace_of(d1) == s);
    lemma_scope_prefix(r.program, frames1, r.frames, k);
    assert(scope(r.program, frames1, k + 1) == body);
    assert(body.subrange(0, body.len() as int) =~= body);
    let s1 = eval(body, s, fuel)->Some_0->Ok_0;
    lemma_rest_prefix(r.program, frames1, r.frames, k, s1, fuel);
    lemma_eval_front(x, tail, s1, fuel);
    let s3 = eval_node(x, s1, fuel)->Some_0->Ok_0;
    lemma_eval_front(x, tail, s, fuel + 1);
    lemma_eval_more_fuel(tail, s3, fuel, fuel + 1);
    let s2 = eval(tail, s3, fuel)->Some_0->Ok_0;
    if k > 0 {
        lemma_rest_more_fuel(r.program, r.frames, (k - 1) as nat, s2, fuel, fuel + 1);
    }
}

/// Where a steady run, stepped as its caller would, reaches its end, some
/// fuel lets `eval` run the rest of it to the same trace.
#[verifier::rlimit(80)]
proof fn lemma_rest_from_drive(d: Drive, n: nat) -> (fuel: nat)
    requires
        d.end is None,
        steady(d.run),
        drive(d, n).end == Some(Ok::<(), Error>(())),
    ensures
        rest_of(d, fuel) == Some(Ok::<Trace, Error>(trace_of(drive(d, n)))),
    decreases n,
{
    let d1 = drive_step(d);
    assert(drive(d, n) == drive(d1, (n - 1) as nat));
    let r = d.run;
    let k = (r.frames.len() - 1) as nat;
    let l = scope(r.program, r.frames, k);
    let i = r.frames[k as int].index as int;
    if d1.end is Some {
        lemma_drive_ended(d1, (n - 1) as nat);
        assert(next(r, None).1 is Done);
        assert(i == l.len());
        assert(k == 0);
        assert(l.subrange(i, l.len() as int) =~= Seq::<Node>::empty());
        assert(trace_of(d1) == trace_of(d));
        0
    } else {
        lemma_steady_step(d);
        let f1 = lemma_rest_from_drive(d1, (n - 1) as nat);
        if i >= l.len() {
            if k == 0 {
                assert(next(r, None).1 is Done);
            }
            lemma_back_pop(d, f1);
            f1
        } else if l[i] is Loop && r.tape.cells[r.tape.pointer] != 0 {
            lemma_back_enter(d, f1);
            f1 + 1
        } else {
            lemma_back_simple(d, f1);
            f1
        }
    }
}

/// Where a stepped run of a program without forks reaches its end, `eval`
/// with enough fuel ends it without error on the same tape, input left
/// unread and output.
pub proof fn lemma_eval_follows_steps(prog: Seq<Node>, s: Trace, n: nat) -> (fuel: nat)
    requires
        runnable(prog),
        drive(start(prog, s), n).end == Some(Ok::<(), Error>(())),
    ensures
        eval(prog, s, fuel) == Some(Ok::<Trace, Error>(trace_of(drive(start(prog, s), n)))),
{
    let d0 = start(prog, s);
    assert(scope(prog, d0.run.frames, 0) == prog);
    assert(steady(d0.run));
    assert(prog.subrange(0, prog.len() as int) =~= prog);
    assert(trace_of(d0) == s);
    lemma_rest_from_drive(d0, n)
}

/// Optimising keeps what a stepped run does: where a stepped run of a
/// program without forks reaches its end, carried out as its caller would,
/// a stepped run of the optimised program reaches its end too, with the same
/// tape, the same input left unread and the same output.
pub proof fn lemma_optimised_steps_alike(prog: Seq<Node>, s: Trace, n: nat) -> (m: nat)
    requires
        counts_fit(prog),
        tape_wf(s.tape),
        runnable(prog),
        drive(start(prog, s), n).end == Some(Ok::<(), Error>(())),
    ensures
        ({
            let a = drive(start(prog, s), n);
            let b = drive(start(optimised(prog), s), m);
            &&& b.end == a.end
            &&& b.run.tape == a.run.tape
            &&& b.input == a.input
            &&& b.output == a.output
        }),
{
    let fuel = lemma_eval_follows_steps(prog, s, n);
    lemma_optimise_preserves_runs(prog, s, fuel);
    lemma_optimised_runnable(prog);
    lemma_steps_follow_eval(optimised(prog), s, fuel)
}

} // verus!
