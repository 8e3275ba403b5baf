//! The two-pass peephole optimiser, stated as folds over sibling lists,
//! with its count bounds and its fixed-point law.
use vstd::prelude::*;
use crate::instruction::{
    plain, unparse,
    lemma_nodes_drop_last, lemma_nodes_index, lemma_nodes_push, node, nodes, Edit, Instruction, Move,
    Node,
};

verus! {

/// The size of an edit.
pub open spec fn edit_count(e: Edit) -> int {
    match e {
        Edit::Increment(n) => n as int,
        Edit::Decrement(n) => n as int,
    }
}

/// The size of a move.
pub open spec fn move_count(m: Move) -> int {
    match m {
        Move::Right(n) => n as int,
        Move::Left(n) => n as int,
    }
}

/// The edit counts of one node, loop bodies included.
pub open spec fn node_edits(x: Node) -> int
    decreases x,
{
    match x {
        Node::Loop(body) => edit_total(body),
        Node::MoveEdit(_, e) => edit_count(e),
        Node::EditOther(_, e) => edit_count(e),
        Node::Edit(e) => edit_count(e),
        _ => 0,
    }
}

/// The sum of all edit counts in a program.
pub open spec fn edit_total(prog: Seq<Node>) -> int
    decreases prog,
{
    if prog.len() == 0 {
        0
    } else {
        edit_total(prog.subrange(0, prog.len() - 1)) + node_edits(prog[prog.len() - 1])
    }
}

/// The move counts of one node, loop bodies included.
pub open spec fn node_moves(x: Node) -> int
    decreases x,
{
    match x {
        Node::Loop(body) => move_total(body),
        Node::MoveEdit(m, _) => move_count(m),
        Node::EditOther(m, _) => move_count(m),
        Node::Move(m) => move_count(m),
        _ => 0,
    }
}

/// The sum of all move counts in a program.
pub open spec fn move_total(prog: Seq<Node>) -> int
    decreases prog,
{
    if prog.len() == 0 {
        0
    } else {
        move_total(prog.subrange(0, prog.len() - 1)) + node_moves(prog[prog.len() - 1])
    }
}

/// Every count that merging can produce fits its counter.
pub open spec fn counts_fit(prog: Seq<Node>) -> bool {
    edit_total(prog) <= u32::MAX && move_total(prog) <= usize::MAX
}

/// Two adjacent edits as one: same directions add up, opposite ones cancel
/// as far as they go; `None` where they cancel out.
pub open spec fn merge_edits(a: Edit, b: Edit) -> Option<Edit> {
    match a {
        Edit::Increment(x) => match b {
            Edit::Increment(y) => Some(Edit::Increment((x + y) as u32)),
            Edit::Decrement(y) => if x > y {
                Some(Edit::Increment((x - y) as u32))
            } else if x < y {
                Some(Edit::Decrement((y - x) as u32))
            } else {
                None
            },
        },
        Edit::Decrement(x) => match b {
            Edit::Decrement(y) => Some(Edit::Decrement((x + y) as u32)),
            Edit::Increment(y) => if y > x {
                Some(Edit::Increment((y - x) as u32))
            } else if y < x {
                Some(Edit::Decrement((x - y) as u32))
            } else {
                None
            },
        },
    }
}

/// Two adjacent moves as one, by the same rule as edits.
pub open spec fn merge_moves(a: Move, b: Move) -> Option<Move> {
    match a {
        Move::Right(x) => match b {
            Move::Right(y) => Some(Move::Right((x + y) as usize)),
            Move::Left(y) => if x > y {
                Some(Move::Right((x - y) as usize))
            } else if x < y {
                Some(Move::Left((y - x) as usize))
            } else {
                None
            },
        },
        Move::Left(x) => match b {
            Move::Left(y) => Some(Move::Left((x + y) as usize)),
            Move::Right(y) => if y > x {
                Some(Move::Right((y - x) as usize))
            } else if y < x {
                Some(Move::Left((x - y) as usize))
            } else {
                None
            },
        },
    }
}

/// Appends `x` to the output of the first pass, merging it into the last
/// instruction where both are edits or both are moves.
pub open spec fn fuse(acc: Seq<Node>, x: Node) -> Seq<Node> {
    if acc.len() == 0 {
        acc.push(x)
    } else {
        let init = acc.drop_last();
        match acc.last() {
            Node::Edit(a) => match x {
                Node::Edit(b) => match merge_edits(a, b) {
                    Some(e) => init.push(Node::Edit(e)),
                    None => init,
                },
                _ => acc.push(x),
            },
            Node::Move(a) => match x {
                Node::Move(b) => match merge_moves(a, b) {
                    Some(m) => init.push(Node::Move(m)),
                    None => init,
                },
                _ => acc.push(x),
            },
            _ => acc.push(x),
        }
    }
}

/// A loop with an optimised body; a body that only decrements by one clears.
pub open spec fn close_loop(body: Seq<Node>) -> Node {
    if body == seq![Node::Edit(Edit::Decrement(1))] {
        Node::Clear
    } else {
        Node::Loop(body)
    }
}

/// The first pass: loop bodies are optimised first, then adjacent edits and
/// adjacent moves are merged, left to right.
pub open spec fn first_pass(prog: Seq<Node>) -> Seq<Node>
    decreases prog,
{
    if prog.len() == 0 {
        Seq::empty()
    } else {
        let acc = first_pass(prog.subrange(0, prog.len() - 1));
        match prog[prog.len() - 1] {
            Node::Loop(body) => acc.push(close_loop(second_pass(first_pass(body)))),
            x => fuse(acc, x),
        }
    }
}

/// The second move undoes the first.
pub open spec fn reverses(a: Move, b: Move) -> bool {
    match a {
        Move::Right(x) => b == Move::Left(x),
        Move::Left(x) => b == Move::Right(x),
    }
}

/// Appends `x` to the output of the second pass: a move followed by an edit
/// becomes a move-edit, and a move-edit followed by the move back becomes an
/// edit of the other cell.
pub open spec fn pair(acc: Seq<Node>, x: Node) -> Seq<Node> {
    if acc.len() == 0 {
        acc.push(x)
    } else {
        let init = acc.drop_last();
        match acc.last() {
            Node::Move(m) => match x {
                Node::Edit(e) => init.push(Node::MoveEdit(m, e)),
                _ => acc.push(x),
            },
            Node::MoveEdit(m, e) => match x {
                Node::Move(b) => if reverses(m, b) {
                    init.push(Node::EditOther(m, e))
                } else {
                    acc.push(x)
                },
                _ => acc.push(x),
            },
            _ => acc.push(x),
        }
    }
}

/// The second pass, left to right over one list of siblings.
pub open spec fn second_pass(prog: Seq<Node>) -> Seq<Node>
    decreases prog.len(),
{
    if prog.len() == 0 {
        Seq::empty()
    } else {
        pair(second_pass(prog.drop_last()), prog.last())
    }
}

/// Neither pass would rewrite `a` followed by `b`.
pub open spec fn stable_pair(a: Node, b: Node) -> bool {
    &&& !(a is Edit && b is Edit)
    &&& !(a is Move && b is Move)
    &&& !(a is Move && b is Edit)
    &&& !(a matches Node::MoveEdit(m, _) && b matches Node::Move(n) && reverses(m, n))
}

/// A loop whose body is already optimised and is no clearing idiom.
pub open spec fn stable_loop(x: Node) -> bool {
    x matches Node::Loop(body) ==> optimised(body) == body && body != seq![
        Node::Edit(Edit::Decrement(1)),
    ]
}

/// A program that the optimiser leaves as it is.
pub open spec fn settled(q: Seq<Node>) -> bool {
    &&& forall|i: int| 0 <= i < q.len() - 1 ==> #[trigger] stable_pair(q[i], q[i + 1])
    &&& forall|i: int| 0 <= i < q.len() ==> #[trigger] stable_loop(q[i])
}

/// No two edits and no two moves stand side by side.
pub open spec fn merged(q: Seq<Node>) -> bool {
    forall|i: int|
        0 <= i < q.len() - 1 ==> !(#[trigger] q[i] is Edit && q[i + 1] is Edit) && !(q[i] is Move
            && q[i + 1] is Move)
}

/// What the optimiser makes of a program.
pub open spec fn optimised(prog: Seq<Node>) -> Seq<Node> {
    second_pass(first_pass(prog))
}


/// A parsed program has a unit count per token, so its counts add up to at
/// most the number of its tokens.
pub proof fn lemma_plain_counts(prog: Seq<Node>)
    requires
        plain(prog),
    ensures
        edit_total(prog) + move_total(prog) <= unparse(prog).len(),
        edit_total(prog) >= 0,
        move_total(prog) >= 0,
    decreases prog,
{
    if prog.len() > 0 {
        let d = prog.subrange(0, prog.len() - 1);
        let x = prog[prog.len() - 1];
        lemma_plain_counts(d);
        assert(edit_total(prog) == edit_total(d) + node_edits(x));
        assert(move_total(prog) == move_total(d) + node_moves(x));
        match x {
            Node::Loop(body) => {
                lemma_plain_counts(body);
                assert(node_edits(x) == edit_total(body));
                assert(node_moves(x) == move_total(body));
            },
            Node::Edit(e) => {
                assert(node_edits(x) == edit_count(e));
                assert(node_moves(x) == 0);
            },
            Node::Move(m) => {
                assert(node_edits(x) == 0);
                assert(node_moves(x) == move_count(m));
            },
            _ => {
                assert(node_edits(x) == 0);
                assert(node_moves(x) == 0);
            },
        }
    }
}

proof fn lemma_totals_nonneg(prog: Seq<Node>)
    ensures
        edit_total(prog) >= 0,
        move_total(prog) >= 0,
    decreases prog,
{
    if prog.len() > 0 {
        lemma_totals_nonneg(prog.subrange(0, prog.len() - 1));
        lemma_node_totals_nonneg(prog[prog.len() - 1]);
    }
}

proof fn lemma_node_totals_nonneg(x: Node)
    ensures
        node_edits(x) >= 0,
        node_moves(x) >= 0,
    decreases x,
{
    if let Node::Loop(body) = x {
        lemma_totals_nonneg(body);
    }
}

proof fn lemma_totals_push(prog: Seq<Node>, x: Node)
    ensures
        edit_total(prog.push(x)) == edit_total(prog) + node_edits(x),
        move_total(prog.push(x)) == move_total(prog) + node_moves(x),
{
    assert(prog.push(x).subrange(0, prog.len() as int) =~= prog);
}

pub(crate) proof fn lemma_totals_last(prog: Seq<Node>)
    requires
        prog.len() > 0,
    ensures
        edit_total(prog) == edit_total(prog.drop_last()) + node_edits(prog.last()),
        move_total(prog) == move_total(prog.drop_last()) + node_moves(prog.last()),
        edit_total(prog.drop_last()) >= 0,
        move_total(prog.drop_last()) >= 0,
        node_edits(prog.last()) >= 0,
        node_moves(prog.last()) >= 0,
{
    assert(prog.drop_last() =~= prog.subrange(0, prog.len() - 1));
    lemma_totals_nonneg(prog.drop_last());
    lemma_node_totals_nonneg(prog.last());
}

proof fn lemma_totals_prefix(prog: Seq<Node>, k: int)
    requires
        0 <= k <= prog.len(),
    ensures
        edit_total(prog.take(k)) <= edit_total(prog),
        move_total(prog.take(k)) <= move_total(prog),
    decreases prog.len(),
{
    if k < prog.len() {
        lemma_totals_last(prog);
        assert(prog.drop_last().take(k) =~= prog.take(k));
        lemma_totals_prefix(prog.drop_last(), k);
    } else {
        assert(prog.take(k) =~= prog);
    }
}

/// Stepping a prefix of the input on by one instruction.
proof fn lemma_prefix_step(input: Seq<Instruction>, k: int)
    requires
        0 <= k < input.len(),
    ensures
        nodes(input.take(k + 1)) == nodes(input.take(k)).push(node(input[k])),
        nodes(input.take(k + 1)).subrange(0, k) == nodes(input.take(k)),
        nodes(input.take(k + 1)).drop_last() == nodes(input.take(k)),
        nodes(input.take(k + 1)).len() == k + 1,
        nodes(input.take(k + 1))[k] == node(input[k]),
{
    assert(input.take(k).push(input[k]) =~= input.take(k + 1));
    lemma_nodes_push(input.take(k), input[k]);
    lemma_nodes_index(input.take(k));
    let a = nodes(input.take(k));
    assert(a.push(node(input[k])).subrange(0, k) =~= a);
    assert(a.push(node(input[k])).drop_last() =~= a);
}

fn merge_edit(a: Edit, b: Edit) -> (r: Option<Edit>)
    requires
        edit_count(a) + edit_count(b) <= u32::MAX,
    ensures
        r == merge_edits(a, b),
        match r {
            Some(e) => edit_count(e) <= edit_count(a) + edit_count(b),
            None => true,
        },
{
    match a {
        Edit::Increment(x) => match b {
            Edit::Increment(y) => Some(Edit::Increment(x + y)),
            Edit::Decrement(y) => if x > y {
                Some(Edit::Increment(x - y))
            } else if x < y {
                Some(Edit::Decrement(y - x))
            } else {
                None
            },
        },
        Edit::Decrement(x) => match b {
            Edit::Decrement(y) => Some(Edit::Decrement(x + y)),
            Edit::Increment(y) => if y > x {
                Some(Edit::Increment(y - x))
            } else if y < x {
                Some(Edit::Decrement(x - y))
            } else {
                None
            },
        },
    }
}

fn merge_move(a: Move, b: Move) -> (r: Option<Move>)
    requires
        move_count(a) + move_count(b) <= usize::MAX,
    ensures
        r == merge_moves(a, b),
        match r {
            Some(m) => move_count(m) <= move_count(a) + move_count(b),
            None => true,
        },
{
    match a {
        Move::Right(x) => match b {
            Move::Right(y) => Some(Move::Right(x + y)),
            Move::Left(y) => if x > y {
                Some(Move::Right(x - y))
            } else if x < y {
                Some(Move::Left(y - x))
            } else {
                None
            },
        },
        Move::Left(x) => match b {
            Move::Left(y) => Some(Move::Left(x + y)),
            Move::Right(y) => if y > x {
                Some(Move::Right(y - x))
            } else if y < x {
                Some(Move::Left(x - y))
            } else {
                None
            },
        },
    }
}

/// Appends `x` to first-pass output, merging it into the last instruction.
#[verifier::rlimit(80)]
fn push_fused(acc: &mut Vec<Instruction>, x: Instruction)
    requires
        edit_total(nodes(old(acc)@)) + node_edits(node(x)) <= u32::MAX,
        move_total(nodes(old(acc)@)) + node_moves(node(x)) <= usize::MAX,
    ensures
        nodes(final(acc)@) == fuse(nodes(old(acc)@), node(x)),
        edit_total(nodes(final(acc)@)) <= edit_total(nodes(old(acc)@)) + node_edits(node(x)),
        move_total(nodes(final(acc)@)) <= move_total(nodes(old(acc)@)) + node_moves(node(x)),
{
    let ghost a0 = nodes(acc@);
    let ghost v0 = acc@;
    proof {
        lemma_node_totals_nonneg(node(x));
        lemma_nodes_push(acc@, x);
        lemma_totals_push(a0, node(x));
    }
    if acc.len() == 0 {
        acc.push(x);
        return;
    }
    let prev = acc.pop().unwrap();
    proof {
        lemma_nodes_drop_last(v0);
        lemma_totals_last(a0);
        assert(acc@ == v0.drop_last());
        lemma_nodes_push(acc@, prev);
        assert(acc@.push(prev) =~= v0);
    }
    match prev {
        Instruction::Edit(a) => match x {
            Instruction::Edit(b) => {
                if let Some(e) = merge_edit(a, b) {
                    proof {
                        lemma_nodes_push(acc@, Instruction::Edit(e));
                        lemma_totals_push(nodes(acc@), Node::Edit(e));
                    }
                    acc.push(Instruction::Edit(e));
                }
            },
            other => {
                acc.push(Instruction::Edit(a));
                proof {
                    lemma_nodes_push(acc@, other);
                }
                acc.push(other);
            },
        },
        Instruction::Move(a) => match x {
            Instruction::Move(b) => {
                if let Some(m) = merge_move(a, b) {
                    proof {
                        lemma_nodes_push(acc@, Instruction::Move(m));
                        lemma_totals_push(nodes(acc@), Node::Move(m));
                    }
                    acc.push(Instruction::Move(m));
                }
            },
            other => {
                acc.push(Instruction::Move(a));
                proof {
                    lemma_nodes_push(acc@, other);
                }
                acc.push(other);
            },
        },
        other_prev => {
            acc.push(other_prev);
            proof {
                assert(acc@ =~= v0);
                lemma_nodes_push(acc@, x);
            }
            acc.push(x);
        },
    }
}

fn is_single_decrement(v: &Vec<Instruction>) -> (r: bool)
    ensures
        r == (nodes(v@) == seq![Node::Edit(Edit::Decrement(1))]),
{
    proof {
        lemma_nodes_index(v@);
    }
    if v.len() != 1 {
        return false;
    }
    let r = match &v[0] {
        Instruction::Edit(Edit::Decrement(n)) => *n == 1,
        _ => false,
    };
    proof {
        if r {
            assert(nodes(v@) =~= seq![Node::Edit(Edit::Decrement(1))]);
        } else {
            assert(nodes(v@)[0] != Node::Edit(Edit::Decrement(1)));
        }
    }
    r
}

/// The first pass over one list of siblings; loop bodies are optimised whole.
#[verifier::rlimit(80)]
fn optimise_first(instructions: Vec<Instruction>) -> (r: Vec<Instruction>)
    requires
        counts_fit(nodes(instructions@)),
    ensures
        nodes(r@) == first_pass(nodes(instructions@)),
        edit_total(nodes(r@)) <= edit_total(nodes(instructions@)),
        move_total(nodes(r@)) <= move_total(nodes(instructions@)),
    decreases instructions@,
{
    let ghost input = instructions@;
    let mut optimised: Vec<Instruction> = Vec::new();
    proof {
        assert(input.take(0) =~= Seq::<Instruction>::empty());
    }
    for x in it: instructions
        invariant
            it.seq() == input,
            counts_fit(nodes(input)),
            nodes(optimised@) == first_pass(nodes(input.take(it.index() as int))),
            edit_total(nodes(optimised@)) <= edit_total(nodes(input.take(it.index() as int))),
            move_total(nodes(optimised@)) <= move_total(nodes(input.take(it.index() as int))),
    {
        let ghost k = it.index() as int;
        let ghost before = nodes(input.take(k));
        let ghost after = nodes(input.take(k + 1));
        proof {
            lemma_prefix_step(input, k);
            lemma_totals_push(before, node(x));
            lemma_nodes_index(input);
            lemma_totals_prefix(nodes(input), k + 1);
            lemma_totals_nonneg(before);
            lemma_node_totals_nonneg(node(x));
            assert(nodes(input).take(k + 1) =~= after) by {
                lemma_nodes_index(input.take(k + 1));
            }
        }
        match x {
            Instruction::Loop(body) => {
                proof {
                    assert(decreases_to!(input => input[k]));
                    assert(decreases_to!(input[k] => body));
                    assert(decreases_to!(body => body@));
                }
                let inner = optimise_second(optimise_first(body));
                let y = if is_single_decrement(&inner) {
                    Instruction::Clear
                } else {
                    Instruction::Loop(inner)
                };
                proof {
                    lemma_nodes_push(optimised@, y);
                    lemma_totals_push(nodes(optimised@), node(y));
                    lemma_totals_nonneg(nodes(inner@));
                }
                optimised.push(y);
            },
            other => {
                push_fused(&mut optimised, other);
            },
        }
    }
    proof {
        assert(input.take(input.len() as int) =~= input);
    }
    optimised
}

/// Appends `x` to second-pass output, pairing it with the last instruction.
#[verifier::rlimit(80)]
fn push_paired(acc: &mut Vec<Instruction>, x: Instruction)
    ensures
        nodes(final(acc)@) == pair(nodes(old(acc)@), node(x)),
        edit_total(nodes(final(acc)@)) <= edit_total(nodes(old(acc)@)) + node_edits(node(x)),
        move_total(nodes(final(acc)@)) <= move_total(nodes(old(acc)@)) + node_moves(node(x)),
{
    let ghost a0 = nodes(acc@);
    let ghost v0 = acc@;
    proof {
        lemma_node_totals_nonneg(node(x));
        lemma_nodes_push(acc@, x);
        lemma_totals_push(a0, node(x));
    }
    if acc.len() == 0 {
        acc.push(x);
        return;
    }
    let prev = acc.pop().unwrap();
    proof {
        lemma_nodes_drop_last(v0);
        lemma_totals_last(a0);
        assert(acc@ == v0.drop_last());
        lemma_nodes_push(acc@, prev);
        assert(acc@.push(prev) =~= v0);
    }
    match prev {
        Instruction::Move(m) => match x {
            Instruction::Edit(e) => {
                proof {
                    lemma_nodes_push(acc@, Instruction::MoveEdit(m, e));
                    lemma_totals_push(nodes(acc@), Node::MoveEdit(m, e));
                }
                acc.push(Instruction::MoveEdit(m, e));
            },
            other => {
                acc.push(Instruction::Move(m));
                proof {
                    lemma_nodes_push(acc@, other);
                }
                acc.push(other);
            },
        },
        Instruction::MoveEdit(m, e) => match x {
            Instruction::Move(b) => {
                let back = match m {
                    Move::Right(n) => b == Move::Left(n),
                    Move::Left(n) => b == Move::Right(n),
                };
                if back {
                    proof {
                        lemma_nodes_push(acc@, Instruction::EditOther(m, e));
                        lemma_totals_push(nodes(acc@), Node::EditOther(m, e));
                    }
                    acc.push(Instruction::EditOther(m, e));
                } else {
                    acc.push(Instruction::MoveEdit(m, e));
                    proof {
                        lemma_nodes_push(acc@, Instruction::Move(b));
                    }
                    acc.push(Instruction::Move(b));
                }
            },
            other => {
                acc.push(Instruction::MoveEdit(m, e));
                proof {
                    lemma_nodes_push(acc@, other);
                }
                acc.push(other);
            },
        },
        other_prev => {
            acc.push(other_prev);
            proof {
                assert(acc@ =~= v0);
                lemma_nodes_push(acc@, x);
            }
            acc.push(x);
        },
    }
}

/// The second pass over one list of siblings.
fn optimise_second(instructions: Vec<Instruction>) -> (r: Vec<Instruction>)
    ensures
        nodes(r@) == second_pass(nodes(instructions@)),
        edit_total(nodes(r@)) <= edit_total(nodes(instructions@)),
        move_total(nodes(r@)) <= move_total(nodes(instructions@)),
{
    let ghost input = instructions@;
    let mut optimised: Vec<Instruction> = Vec::new();
    proof {
        assert(input.take(0) =~= Seq::<Instruction>::empty());
    }
    for x in it: instructions
        invariant
            it.seq() == input,
            nodes(optimised@) == second_pass(nodes(input.take(it.index() as int))),
            edit_total(nodes(optimised@)) <= edit_total(nodes(input.take(it.index() as int))),
            move_total(nodes(optimised@)) <= move_total(nodes(input.take(it.index() as int))),
    {
        let ghost k = it.index() as int;
        proof {
            lemma_prefix_step(input, k);
            lemma_totals_push(nodes(input.take(k)), node(x));
        }
        push_paired(&mut optimised, x);
    }
    proof {
        assert(input.take(input.len() as int) =~= input);
    }
    optimised
}

/// Rewrites a program into an equivalent one with fewer, larger steps.
pub fn optimise(instructions: Vec<Instruction>) -> (r: Vec<Instruction>)
    requires
        counts_fit(nodes(instructions@)),
    ensures
        nodes(r@) == optimised(nodes(instructions@)),
        counts_fit(nodes(r@)),
{
    optimise_second(optimise_first(instructions))
}


proof fn lemma_settled_prefix(q: Seq<Node>)
    requires
        settled(q),
        q.len() > 0,
    ensures
        settled(q.drop_last()),
{
    let d = q.drop_last();
    assert forall|i: int| 0 <= i < d.len() - 1 implies #[trigger] stable_pair(d[i], d[i + 1]) by {
        assert(stable_pair(q[i], q[i + 1]));
    }
    assert forall|i: int| 0 <= i < d.len() implies #[trigger] stable_loop(d[i]) by {
        assert(stable_loop(q[i]));
    }
}

proof fn lemma_first_pass_settled(q: Seq<Node>)
    requires
        settled(q),
    ensures
        first_pass(q) == q,
    decreases q.len(),
{
    if q.len() > 0 {
        let d = q.drop_last();
        assert(q.subrange(0, q.len() - 1) =~= d);
        lemma_settled_prefix(q);
        lemma_first_pass_settled(d);
        let x = q[q.len() - 1];
        assert(stable_loop(q[q.len() - 1]));
        assert(d.push(x) =~= q);
        if d.len() > 0 {
            let i = q.len() - 2;
            assert(stable_pair(q[i], q[i + 1]));
        }
    }
}

proof fn lemma_second_pass_settled(q: Seq<Node>)
    requires
        settled(q),
    ensures
        second_pass(q) == q,
    decreases q.len(),
{
    if q.len() > 0 {
        let d = q.drop_last();
        lemma_settled_prefix(q);
        lemma_second_pass_settled(d);
        assert(d.push(q.last()) =~= q);
        if d.len() > 0 {
            let i = q.len() - 2;
            assert(stable_pair(q[i], q[i + 1]));
        }
    }
}

#[verifier::rlimit(80)]
proof fn lemma_first_pass_merged(p: Seq<Node>)
    ensures
        merged(first_pass(p)),
        forall|i: int| 0 <= i < first_pass(p).len() ==> #[trigger] stable_loop(first_pass(p)[i]),
    decreases p, 0int,
{
    if p.len() > 0 {
        let d = p.subrange(0, p.len() - 1);
        lemma_first_pass_merged(d);
        let acc = first_pass(d);
        let f = first_pass(p);
        match p[p.len() - 1] {
            Node::Loop(body) => {
                lemma_optimised_settled(body);
                let b = optimised(body);
                lemma_first_pass_settled(b);
                lemma_second_pass_settled(b);
                assert(f == acc.push(close_loop(b)));
                assert forall|i: int| 0 <= i < f.len() implies #[trigger] stable_loop(f[i]) by {
                    if i < acc.len() {
                        assert(f[i] == acc[i]);
                    }
                }
                assert forall|i: int| 0 <= i < f.len() - 1 implies !(#[trigger] f[i] is Edit
                    && f[i + 1] is Edit) && !(f[i] is Move && f[i + 1] is Move) by {
                    assert(f[i] == acc[i]);
                    if i + 1 < acc.len() {
                        assert(f[i + 1] == acc[i + 1]);
                    }
                }
            },
            x => {
                assert(f == fuse(acc, x));
                if acc.len() > 0 {
                    let init = acc.drop_last();
                    assert forall|i: int| 0 <= i < init.len() implies #[trigger] stable_loop(init[i]) by {
                        assert(init[i] == acc[i]);
                    }
                    assert forall|i: int| 0 <= i < init.len() - 1 implies !(#[trigger] init[i] is Edit
                        && init[i + 1] is Edit) && !(init[i] is Move && init[i + 1] is Move) by {
                        assert(init[i] == acc[i]);
                        assert(init[i + 1] == acc[i + 1]);
                    }
                    if init.len() > 0 {
                        assert(acc[acc.len() - 2] == init.last());
                        assert(!(acc[acc.len() - 2] is Edit && acc[acc.len() - 1] is Edit));
                        assert(!(acc[acc.len() - 2] is Move && acc[acc.len() - 1] is Move));
                    }
                }
                assert forall|i: int| 0 <= i < f.len() implies #[trigger] stable_loop(f[i]) by {
                    if acc.len() > 0 && i < acc.len() - 1 {
                        assert(f[i] == acc[i]);
                    } else if i < acc.len() {
                        assert(f[i] == acc[i] || f[i] is Edit || f[i] is Move);
                    }
                }
                assert forall|i: int| 0 <= i < f.len() - 1 implies !(#[trigger] f[i] is Edit
                    && f[i + 1] is Edit) && !(f[i] is Move && f[i + 1] is Move) by {
                    if i + 1 < acc.len() - 1 {
                        assert(f[i] == acc[i]);
                        assert(f[i + 1] == acc[i + 1]);
                    } else if i + 1 < acc.len() {
                        assert(f[i] == acc[i]);
                        assert(acc.len() >= 2);
                        assert(!(acc[i] is Edit && acc[i + 1] is Edit));
                        assert(!(acc[i] is Move && acc[i + 1] is Move));
                    } else {
                        assert(f[i] == acc[i]);
                    }
                }
            },
        }
    }
}

#[verifier::rlimit(80)]
proof fn lemma_second_pass_shape(q: Seq<Node>)
    requires
        merged(q),
        forall|i: int| 0 <= i < q.len() ==> #[trigger] stable_loop(q[i]),
    ensures
        settled(second_pass(q)),
        q.len() > 0 ==> second_pass(q).len() > 0,
        second_pass(q).len() > 0 && (second_pass(q).last() is Edit || second_pass(q).last() is Move)
            ==> q.len() > 0 && second_pass(q).last() == q.last(),
    decreases q.len(),
{
    if q.len() > 0 {
        let d = q.drop_last();
        assert forall|i: int| 0 <= i < d.len() - 1 implies !(#[trigger] d[i] is Edit
            && d[i + 1] is Edit) && !(d[i] is Move && d[i + 1] is Move) by {
            assert(d[i] == q[i]);
            assert(d[i + 1] == q[i + 1]);
        }
        assert forall|i: int| 0 <= i < d.len() implies #[trigger] stable_loop(d[i]) by {
            assert(stable_loop(q[i]));
        }
        lemma_second_pass_shape(d);
        let acc = second_pass(d);
        let x = q.last();
        let r = second_pass(q);
        assert(r == pair(acc, x));
        assert(stable_loop(q[q.len() - 1]));
        if acc.len() > 0 {
            let init = acc.drop_last();
            assert forall|i: int| 0 <= i < init.len() - 1 implies #[trigger] stable_pair(init[i], init[i + 1]) by {
                assert(stable_pair(acc[i], acc[i + 1]));
            }
            assert forall|i: int| 0 <= i < init.len() implies #[trigger] stable_loop(init[i]) by {
                assert(stable_loop(acc[i]));
            }
            if acc.last() is Edit || acc.last() is Move {
                assert(d.len() > 0);
                assert(d.last() == q[q.len() - 2]);
                assert(!(q[q.len() - 2] is Edit && q[q.len() - 1] is Edit));
                assert(!(q[q.len() - 2] is Move && q[q.len() - 1] is Move));
            }
        }
        assert forall|i: int| 0 <= i < r.len() implies #[trigger] stable_loop(r[i]) by {
            if i < acc.len() - 1 {
                assert(r[i] == acc[i]);
                assert(stable_loop(acc[i]));
            } else if i < acc.len() {
                assert(stable_loop(acc[i]));
            }
        }
        assert forall|i: int| 0 <= i < r.len() - 1 implies #[trigger] stable_pair(r[i], r[i + 1]) by {
            if i + 1 < acc.len() - 1 {
                assert(r[i] == acc[i]);
                assert(r[i + 1] == acc[i + 1]);
                assert(stable_pair(acc[i], acc[i + 1]));
            } else if i + 1 < acc.len() {
                assert(r[i] == acc[i]);
                assert(stable_pair(acc[i], acc[i + 1]));
            } else {
                assert(r[i] == acc[i]);
            }
        }
    }
}

proof fn lemma_optimised_settled(p: Seq<Node>)
    ensures
        settled(optimised(p)),
    decreases p, 1int,
{
    lemma_first_pass_merged(p);
    lemma_second_pass_shape(first_pass(p));
}

proof fn lemma_fuse_totals(acc: Seq<Node>, x: Node)
    requires
        edit_total(acc) + node_edits(x) <= u32::MAX,
        move_total(acc) + node_moves(x) <= usize::MAX,
    ensures
        edit_total(fuse(acc, x)) <= edit_total(acc) + node_edits(x),
        move_total(fuse(acc, x)) <= move_total(acc) + node_moves(x),
{
    lemma_totals_push(acc, x);
    lemma_node_totals_nonneg(x);
    if acc.len() > 0 {
        let init = acc.drop_last();
        lemma_totals_last(acc);
        match acc.last() {
            Node::Edit(a) => {
                if let Node::Edit(b) = x {
                    if let Some(e) = merge_edits(a, b) {
                        lemma_totals_push(init, Node::Edit(e));
                    }
                }
            },
            Node::Move(a) => {
                if let Node::Move(b) = x {
                    if let Some(m) = merge_moves(a, b) {
                        lemma_totals_push(init, Node::Move(m));
                    }
                }
            },
            _ => {},
        }
    }
}

proof fn lemma_pair_totals(acc: Seq<Node>, x: Node)
    ensures
        edit_total(pair(acc, x)) <= edit_total(acc) + node_edits(x),
        move_total(pair(acc, x)) <= move_total(acc) + node_moves(x),
{
    lemma_totals_push(acc, x);
    lemma_node_totals_nonneg(x);
    if acc.len() > 0 {
        let init = acc.drop_last();
        lemma_totals_last(acc);
        match acc.last() {
            Node::Move(m) => {
                if let Node::Edit(e) = x {
                    lemma_totals_push(init, Node::MoveEdit(m, e));
                }
            },
            Node::MoveEdit(m, e) => {
                if let Node::Move(b) = x {
                    lemma_totals_push(init, Node::EditOther(m, e));
                }
            },
            _ => {},
        }
    }
}

pub(crate) proof fn lemma_second_pass_totals(q: Seq<Node>)
    ensures
        edit_total(second_pass(q)) <= edit_total(q),
        move_total(second_pass(q)) <= move_total(q),
    decreases q.len(),
{
    if q.len() > 0 {
        lemma_second_pass_totals(q.drop_last());
        lemma_pair_totals(second_pass(q.drop_last()), q.last());
        lemma_totals_last(q);
    }
}

pub(crate) proof fn lemma_first_pass_totals(p: Seq<Node>)
    requires
        counts_fit(p),
    ensures
        edit_total(first_pass(p)) <= edit_total(p),
        move_total(first_pass(p)) <= move_total(p),
    decreases p, 1int,
{
    if p.len() > 0 {
        let d = p.subrange(0, p.len() - 1);
        let x = p[p.len() - 1];
        lemma_totals_last(p);
        assert(p.drop_last() == d);
        lemma_first_pass_totals(d);
        let acc = first_pass(d);
        match x {
            Node::Loop(body) => {
                assert(node_edits(x) == edit_total(body));
                assert(node_moves(x) == move_total(body));
                lemma_optimised_totals(body);
                let ob = second_pass(first_pass(body));
                lemma_totals_push(acc, close_loop(ob));
                lemma_totals_nonneg(ob);
            },
            _ => {
                lemma_fuse_totals(acc, x);
            },
        }
    }
}

pub(crate) proof fn lemma_optimised_totals(p: Seq<Node>)
    requires
        counts_fit(p),
    ensures
        edit_total(optimised(p)) <= edit_total(p),
        move_total(optimised(p)) <= move_total(p),
    decreases p, 2int,
{
    lemma_first_pass_totals(p);
    lemma_second_pass_totals(first_pass(p));
}

/// The optimiser reaches a fixed point in one application: optimising its
/// output again changes nothing.
pub proof fn lemma_optimise_idempotent(p: Seq<Node>)
    ensures
        optimised(optimised(p)) == optimised(p),
{
    let q = optimised(p);
    lemma_optimised_settled(p);
    lemma_first_pass_settled(q);
    lemma_second_pass_settled(q);
}

} // verus!
