//! The instruction tree, its mathematical value, and parsing with loop
//! brackets matched by nesting depth.
use vstd::prelude::*;
use crate::error::Error;
use crate::token::Token;
use crate::optimise::{edit_total, lemma_plain_counts, move_total};

verus! {

/// A change of the current cell's value by a count.
#[derive(Clone, Copy, Debug, PartialEq, Eq, Structural)]
pub enum Edit {
    Increment(u32),
    Decrement(u32),
}

/// A change of the pointer by a count.
#[derive(Clone, Copy, Debug, PartialEq, Eq, Structural)]
pub enum Move {
    Right(usize),
    Left(usize),
}

/// One node of a program tree.
#[derive(Debug, PartialEq, Eq)]
pub enum Instruction {
    /// Runs the body while the current cell is not zero.
    Loop(Vec<Instruction>),
    /// Moves, then edits the cell moved to.
    MoveEdit(Move, Edit),
    /// Edits the cell that the move reaches; the pointer stays.
    EditOther(Move, Edit),
    Edit(Edit),
    Move(Move),
    /// Sets the current cell to zero.
    Clear,
    Write,
    Read,
    Fork,
}

/// The mathematical value of an instruction: the tree with its loop
/// bodies as sequences.
pub enum Node {
    Loop(Seq<Node>),
    MoveEdit(Move, Edit),
    EditOther(Move, Edit),
    Edit(Edit),
    Move(Move),
    Clear,
    Write,
    Read,
    Fork,
}

/// The value of one instruction.
pub open spec fn node(x: Instruction) -> Node
    decreases x,
{
    match x {
        Instruction::Loop(body) => Node::Loop(nodes(body@)),
        Instruction::MoveEdit(m, e) => Node::MoveEdit(m, e),
        Instruction::EditOther(m, e) => Node::EditOther(m, e),
        Instruction::Edit(e) => Node::Edit(e),
        Instruction::Move(m) => Node::Move(m),
        Instruction::Clear => Node::Clear,
        Instruction::Write => Node::Write,
        Instruction::Read => Node::Read,
        Instruction::Fork => Node::Fork,
    }
}

/// The value of a sequence of instructions.
pub open spec fn nodes(prog: Seq<Instruction>) -> Seq<Node>
    decreases prog,
{
    if prog.len() == 0 {
        Seq::empty()
    } else {
        nodes(prog.subrange(0, prog.len() - 1)).push(node(prog[prog.len() - 1]))
    }
}

/// The instructions that parsing produces: one per token, with unit counts.
pub open spec fn plain(prog: Seq<Node>) -> bool
    decreases prog,
{
    if prog.len() == 0 {
        true
    } else {
        &&& plain(prog.subrange(0, prog.len() - 1))
        &&& match prog[prog.len() - 1] {
            Node::Loop(body) => plain(body),
            Node::Edit(Edit::Increment(n)) => n == 1,
            Node::Edit(Edit::Decrement(n)) => n == 1,
            Node::Move(Move::Right(n)) => n == 1,
            Node::Move(Move::Left(n)) => n == 1,
            Node::Write | Node::Read | Node::Fork => true,
            _ => false,
        }
    }
}

/// The token sequence that a plain program was parsed from.
pub open spec fn unparse(prog: Seq<Node>) -> Seq<Token>
    decreases prog,
{
    if prog.len() == 0 {
        Seq::empty()
    } else {
        unparse(prog.subrange(0, prog.len() - 1)) + match prog[prog.len() - 1] {
            Node::Loop(body) => seq![Token::EnterLoop] + unparse(body) + seq![Token::ExitLoop],
            Node::Edit(Edit::Increment(_)) => seq![Token::Increment],
            Node::Edit(Edit::Decrement(_)) => seq![Token::Decrement],
            Node::Move(Move::Right(_)) => seq![Token::MoveRight],
            Node::Move(Move::Left(_)) => seq![Token::MoveLeft],
            Node::Write => seq![Token::Write],
            Node::Read => seq![Token::Read],
            Node::Fork => seq![Token::Fork],
            _ => Seq::empty(),
        }
    }
}

/// How a token changes the loop nesting depth.
pub open spec fn nesting_step(t: Token) -> int {
    match t {
        Token::EnterLoop => 1,
        Token::ExitLoop => -1,
        _ => 0,
    }
}

/// The change of nesting depth over the tokens in `[a, b)`.
pub open spec fn depth_change(t: Seq<Token>, a: int, b: int) -> int
    decreases b - a,
{
    if b <= a {
        0
    } else {
        depth_change(t, a, b - 1) + nesting_step(t[b - 1])
    }
}

/// No prefix of the tokens in `[a, b)` closes more loops than it opens.
pub open spec fn never_below(t: Seq<Token>, a: int, b: int) -> bool {
    forall|m: int| a <= m <= b ==> #[trigger] depth_change(t, a, m) >= 0
}

/// The tokens in `[a, b)` close exactly the loops that they open.
pub open spec fn balanced(t: Seq<Token>, a: int, b: int) -> bool {
    never_below(t, a, b) && depth_change(t, a, b) == 0
}

/// Every loop of the token sequence is closed, and every close has its open.
pub open spec fn well_bracketed(t: Seq<Token>) -> bool {
    balanced(t, 0, t.len() as int)
}

/// The token at `k` closes a loop that was never opened, and it is the first
/// such token.
pub open spec fn unmatched_close_at(t: Seq<Token>, k: int) -> bool {
    0 <= k < t.len() && t[k] == Token::ExitLoop && balanced(t, 0, k)
}

/// No close lacks its open, and `p` is where the body of the innermost
/// unterminated loop begins: right after its open token.
pub open spec fn unmatched_open_from(t: Seq<Token>, p: int) -> bool {
    &&& never_below(t, 0, t.len() as int)
    &&& 0 < p <= t.len()
    &&& t[p - 1] == Token::EnterLoop
    &&& balanced(t, p, t.len() as int)
}

proof fn lemma_depth_split(t: Seq<Token>, a: int, b: int, c: int)
    requires
        a <= b <= c,
    ensures
        depth_change(t, a, c) == depth_change(t, a, b) + depth_change(t, b, c),
    decreases c - b,
{
    if c > b {
        lemma_depth_split(t, a, b, c - 1);
    }
}

proof fn lemma_depth_one(t: Seq<Token>, a: int)
    ensures
        depth_change(t, a, a + 1) == nesting_step(t[a]),
{
    assert(depth_change(t, a, a) == 0);
}

proof fn lemma_single(x: Node)
    ensures
        plain(seq![x]) == match x {
            Node::Loop(body) => plain(body),
            Node::Edit(Edit::Increment(n)) => n == 1,
            Node::Edit(Edit::Decrement(n)) => n == 1,
            Node::Move(Move::Right(n)) => n == 1,
            Node::Move(Move::Left(n)) => n == 1,
            Node::Write | Node::Read | Node::Fork => true,
            _ => false,
        },
        unparse(seq![x]) == match x {
            Node::Loop(body) => seq![Token::EnterLoop] + unparse(body) + seq![Token::ExitLoop],
            Node::Edit(Edit::Increment(_)) => seq![Token::Increment],
            Node::Edit(Edit::Decrement(_)) => seq![Token::Decrement],
            Node::Move(Move::Right(_)) => seq![Token::MoveRight],
            Node::Move(Move::Left(_)) => seq![Token::MoveLeft],
            Node::Write => seq![Token::Write],
            Node::Read => seq![Token::Read],
            Node::Fork => seq![Token::Fork],
            _ => Seq::<Token>::empty(),
        },
{
    assert(seq![x].subrange(0, 0) =~= Seq::<Node>::empty());
    assert(plain(Seq::<Node>::empty()));
    assert(unparse(Seq::<Node>::empty()) =~= Seq::<Token>::empty());
}

/// The value of a sequence holds the value of each instruction in place.
pub proof fn lemma_nodes_index(prog: Seq<Instruction>)
    ensures
        nodes(prog).len() == prog.len(),
        forall|i: int| 0 <= i < prog.len() ==> #[trigger] nodes(prog)[i] == node(prog[i]),
    decreases prog.len(),
{
    if prog.len() > 0 {
        lemma_nodes_index(prog.subrange(0, prog.len() - 1));
    }
}

/// Removing the last instruction removes its value.
pub proof fn lemma_nodes_drop_last(prog: Seq<Instruction>)
    requires
        prog.len() > 0,
    ensures
        nodes(prog.drop_last()) == nodes(prog).drop_last(),
        nodes(prog).last() == node(prog.last()),
{
    assert(prog.drop_last() =~= prog.subrange(0, prog.len() - 1));
    assert(nodes(prog).drop_last() =~= nodes(prog.subrange(0, prog.len() - 1)));
}

/// Appending an instruction appends its value.
pub proof fn lemma_nodes_push(prog: Seq<Instruction>, x: Instruction)
    ensures
        nodes(prog.push(x)) == nodes(prog).push(node(x)),
{
    assert(prog.push(x).subrange(0, prog.len() as int) =~= prog);
}

fn leaf(tok: Token) -> (r: Instruction)
    requires
        tok != Token::EnterLoop,
        tok != Token::ExitLoop,
    ensures
        plain(seq![node(r)]),
        unparse(seq![node(r)]) == seq![tok],
{
    let r = match tok {
        Token::Increment => Instruction::Edit(Edit::Increment(1)),
        Token::Decrement => Instruction::Edit(Edit::Decrement(1)),
        Token::MoveRight => Instruction::Move(Move::Right(1)),
        Token::MoveLeft => Instruction::Move(Move::Left(1)),
        Token::Write => Instruction::Write,
        Token::Read => Instruction::Read,
        _ => Instruction::Fork,
    };
    proof {
        lemma_single(node(r));
        assert(unparse(seq![node(r)]) =~= seq![tok]);
    }
    r
}

proof fn lemma_push(prog: Seq<Instruction>, x: Instruction)
    ensures
        plain(nodes(prog.push(x))) == (plain(nodes(prog)) && plain(seq![node(x)])),
        unparse(nodes(prog.push(x))) == unparse(nodes(prog)) + unparse(seq![node(x)]),
{
    lemma_nodes_push(prog, x);
    let p = nodes(prog);
    assert(p.push(node(x)).subrange(0, p.len() as int) =~= p);
    lemma_single(node(x));
}

proof fn lemma_subrange_extend<A>(t: Seq<A>, s: int, k: int)
    requires
        0 <= s <= k < t.len(),
    ensures
        t.subrange(s, k + 1) == t.subrange(s, k) + seq![t[k]],
{
    assert(t.subrange(s, k + 1) =~= t.subrange(s, k) + seq![t[k]]);
}

proof fn lemma_subrange_wrap<A>(t: Seq<A>, s: int, o: int, e: int)
    requires
        0 <= s <= o < e < t.len(),
    ensures
        t.subrange(s, e + 1) == t.subrange(s, o) + seq![t[o]] + t.subrange(o + 1, e) + seq![t[e]],
{
    assert(t.subrange(s, e + 1) =~= t.subrange(s, o) + seq![t[o]] + t.subrange(o + 1, e) + seq![t[e]]);
}

proof fn lemma_loop_closed(t: Seq<Token>, s: int, o: int, e: int)
    requires
        0 <= s <= o < e < t.len(),
        balanced(t, s, o),
        t[o] == Token::EnterLoop,
        balanced(t, o + 1, e),
        t[e] == Token::ExitLoop,
    ensures
        balanced(t, s, e + 1),
        t.subrange(s, e + 1) == t.subrange(s, o) + seq![Token::EnterLoop] + t.subrange(o + 1, e)
            + seq![Token::ExitLoop],
{
    lemma_subrange_wrap(t, s, o, e);
    lemma_depth_one(t, o);
    lemma_depth_one(t, e);
    lemma_depth_split(t, o + 1, e, e + 1);
    assert forall|m: int| s <= m <= e + 1 implies #[trigger] depth_change(t, s, m) >= 0 by {
        if m > o {
            lemma_depth_split(t, s, o, m);
            lemma_depth_split(t, o, o + 1, m);
            if m <= e {
                assert(depth_change(t, o + 1, m) >= 0);
            }
        }
    }
    lemma_depth_split(t, s, o, e + 1);
    lemma_depth_split(t, o, o + 1, e + 1);
}

proof fn lemma_loop_open(t: Seq<Token>, s: int, o: int)
    requires
        0 <= s <= o < t.len(),
        balanced(t, s, o),
        t[o] == Token::EnterLoop,
        never_below(t, o + 1, t.len() as int),
    ensures
        never_below(t, s, t.len() as int),
{
    lemma_depth_one(t, o);
    assert forall|m: int| s <= m <= t.len() implies #[trigger] depth_change(t, s, m) >= 0 by {
        if m > o {
            lemma_depth_split(t, s, o, m);
            lemma_depth_split(t, o, o + 1, m);
            assert(depth_change(t, o + 1, m) >= 0);
        }
    }
}

proof fn lemma_leaf_step(t: Seq<Token>, s: int, k: int)
    requires
        0 <= s <= k < t.len(),
        balanced(t, s, k),
        t[k] != Token::EnterLoop,
        t[k] != Token::ExitLoop,
    ensures
        balanced(t, s, k + 1),
        t.subrange(s, k + 1) == t.subrange(s, k) + seq![t[k]],
{
    lemma_subrange_extend(t, s, k);
    assert forall|m: int| s <= m <= k + 1 implies #[trigger] depth_change(t, s, m) >= 0 by {
        if m == k + 1 {
            assert(depth_change(t, s, k + 1) == depth_change(t, s, k) + nesting_step(t[k]));
        }
    }
}

/// Reads instructions from position `*i` on. In a loop body it stops at the
/// close that ends the body, leaving `*i` on it; at the top level it reads
/// to the end.
#[verifier::rlimit(80)]
fn parse_inner(tokens: &Vec<Token>, is_loop: bool, i: &mut usize) -> (r: Result<
    Vec<Instruction>,
    Error,
>)
    requires
        *old(i) <= tokens@.len(),
    ensures
        match r {
            Ok(body) => plain(nodes(body@)) && if is_loop {
                &&& *old(i) <= *final(i) < tokens@.len()
                &&& tokens@[*final(i) as int] == Token::ExitLoop
                &&& balanced(tokens@, *old(i) as int, *final(i) as int)
                &&& unparse(nodes(body@)) == tokens@.subrange(*old(i) as int, *final(i) as int)
            } else {
                &&& *final(i) == tokens@.len()
                &&& balanced(tokens@, *old(i) as int, tokens@.len() as int)
                &&& unparse(nodes(body@)) == tokens@.subrange(*old(i) as int, tokens@.len() as int)
            },
            Err(Error::UnmatchedCloseLoop(k)) => {
                &&& !is_loop
                &&& *old(i) <= k < tokens@.len()
                &&& tokens@[k as int] == Token::ExitLoop
                &&& balanced(tokens@, *old(i) as int, k as int)
            },
            Err(Error::UnmatchedOpenLoop(p)) => {
                &&& never_below(tokens@, *old(i) as int, tokens@.len() as int)
                &&& *old(i) <= p <= tokens@.len()
                &&& (p == *old(i) && is_loop || p > *old(i) && tokens@[p - 1] == Token::EnterLoop)
                &&& balanced(tokens@, p as int, tokens@.len() as int)
            },
            Err(_) => false,
        },
    decreases tokens@.len() - *old(i),
{
    let ghost t = tokens@;
    let ghost n = t.len() as int;
    let start = *i;
    let mut instructions: Vec<Instruction> = Vec::new();
    proof {
        assert(t.subrange(start as int, start as int) =~= Seq::<Token>::empty());
    }
    while *i < tokens.len()
        invariant
            start <= *i <= tokens@.len(),
            start == *old(i),
            t == tokens@,
            n == t.len(),
            balanced(t, start as int, *i as int),
            plain(nodes(instructions@)),
            unparse(nodes(instructions@)) == t.subrange(start as int, *i as int),
        decreases tokens@.len() - *i,
    {
        let ghost here = *i as int;
        let tok = tokens[*i];
        if tok == Token::EnterLoop {
            *i += 1;
            match parse_inner(tokens, true, i) {
                Ok(body) => {
                    let ghost e = *i as int;
                    let x = Instruction::Loop(body);
                    proof {
                        lemma_push(instructions@, x);
                        lemma_single(node(x));
                        lemma_loop_closed(t, start as int, here, e);
                    }
                    instructions.push(x);
                },
                Err(err) => {
                    proof {
                        lemma_loop_open(t, start as int, here);
                    }
                    return Err(err);
                },
            }
        } else if tok == Token::ExitLoop {
            if is_loop {
                return Ok(instructions);
            } else {
                return Err(Error::UnmatchedCloseLoop(*i));
            }
        } else {
            let x = leaf(tok);
            proof {
                lemma_push(instructions@, x);
                lemma_leaf_step(t, start as int, here);
            }
            instructions.push(x);
        }
        *i += 1;
    }
    if is_loop {
        Err(Error::UnmatchedOpenLoop(start))
    } else {
        Ok(instructions)
    }
}

/// Builds the instruction tree of a token sequence, matching loop brackets.
#[verifier::rlimit(80)]
pub fn parse(tokens: &Vec<Token>) -> (r: Result<Vec<Instruction>, Error>)
    ensures
        match r {
            Ok(prog) => well_bracketed(tokens@) && plain(nodes(prog@)) && unparse(nodes(prog@)) == tokens@,
            Err(Error::UnmatchedCloseLoop(k)) => unmatched_close_at(tokens@, k as int),
            Err(Error::UnmatchedOpenLoop(p)) => unmatched_open_from(tokens@, p as int),
            Err(_) => false,
        },
        r is Ok <==> well_bracketed(tokens@),
        forall|k: int|
            #![trigger unmatched_close_at(tokens@, k)]
            unmatched_close_at(tokens@, k) ==> r == Err::<Vec<Instruction>, Error>(
                Error::UnmatchedCloseLoop(k as usize),
            ),
        never_below(tokens@, 0, tokens@.len() as int) && !well_bracketed(tokens@) ==> r matches Err(
            Error::UnmatchedOpenLoop(_),
        ),
        r matches Ok(prog) ==> edit_total(nodes(prog@)) + move_total(nodes(prog@)) <= tokens@.len(),
{
    let mut i: usize = 0;
    let r = parse_inner(tokens, false, &mut i);
    proof {
        let t = tokens@;
        let n = t.len() as int;
        assert(t.subrange(0, n) =~= t);
        match r {
            Ok(ref prog) => {
                lemma_plain_counts(nodes(prog@));
                assert forall|j: int| #![trigger unmatched_close_at(t, j)] !unmatched_close_at(t, j) by {
                    if 0 <= j < n {
                        lemma_depth_split(t, 0, j, j + 1);
                        lemma_depth_one(t, j);
                    }
                }
            },
            Err(Error::UnmatchedCloseLoop(k)) => {
                lemma_depth_split(t, 0, k as int, k + 1);
                lemma_depth_one(t, k as int);
                assert forall|j: int| #![trigger unmatched_close_at(t, j)] unmatched_close_at(t, j) implies j == k by {
                    if j < k {
                        lemma_depth_split(t, 0, j, j + 1);
                        lemma_depth_one(t, j);
                        assert(depth_change(t, 0, j + 1) >= 0);
                    } else if j > k {
                        assert(depth_change(t, 0, k + 1) >= 0);
                    }
                }
            },
            Err(Error::UnmatchedOpenLoop(p)) => {
                assert forall|j: int| #![trigger unmatched_close_at(t, j)] !unmatched_close_at(t, j) by {
                    if 0 <= j < n {
                        lemma_depth_split(t, 0, j, j + 1);
                        lemma_depth_one(t, j);
                    }
                }
                lemma_depth_split(t, 0, p - 1, n);
                lemma_depth_split(t, p - 1, p as int, n);
                lemma_depth_one(t, p - 1);
                assert(depth_change(t, 0, p - 1) >= 0);
            },
            Err(_) => {},
        }
    }
    r
}


proof fn lemma_depth_shift(t: Seq<Token>, u: Seq<Token>, a: int, m: int)
    requires
        0 <= a,
        0 <= m,
        a + m <= t.len(),
        m <= u.len(),
        forall|j: int| 0 <= j < m ==> u[j] == t[a + j],
    ensures
        depth_change(t, a, a + m) == depth_change(u, 0, m),
    decreases m,
{
    if m > 0 {
        lemma_depth_shift(t, u, a, m - 1);
        assert(u[m - 1] == t[a + m - 1]);
    }
}

proof fn lemma_balanced_shift(t: Seq<Token>, u: Seq<Token>, a: int)
    requires
        0 <= a,
        a + u.len() <= t.len(),
        t.subrange(a, a + u.len()) == u,
        balanced(u, 0, u.len() as int),
    ensures
        balanced(t, a, a + u.len()),
{
    assert forall|m: int| a <= m <= a + u.len() implies #[trigger] depth_change(t, a, m) >= 0 by {
        lemma_depth_shift(t, u, a, m - a);
        assert(depth_change(u, 0, m - a) >= 0);
    }
    lemma_depth_shift(t, u, a, u.len() as int);
}

proof fn lemma_unparse_last(prog: Seq<Node>)
    requires
        prog.len() > 0,
    ensures
        unparse(prog) == unparse(prog.drop_last()) + unparse(seq![prog.last()]),
        plain(prog) == (plain(prog.drop_last()) && plain(seq![prog.last()])),
{
    assert(prog.drop_last() =~= prog.subrange(0, prog.len() - 1));
    lemma_single(prog.last());
}

/// The tokens of a parsed program close exactly the loops they open.
pub proof fn lemma_unparse_balanced(prog: Seq<Node>)
    requires
        plain(prog),
    ensures
        balanced(unparse(prog), 0, unparse(prog).len() as int),
        unparse(prog).len() >= prog.len(),
    decreases prog,
{
    let t = unparse(prog);
    if prog.len() == 0 {
        assert(depth_change(t, 0, 0) == 0);
    } else {
        let d = prog.subrange(0, prog.len() - 1);
        let x = prog[prog.len() - 1];
        lemma_unparse_last(prog);
        assert(prog.drop_last() == d);
        lemma_unparse_balanced(d);
        lemma_single(x);
        let u = unparse(d);
        assert(t.subrange(0, u.len() as int) =~= u);
        lemma_balanced_shift(t, u, 0);
        match x {
            Node::Loop(body) => {
                lemma_unparse_balanced(body);
                let b = unparse(body);
                let o = u.len() as int;
                assert(t.subrange(o + 1, o + 1 + b.len()) =~= b);
                lemma_balanced_shift(t, b, o + 1);
                lemma_depth_one(t, o);
                lemma_depth_one(t, o + 1 + b.len());
                assert forall|m: int| 0 <= m <= t.len() implies #[trigger] depth_change(t, 0, m) >= 0 by {
                    if m > o {
                        lemma_depth_split(t, 0, o, m);
                        lemma_depth_split(t, o, o + 1, m);
                        if m > o + 1 + b.len() {
                            lemma_depth_split(t, o + 1, o + 1 + b.len(), m);
                        }
                    }
                }
                lemma_depth_split(t, 0, o, t.len() as int);
                lemma_depth_split(t, o, o + 1, t.len() as int);
                lemma_depth_split(t, o + 1, o + 1 + b.len(), t.len() as int);
            },
            _ => {
                let o = u.len() as int;
                lemma_depth_one(t, o);
                lemma_depth_split(t, 0, o, o + 1);
            },
        }
    }
}

proof fn lemma_open_unique(t: Seq<Token>, o1: int, o2: int, n: int)
    requires
        0 <= o1 < n,
        0 <= o2 < n,
        n <= t.len(),
        t[o1] == Token::EnterLoop,
        t[o2] == Token::EnterLoop,
        balanced(t, o1 + 1, n),
        balanced(t, o2 + 1, n),
    ensures
        o1 == o2,
{
    if o1 < o2 {
        lemma_depth_split(t, o1 + 1, o2, n);
        lemma_depth_split(t, o2, o2 + 1, n);
        lemma_depth_one(t, o2);
        assert(depth_change(t, o1 + 1, o2) >= 0);
    } else if o2 < o1 {
        lemma_depth_split(t, o2 + 1, o1, n);
        lemma_depth_split(t, o1, o1 + 1, n);
        lemma_depth_one(t, o1);
        assert(depth_change(t, o2 + 1, o1) >= 0);
    }
}

/// The leaf node that a token parses to.
spec fn leaf_of(t: Token) -> Node {
    match t {
        Token::Increment => Node::Edit(Edit::Increment(1)),
        Token::Decrement => Node::Edit(Edit::Decrement(1)),
        Token::MoveRight => Node::Move(Move::Right(1)),
        Token::MoveLeft => Node::Move(Move::Left(1)),
        Token::Write => Node::Write,
        Token::Read => Node::Read,
        _ => Node::Fork,
    }
}

proof fn lemma_leaf_token(x: Node)
    requires
        !(x is Loop),
        plain(seq![x]),
    ensures
        unparse(seq![x]).len() == 1,
        x == leaf_of(unparse(seq![x])[0]),
{
    lemma_single(x);
    match x {
        Node::Edit(e) => match e {
            Edit::Increment(n) => {
                assert(n == 1);
            },
            Edit::Decrement(n) => {
                assert(n == 1);
            },
        },
        Node::Move(m) => match m {
            Move::Right(n) => {
                assert(n == 1);
            },
            Move::Left(n) => {
                assert(n == 1);
            },
        },
        _ => {},
    }
}

proof fn lemma_leaf_unique(x: Node, y: Node)
    requires
        !(x is Loop),
        !(y is Loop),
        plain(seq![x]),
        plain(seq![y]),
        unparse(seq![x]) == unparse(seq![y]),
    ensures
        x == y,
{
    lemma_leaf_token(x);
    lemma_leaf_token(y);
}

#[verifier::rlimit(80)]
proof fn lemma_loop_split(a: Seq<Node>, b: Seq<Node>)
    requires
        plain(a),
        plain(b),
        a.len() > 0,
        b.len() > 0,
        a.last() is Loop,
        b.last() is Loop,
        unparse(a) == unparse(b),
    ensures
        unparse(a.drop_last()) == unparse(b.drop_last()),
        unparse(a.last()->Loop_0) == unparse(b.last()->Loop_0),
        plain(a.drop_last()),
        plain(b.drop_last()),
        plain(a.last()->Loop_0),
        plain(b.last()->Loop_0),
        unparse(a.drop_last()).len() < unparse(a).len(),
        unparse(a.last()->Loop_0).len() < unparse(a).len(),
{
    let t = unparse(a);
    let n = t.len() as int;
    let bx = a.last()->Loop_0;
    let by = b.last()->Loop_0;
    lemma_unparse_last(a);
    lemma_unparse_last(b);
    lemma_single(a.last());
    lemma_single(b.last());
    lemma_unparse_balanced(bx);
    lemma_unparse_balanced(by);
    let o1 = unparse(a.drop_last()).len() as int;
    let o2 = unparse(b.drop_last()).len() as int;
    assert(t.subrange(o1 + 1, n - 1) =~= unparse(bx));
    assert(t.subrange(o2 + 1, n - 1) =~= unparse(by));
    lemma_balanced_shift(t, unparse(bx), o1 + 1);
    lemma_balanced_shift(t, unparse(by), o2 + 1);
    assert(t[o1] == Token::EnterLoop);
    assert(t[o2] == Token::EnterLoop);
    lemma_open_unique(t, o1, o2, n - 1);
    assert(unparse(a.drop_last()) =~= t.subrange(0, o1));
    assert(unparse(b.drop_last()) =~= t.subrange(0, o2));
}

/// Parsed programs are told apart by their tokens: two programs of unit
/// counts with the same tokens are the same program.
pub proof fn lemma_unparse_injective(a: Seq<Node>, b: Seq<Node>)
    requires
        plain(a),
        plain(b),
        unparse(a) == unparse(b),
    ensures
        a == b,
    decreases unparse(a).len(),
{
    let t = unparse(a);
    lemma_unparse_balanced(a);
    lemma_unparse_balanced(b);
    if a.len() == 0 || b.len() == 0 {
        assert(a.len() == 0 && b.len() == 0);
        assert(a =~= b);
    } else {
        let x = a.last();
        let y = b.last();
        lemma_unparse_last(a);
        lemma_unparse_last(b);
        lemma_single(x);
        lemma_single(y);
        if x is Loop {
            assert(y is Loop);
            lemma_loop_split(a, b);
            lemma_unparse_injective(a.drop_last(), b.drop_last());
            lemma_unparse_injective(x->Loop_0, y->Loop_0);
        } else {
            assert(!(y is Loop));
            assert(unparse(a.drop_last()) =~= t.subrange(0, t.len() - 1));
            assert(unparse(b.drop_last()) =~= t.subrange(0, t.len() - 1));
            lemma_unparse_injective(a.drop_last(), b.drop_last());
            assert(unparse(seq![x]) =~= t.subrange(t.len() - 1, t.len() as int));
            assert(unparse(seq![y]) =~= t.subrange(t.len() - 1, t.len() as int));
            lemma_leaf_unique(x, y);
        }
        assert(a =~= a.drop_last().push(x));
        assert(b =~= b.drop_last().push(y));
    }
}

} // verus!
