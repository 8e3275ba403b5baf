//! Width-generic tape memory: the tape model, pointer motion, the overflow
//! policy, and rendering and reading of cells.
use vstd::prelude::*;
use vstd::arithmetic::div_mod::{
    lemma_add_mod_noop, lemma_mod_add_multiples_vanish, lemma_mod_sub_multiples_vanish,
    lemma_small_mod, lemma_sub_mod_noop,
};
use crate::args::Args;
use crate::error::Error;
use crate::text::{
    char_from, char_text, decimal, decimal_text, green, green_code, is_scalar, lemma_decimal_escape_free,
    lemma_escape_free, lemma_single_no_reset, painted, yellow, yellow_code,
};
use vstd::string::StringExecFns;

mod memory16;
mod memory32;
mod memory8;

pub use memory16::Memory16;
pub use memory32::Memory32;
pub use memory8::Memory8;

verus! {

/// The configured policies of a tape.
#[derive(Clone, Copy, Debug, PartialEq, Eq, Structural)]
pub struct Policy {
    pub wrap_around: bool,
    pub no_overflows: bool,
    pub debug: bool,
}

/// The mathematical state of a tape: its cells (widened to `u32`), the
/// pointer, the policies and the largest value a cell holds.
pub struct Tape {
    pub cells: Seq<u32>,
    pub pointer: int,
    pub policy: Policy,
    pub max: u32,
}

/// The pointer is on the tape and every cell is in range.
pub open spec fn tape_wf(t: Tape) -> bool {
    &&& 0 <= t.pointer < t.cells.len() <= usize::MAX
    &&& t.max >= 1
    &&& forall|i: int| 0 <= i < t.cells.len() ==> #[trigger] t.cells[i] <= t.max
}

/// The policies an argument record asks for.
pub open spec fn policy_of(args: Args) -> Policy {
    Policy { wrap_around: args.wrap_around, no_overflows: args.no_overflows, debug: args.debug }
}

/// A fresh tape: every cell zero, the pointer on the first.
pub open spec fn fresh_tape(args: Args, max: u32) -> Tape {
    Tape {
        cells: Seq::new(args.memory_size as nat, |i: int| 0u32),
        pointer: 0,
        policy: policy_of(args),
        max,
    }
}

/// The tape with the pointer at `p`.
pub open spec fn with_pointer(t: Tape, p: int) -> Tape {
    Tape { pointer: p, ..t }
}

/// The tape with cell `p` holding `v`.
pub open spec fn with_cell(t: Tape, p: int, v: u32) -> Tape {
    Tape { cells: t.cells.update(p, v), ..t }
}

/// Where moving right by `n` leads.
pub open spec fn moved_right(t: Tape, n: int) -> Result<int, Error> {
    let q = t.pointer + n;
    if q < t.cells.len() {
        Ok(q)
    } else if t.policy.wrap_around {
        Ok(q % (t.cells.len() as int))
    } else {
        Err(Error::RightMostCell)
    }
}

/// Where moving left by `n` leads.
pub open spec fn moved_left(t: Tape, n: int) -> Result<int, Error> {
    let q = t.pointer - n;
    if q >= 0 {
        Ok(q)
    } else if t.policy.wrap_around {
        Ok(q % (t.cells.len() as int))
    } else {
        Err(Error::LeftMostCell)
    }
}

/// The value of cell `p` increased by `n`.
pub open spec fn added(t: Tape, p: int, n: int) -> Result<u32, Error> {
    let v = t.cells[p] + n;
    if v <= t.max {
        Ok(v as u32)
    } else if t.policy.no_overflows {
        Err(Error::PositiveOverflow(p as usize))
    } else {
        Ok((v % (t.max + 1)) as u32)
    }
}

/// The value of cell `p` decreased by `n`.
pub open spec fn subtracted(t: Tape, p: int, n: int) -> Result<u32, Error> {
    let v = t.cells[p] - n;
    if v >= 0 {
        Ok(v as u32)
    } else if t.policy.no_overflows {
        Err(Error::NegativeOverflow(p as usize))
    } else {
        Ok((v % (t.max + 1)) as u32)
    }
}

/// At the largest value, an increment wraps to zero, or fails where overflows
/// are errors; at zero, a decrement wraps to the largest value, or fails.
pub proof fn lemma_cell_bounds(t: Tape, p: int)
    requires
        tape_wf(t),
        0 <= p < t.cells.len(),
    ensures
        t.cells[p] == t.max ==> added(t, p, 1) == if t.policy.no_overflows {
            Err::<u32, Error>(Error::PositiveOverflow(p as usize))
        } else {
            Ok::<u32, Error>(0)
        },
        t.cells[p] == 0 ==> subtracted(t, p, 1) == if t.policy.no_overflows {
            Err::<u32, Error>(Error::NegativeOverflow(p as usize))
        } else {
            Ok::<u32, Error>(t.max)
        },
{
    let m = t.max + 1;
    assert(m % m == 0) by {
        lemma_mod_add_multiples_vanish(0, m);
        lemma_small_mod(0, m as nat);
    }
    assert((-1int) % m == m - 1) by {
        lemma_mod_add_multiples_vanish(-1, m);
        lemma_small_mod((m - 1) as nat, m as nat);
    }
}

/// On the last cell, a move right by one wraps to the first cell, or fails
/// where wrapping is off; on the first cell, a move left by one wraps to the
/// last, or fails.
pub proof fn lemma_pointer_bounds(t: Tape)
    requires
        tape_wf(t),
    ensures
        t.pointer == t.cells.len() - 1 ==> moved_right(t, 1) == if t.policy.wrap_around {
            Ok::<int, Error>(0)
        } else {
            Err::<int, Error>(Error::RightMostCell)
        },
        t.pointer == 0 ==> moved_left(t, 1) == if t.policy.wrap_around {
            Ok::<int, Error>(t.cells.len() - 1)
        } else {
            Err::<int, Error>(Error::LeftMostCell)
        },
{
    let m = t.cells.len() as int;
    assert(m % m == 0) by {
        lemma_mod_add_multiples_vanish(0, m);
        lemma_small_mod(0, m as nat);
    }
    assert((-1int) % m == m - 1) by {
        lemma_mod_add_multiples_vanish(-1, m);
        lemma_small_mod((m - 1) as nat, m as nat);
    }
}

/// `p + n` taken modulo `m`, by way of `n % m`.
proof fn lemma_wrap_up(p: int, n: int, m: int)
    requires
        0 <= p < m,
        0 <= n,
    ensures
        (p + n) % m == if p + n % m < m {
            p + n % m
        } else {
            p + n % m - m
        },
        0 <= n % m < m,
{
    lemma_add_mod_noop(p, n, m);
    lemma_small_mod(p as nat, m as nat);
    let r = n % m;
    assert(0 <= r < m);
    if p + r < m {
        lemma_small_mod((p + r) as nat, m as nat);
    } else {
        lemma_mod_sub_multiples_vanish(p + r, m);
        lemma_small_mod((p + r - m) as nat, m as nat);
    }
}

/// `p - n` taken modulo `m`, by way of `n % m`.
proof fn lemma_wrap_down(p: int, n: int, m: int)
    requires
        0 <= p < m,
        0 <= n,
    ensures
        (p - n) % m == if p >= n % m {
            p - n % m
        } else {
            m - (n % m - p)
        },
        0 <= n % m < m,
{
    lemma_sub_mod_noop(p, n, m);
    lemma_small_mod(p as nat, m as nat);
    let r = n % m;
    assert(0 <= r < m);
    if p >= r {
        lemma_small_mod((p - r) as nat, m as nat);
    } else {
        lemma_mod_add_multiples_vanish(p - r, m);
        lemma_small_mod((m + (p - r)) as nat, m as nat);
    }
}


/// The value that a read character gives a cell, or the width it needs.
pub open spec fn stored(c: char, max: u32) -> Result<u32, Error> {
    if c as u32 <= max {
        Ok(c as u32)
    } else if c as u32 > 0xFFFF {
        Err(Error::RequiresWiderCell(c, 32))
    } else {
        Err(Error::RequiresWiderCell(c, 16))
    }
}

/// What a read of one line of input brought.
#[derive(Clone, Copy, Debug, PartialEq, Eq, Structural)]
pub enum Input {
    /// The first character of the line.
    Char(char),
    /// Input is exhausted.
    Exhausted,
    /// Input could not be read.
    ReadFailed,
    /// Pending output could not be flushed before reading.
    FlushFailed,
}

/// The tape after reading `input` into the current cell.
pub open spec fn read_into(t: Tape, input: Input) -> Result<Tape, Error> {
    match input {
        Input::Char(c) => match stored(c, t.max) {
            Ok(v) => Ok(with_cell(t, t.pointer, v)),
            Err(e) => Err(e),
        },
        Input::Exhausted => Err(Error::NoInput),
        Input::ReadFailed => Err(Error::ReadInputFail),
        Input::FlushFailed => Err(Error::WriteOutputFail),
    }
}

/// The text of a debug record, put together from its coloured parts.
pub open spec fn record_text(
    label: Seq<char>,
    pointer: Seq<char>,
    value: Seq<char>,
    shown: Option<Seq<char>>,
) -> Seq<char> {
    label + " [pointer: "@ + pointer + ", value: "@ + value + match shown {
        Some(c) => ", character: '"@ + c + "']"@,
        None => ", invalid character]"@,
    }
}

/// `x` shows, in yellow, the character of code point `v`.
pub open spec fn shows_char(x: Seq<char>, v: u32) -> bool {
    exists|c: char| c as u32 == v && #[trigger] painted(x, seq![c], yellow_code())
}

/// `s` is the debug record of a cell: its pointer, its value and, where the
/// value is a scalar value, its character.
pub open spec fn shows_record(s: Seq<char>, pointer: nat, value: u32) -> bool {
    exists|l: Seq<char>, p: Seq<char>, v: Seq<char>, c: Option<Seq<char>>|
        #[trigger] record_text(l, p, v, c) == s && painted(l, "debug:"@, green_code()) && painted(
            p,
            decimal(pointer),
            green_code(),
        ) && painted(v, decimal(value as nat), green_code()) && match c {
            Some(x) => is_scalar(value) && shows_char(x, value),
            None => !is_scalar(value),
        }
}

/// A tape of cells of one width. Implementations differ only in the width;
/// pointer motion, the overflow policy and reading are shared.
pub trait Memory: Sized {
    /// The state of the tape.
    spec fn tape(&self) -> Tape;

    /// The largest value a cell of this tape holds.
    fn max_value(&self) -> (r: u32)
        ensures
            r == self.tape().max,
    ;

    fn policy(&self) -> (r: Policy)
        ensures
            r == self.tape().policy,
    ;

    fn size(&self) -> (r: usize)
        requires
            tape_wf(self.tape()),
        ensures
            r == self.tape().cells.len(),
    ;

    fn pointer(&self) -> (r: usize)
        requires
            tape_wf(self.tape()),
        ensures
            r == self.tape().pointer,
    ;

    fn set_pointer(&mut self, pointer: usize)
        requires
            tape_wf(old(self).tape()),
            pointer < old(self).tape().cells.len(),
        ensures
            final(self).tape() == with_pointer(old(self).tape(), pointer as int),
    ;

    fn value(&self, pointer: usize) -> (r: u32)
        requires
            tape_wf(self.tape()),
            pointer < self.tape().cells.len(),
        ensures
            r == self.tape().cells[pointer as int],
    ;

    fn set_value(&mut self, pointer: usize, value: u32)
        requires
            tape_wf(old(self).tape()),
            pointer < old(self).tape().cells.len(),
            value <= old(self).tape().max,
        ensures
            final(self).tape() == with_cell(old(self).tape(), pointer as int, value),
    ;

    /// An independent copy of the tape.
    fn duplicate(&self) -> (r: Self)
        ensures
            r.tape() == self.tape(),
    ;

    /// Where moving right by `n` leads.
    fn add_pointer(&self, n: usize) -> (r: Result<usize, Error>)
        requires
            tape_wf(self.tape()),
        ensures
            match r {
                Ok(p) => moved_right(self.tape(), n as int) == Ok::<int, Error>(p as int),
                Err(e) => moved_right(self.tape(), n as int) == Err::<int, Error>(e),
            },
    {
        let size = self.size();
        let pointer = self.pointer();
        if n < size - pointer {
            Ok(pointer + n)
        } else if self.policy().wrap_around {
            proof {
                lemma_wrap_up(pointer as int, n as int, size as int);
            }
            let r = n % size;
            if r < size - pointer {
                Ok(pointer + r)
            } else {
                Ok(r - (size - pointer))
            }
        } else {
            Err(Error::RightMostCell)
        }
    }

    /// Where moving left by `n` leads.
    fn sub_pointer(&self, n: usize) -> (r: Result<usize, Error>)
        requires
            tape_wf(self.tape()),
        ensures
            match r {
                Ok(p) => moved_left(self.tape(), n as int) == Ok::<int, Error>(p as int),
                Err(e) => moved_left(self.tape(), n as int) == Err::<int, Error>(e),
            },
    {
        let size = self.size();
        let pointer = self.pointer();
        if n <= pointer {
            Ok(pointer - n)
        } else if self.policy().wrap_around {
            proof {
                lemma_wrap_down(pointer as int, n as int, size as int);
            }
            let r = n % size;
            if r <= pointer {
                Ok(pointer - r)
            } else {
                Ok(size - (r - pointer))
            }
        } else {
            Err(Error::LeftMostCell)
        }
    }

    /// Moves right by `n`; on failure nothing changes.
    fn incr_pointer(&mut self, n: usize) -> (r: Result<(), Error>)
        requires
            tape_wf(old(self).tape()),
        ensures
            match moved_right(old(self).tape(), n as int) {
                Ok(p) => r is Ok && final(self).tape() == with_pointer(old(self).tape(), p),
                Err(e) => r == Err::<(), Error>(e) && final(self).tape() == old(self).tape(),
            },
    {
        let p = self.add_pointer(n)?;
        self.set_pointer(p);
        Ok(())
    }

    /// Moves left by `n`; on failure nothing changes.
    fn decr_pointer(&mut self, n: usize) -> (r: Result<(), Error>)
        requires
            tape_wf(old(self).tape()),
        ensures
            match moved_left(old(self).tape(), n as int) {
                Ok(p) => r is Ok && final(self).tape() == with_pointer(old(self).tape(), p),
                Err(e) => r == Err::<(), Error>(e) && final(self).tape() == old(self).tape(),
            },
    {
        let p = self.sub_pointer(n)?;
        self.set_pointer(p);
        Ok(())
    }

    /// The value of cell `pointer` increased by `n`, under the overflow policy.
    fn add_value(&self, pointer: usize, n: u32) -> (r: Result<u32, Error>)
        requires
            tape_wf(self.tape()),
            pointer < self.tape().cells.len(),
        ensures
            r == added(self.tape(), pointer as int, n as int),
    {
        let v = self.value(pointer) as u64 + n as u64;
        let m = self.max_value() as u64 + 1;
        if v < m {
            Ok(v as u32)
        } else if self.policy().no_overflows {
            Err(Error::PositiveOverflow(pointer))
        } else {
            Ok((v % m) as u32)
        }
    }

    /// The value of cell `pointer` decreased by `n`, under the overflow policy.
    fn sub_value(&self, pointer: usize, n: u32) -> (r: Result<u32, Error>)
        requires
            tape_wf(self.tape()),
            pointer < self.tape().cells.len(),
        ensures
            r == subtracted(self.tape(), pointer as int, n as int),
    {
        let v = self.value(pointer);
        if n <= v {
            Ok(v - n)
        } else if self.policy().no_overflows {
            Err(Error::NegativeOverflow(pointer))
        } else {
            let m = self.max_value() as u64 + 1;
            proof {
                lemma_wrap_down(v as int, n as int, m as int);
            }
            let r = n as u64 % m;
            if r <= v as u64 {
                Ok(v - r as u32)
            } else {
                Ok((m - (r - v as u64)) as u32)
            }
        }
    }

    /// Increases cell `pointer` by `n`; on failure nothing changes.
    fn incr_value(&mut self, pointer: usize, n: u32) -> (r: Result<(), Error>)
        requires
            tape_wf(old(self).tape()),
            pointer < old(self).tape().cells.len(),
        ensures
            match added(old(self).tape(), pointer as int, n as int) {
                Ok(v) => r is Ok && final(self).tape() == with_cell(old(self).tape(), pointer as int, v),
                Err(e) => r == Err::<(), Error>(e) && final(self).tape() == old(self).tape(),
            },
    {
        let v = self.add_value(pointer, n)?;
        self.set_value(pointer, v);
        Ok(())
    }

    /// Decreases cell `pointer` by `n`; on failure nothing changes.
    fn decr_value(&mut self, pointer: usize, n: u32) -> (r: Result<(), Error>)
        requires
            tape_wf(old(self).tape()),
            pointer < old(self).tape().cells.len(),
        ensures
            match subtracted(old(self).tape(), pointer as int, n as int) {
                Ok(v) => r is Ok && final(self).tape() == with_cell(old(self).tape(), pointer as int, v),
                Err(e) => r == Err::<(), Error>(e) && final(self).tape() == old(self).tape(),
            },
    {
        let v = self.sub_value(pointer, n)?;
        self.set_value(pointer, v);
        Ok(())
    }

    /// Sets cell `pointer` to zero.
    fn clear_value(&mut self, pointer: usize)
        requires
            tape_wf(old(self).tape()),
            pointer < old(self).tape().cells.len(),
        ensures
            final(self).tape() == with_cell(old(self).tape(), pointer as int, 0),
    {
        self.set_value(pointer, 0);
    }

    /// The value of the current cell.
    fn current(&self) -> (r: u32)
        requires
            tape_wf(self.tape()),
        ensures
            r == self.tape().cells[self.tape().pointer],
    {
        self.value(self.pointer())
    }

    /// The current cell is zero.
    fn current_is_null(&self) -> (r: bool)
        requires
            tape_wf(self.tape()),
        ensures
            r == (self.tape().cells[self.tape().pointer] == 0),
    {
        self.current() == 0
    }

    /// The character of a cell value, if it is a scalar value.
    fn value_to_char(value: u32) -> (r: Result<char, Error>)
        ensures
            match r {
                Ok(c) => is_scalar(value) && c as u32 == value,
                Err(e) => !is_scalar(value) && e == Error::InvalidUnicode(value),
            },
    {
        match char_from(value) {
            Some(c) => Ok(c),
            None => Err(Error::InvalidUnicode(value)),
        }
    }

    /// The cell value of a character, if it fits this tape's cells.
    fn char_to_value(&self, c: char) -> (r: Result<u32, Error>)
        ensures
            r == stored(c, self.tape().max),
    {
        let v = c as u32;
        if v <= self.max_value() {
            Ok(v)
        } else if v > 0xFFFF {
            Err(Error::RequiresWiderCell(c, 32))
        } else {
            Err(Error::RequiresWiderCell(c, 16))
        }
    }

    /// Renders the current cell: its character, or in debug mode a record of
    /// the pointer, the value and the character, which never fails.
    fn write(&self) -> (r: Result<String, Error>)
        requires
            tape_wf(self.tape()),
        ensures
            ({
                let t = self.tape();
                let v = t.cells[t.pointer];
                if t.policy.debug {
                    r matches Ok(s) && shows_record(s@, t.pointer as nat, v)
                } else if is_scalar(v) {
                    r matches Ok(s) && s@.len() == 1 && s@[0] as u32 == v
                } else {
                    r == Err::<String, Error>(Error::InvalidUnicode(v))
                }
            }),
    {
        let value = self.current();
        let shown = Self::value_to_char(value);
        if self.policy().debug {
            let pointer = self.pointer();
            proof {
                reveal_strlit("debug:");
                lemma_escape_free("debug:"@);
                lemma_decimal_escape_free(pointer as nat);
                lemma_escape_free(decimal(pointer as nat));
                lemma_decimal_escape_free(value as nat);
                lemma_escape_free(decimal(value as nat));
            }
            let label = green("debug:");
            let ghost shown_label = label@;
            let p = decimal_text(pointer as u64);
            let gp = green(p.as_str());
            let v = decimal_text(value as u64);
            let gv = green(v.as_str());
            let mut s = label;
            s.append(" [pointer: ");
            s.append(gp.as_str());
            s.append(", value: ");
            s.append(gv.as_str());
            match shown {
                Ok(c) => {
                    let one = char_text(c);
                    proof {
                        lemma_single_no_reset(c);
                    }
                    let gc = yellow(one.as_str());
                    s.append(", character: '");
                    s.append(gc.as_str());
                    s.append("']");
                    proof {
                        assert(shows_char(gc@, value));
                        assert(record_text(shown_label, gp@, gv@, Some(gc@)) == s@);
                    }
                },
                Err(_) => {
                    s.append(", invalid character]");
                    proof {
                        assert(record_text(shown_label, gp@, gv@, None) == s@);
                    }
                },
            }
            Ok(s)
        } else {
            match shown {
                Ok(c) => Ok(char_text(c)),
                Err(e) => Err(e),
            }
        }
    }

    /// Reads one line's result into the current cell; on failure nothing
    /// changes.
    fn read(&mut self, input: Input) -> (r: Result<(), Error>)
        requires
            tape_wf(old(self).tape()),
        ensures
            match read_into(old(self).tape(), input) {
                Ok(t) => r is Ok && final(self).tape() == t,
                Err(e) => r == Err::<(), Error>(e) && final(self).tape() == old(self).tape(),
            },
    {
        match input {
            Input::Char(c) => {
                let v = self.char_to_value(c)?;
                let p = self.pointer();
                self.set_value(p, v);
                Ok(())
            },
            Input::Exhausted => Err(Error::NoInput),
            Input::ReadFailed => Err(Error::ReadInputFail),
            Input::FlushFailed => Err(Error::WriteOutputFail),
        }
    }
}

} // verus!
