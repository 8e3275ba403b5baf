//! A tape of 8-bit cells.
use vstd::prelude::*;
use crate::args::Args;
use crate::memory::{tape_wf, fresh_tape, policy_of, Memory, Policy, Tape};

verus! {

/// A tape of 8-bit cells.
#[derive(Debug)]
pub struct Memory8 {
    memory: Vec<u8>,
    pointer: usize,
    policy: Policy,
}

impl Memory8 {
    /// A tape of `args.memory_size` zero cells, the pointer on the first.
    pub fn new(args: &Args) -> (r: Memory8)
        requires
            args.memory_size > 0,
        ensures
            tape_wf(r.tape()),
            r.tape() == fresh_tape(*args, 0xFF),
    {
        let memory: Vec<u8> = vec![0; args.memory_size as usize];
        let r = Memory8 {
            memory,
            pointer: 0,
            policy: Policy {
                wrap_around: args.wrap_around,
                no_overflows: args.no_overflows,
                debug: args.debug,
            },
        };
        proof {
            assert(r.tape().cells =~= fresh_tape(*args, 0xFF).cells);
        }
        r
    }
}

impl Memory for Memory8 {
    closed spec fn tape(&self) -> Tape {
        Tape {
            cells: self.memory@.map_values(|v: u8| v as u32),
            pointer: self.pointer as int,
            policy: self.policy,
            max: 0xFF,
        }
    }

    fn max_value(&self) -> (r: u32) {
        0xFF
    }

    fn policy(&self) -> (r: Policy) {
        self.policy
    }

    fn size(&self) -> (r: usize) {
        self.memory.len()
    }

    fn pointer(&self) -> (r: usize) {
        self.pointer
    }

    fn set_pointer(&mut self, pointer: usize) {
        self.pointer = pointer;
    }

    fn value(&self, pointer: usize) -> (r: u32) {
        self.memory[pointer] as u32
    }

    fn set_value(&mut self, pointer: usize, value: u32) {
        self.memory.set(pointer, value as u8);
        proof {
            assert(self.tape().cells =~= old(self).tape().cells.update(pointer as int, value));
        }
    }

    fn duplicate(&self) -> (r: Self) {
        let mut memory: Vec<u8> = Vec::new();
        for i in 0..self.memory.len()
            invariant
                memory@ == self.memory@.take(i as int),
        {
            memory.push(self.memory[i]);
            proof {
                assert(memory@ =~= self.memory@.take(i + 1));
            }
        }
        proof {
            assert(memory@ =~= self.memory@);
        }
        Memory8 { memory, pointer: self.pointer, policy: self.policy }
    }
}

} // verus!
