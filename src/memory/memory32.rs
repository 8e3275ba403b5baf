//! A tape of 32-bit cells.
use vstd::prelude::*;
use crate::args::Args;
use crate::memory::{tape_wf, fresh_tape, policy_of, Memory, Policy, Tape};

verus! {

/// A tape of 32-bit cells.
#[derive(Debug)]
pub struct Memory32 {
    memory: Vec<u32>,
    pointer: usize,
    policy: Policy,
}

impl Memory32 {
    /// A tape of `args.memory_size` zero cells, the pointer on the first.
    pub fn new(args: &Args) -> (r: Memory32)
        requires
            args.memory_size > 0,
        ensures
            tape_wf(r.tape()),
            r.tape() == fresh_tape(*args, 0xFFFF_FFFF),
    {
        let memory: Vec<u32> = vec![0; args.memory_size as usize];
        let r = Memory32 {
            memory,
            pointer: 0,
            policy: Policy {
                wrap_around: args.wrap_around,
                no_overflows: args.no_overflows,
                debug: args.debug,
            },
        };
        proof {
            assert(r.tape().cells =~= fresh_tape(*args, 0xFFFF_FFFF).cells);
        }
        r
    }
}

impl Memory for Memory32 {
    closed spec fn tape(&self) -> Tape {
        Tape {
            cells: self.memory@.map_values(|v: u32| v as u32),
            pointer: self.pointer as int,
            policy: self.policy,
            max: 0xFFFF_FFFF,
        }
    }

    fn max_value(&self) -> (r: u32) {
        0xFFFF_FFFF
    }

    fn policy(&self) -> (r: Policy) {
        self.policy
    }

    fn size(&self) -> (r: usize) {
        self.memory.len()
    }

    fn pointer(&self) -> (r: usize) {
        self.pointer
    }

    fn set_pointer(&mut self, pointer: usize) {
        self.pointer = pointer;
    }

    fn value(&self, pointer: usize) -> (r: u32) {
        self.memory[pointer] as u32
    }

    fn set_value(&mut self, pointer: usize, value: u32) {
        self.memory.set(pointer, value as u32);
        proof {
            assert(self.tape().cells =~= old(self).tape().cells.update(pointer as int, value));
        }
    }

    fn duplicate(&self) -> (r: Self) {
        let mut memory: Vec<u32> = Vec::new();
        for i in 0..self.memory.len()
            invariant
                memory@ == self.memory@.take(i as int),
        {
            memory.push(self.memory[i]);
            proof {
                assert(memory@ =~= self.memory@.take(i + 1));
            }
        }
        proof {
            assert(memory@ =~= self.memory@);
        }
        Memory32 { memory, pointer: self.pointer, policy: self.policy }
    }
}

} // verus!
