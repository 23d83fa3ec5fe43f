//! Instruction timing for the scanline CPU: each operation takes a fixed
//! number of cycles.

use vstd::prelude::*;

verus! {

pub enum Op {
    Noop,
    Addx(i32),
}

impl Op {
    pub open spec fn cycles_spec(&self) -> u32 {
        match self {
            Op::Noop => 1u32,
            Op::Addx(_) => 2u32,
        }
    }

    /// Cycles the operation occupies the CPU for.
    pub fn cycles(&self) -> (c: u32)
        ensures
            c == self.cycles_spec(),
    {
        match self {
            Op::Noop => 1,
            Op::Addx(_) => 2,
        }
    }
}

} // verus!
