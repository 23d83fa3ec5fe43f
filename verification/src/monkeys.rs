//! Worry-level bookkeeping for the monkey game: each monkey transforms an
//! item's worry level and throws it to one of two peers depending on
//! divisibility.

use std::collections::VecDeque;
use vstd::prelude::*;

verus! {

#[derive(Debug, Clone)]
pub enum Operation {
    Add(u64),
    Mul(u64),
    Square,
}

#[derive(Debug, Clone)]
pub struct Item(pub u64);

#[derive(Debug, Clone)]
pub struct Test {
    pub arg: u64,
    pub monkey1: usize,
    pub monkey2: usize,
}

#[derive(Debug, Clone)]
pub struct Monkey {
    pub inspected: u64,
    pub items: VecDeque<Item>,
    pub operation: Operation,
    pub test: Test,
}

impl Operation {
    pub open spec fn apply_spec(self, worry: u64) -> int {
        match self {
            Operation::Add(x) => x + worry,
            Operation::Mul(x) => x * worry,
            Operation::Square => worry * worry,
        }
    }

    /// New worry level after this monkey's inspection.
    pub fn apply(&self, item: &Item) -> (r: u64)
        requires
            self.apply_spec(item.0) <= u64::MAX,
        ensures
            r == self.apply_spec(item.0),
    {
        match self {
            Operation::Add(x) => *x + item.0,
            Operation::Mul(x) => *x * item.0,
            Operation::Square => item.0 * item.0,
        }
    }
}

impl Test {
    /// Which monkey the item goes to: the first on a passed divisibility
    /// test, the second otherwise.
    pub fn apply(&self, item: &Item) -> (target: usize)
        requires
            self.arg != 0,
        ensures
            target == if item.0 % self.arg == 0 {
                self.monkey1
            } else {
                self.monkey2
            },
    {
        if item.0 % self.arg == 0 {
            self.monkey1
        } else {
            self.monkey2
        }
    }
}

impl Monkey {
    /// A monkey that has inspected nothing yet.
    pub fn new(items: VecDeque<Item>, operation: Operation, test: Test) -> (m: Monkey)
        ensures
            m.inspected == 0,
            m.items == items,
            m.operation == operation,
            m.test == test,
    {
        Monkey { inspected: 0, items, operation, test }
    }
}

} // verus!
