//! Verified puzzle-solving library built around a state-space search core:
//! a grid world model, an all-pairs distance oracle, breadth-first and
//! time-indexed depth-first explorers, and a branch-and-bound scheduler.
//! Around the core stand the smaller solver pieces: range sets, rope
//! physics, crate stacks, packet ordering, balanced-base numerals and the
//! other puzzle rules, each with a proved contract.

pub mod assignments;
pub mod beacons;
pub mod blizzard;
pub mod cave;
pub mod crane;
pub mod crt;
pub mod dirtree;
pub mod distance_oracle;
pub mod elves;
pub mod grid_search;
pub mod grove;
pub mod lava;
pub mod mixing;
pub mod monkey_math;
pub mod monkeys;
pub mod packets;
pub mod paths;
pub mod rope;
pub mod rps;
pub mod rucksack;
pub mod scheduler;
pub mod snafu;
pub mod tetris;
