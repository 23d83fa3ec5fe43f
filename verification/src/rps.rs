//! Rock-paper-scissors strategy: given the opponent's hand and the desired
//! outcome of the round, determine the hand to play.

use vstd::prelude::*;

verus! {

#[derive(Copy, Clone, PartialEq, Eq, Structural, Debug)]
pub enum Rps {
    Rock,
    Paper,
    Scissors,
}

#[derive(Copy, Clone, PartialEq, Eq, Structural, Debug)]
pub enum Outcome {
    Loss,
    Tie,
    Win,
}

impl Rps {
    /// Score of a played hand.
    pub fn score(&self) -> (s: u32)
        ensures
            s == self.score_spec(),
    {
        match self {
            Rps::Rock => 1,
            Rps::Paper => 2,
            Rps::Scissors => 3,
        }
    }

    pub open spec fn score_spec(self) -> u32 {
        match self {
            Rps::Rock => 1u32,
            Rps::Paper => 2u32,
            Rps::Scissors => 3u32,
        }
    }

    /// The hand this one defeats.
    pub open spec fn beats(self) -> Rps {
        match self {
            Rps::Rock => Rps::Scissors,
            Rps::Paper => Rps::Rock,
            Rps::Scissors => Rps::Paper,
        }
    }
}

impl Outcome {
    /// Score of a round's outcome.
    pub fn score(&self) -> (s: u32)
        ensures
            s == self.score_spec(),
    {
        match self {
            Outcome::Loss => 0,
            Outcome::Tie => 3,
            Outcome::Win => 6,
        }
    }

    pub open spec fn score_spec(self) -> u32 {
        match self {
            Outcome::Loss => 0u32,
            Outcome::Tie => 3u32,
            Outcome::Win => 6u32,
        }
    }
}

/// Pick the hand that produces `result` against `opponent`: the winning hand
/// beats the opponent's, the losing hand is beaten by it, and a tie repeats it.
pub fn determine_hand(opponent: &Rps, result: &Outcome) -> (own: Rps)
    ensures
        result == Outcome::Win ==> own.beats() == opponent,
        result == Outcome::Loss ==> opponent.beats() == own,
        result == Outcome::Tie ==> own == opponent,
{
    match result {
        Outcome::Win => match opponent {
            Rps::Rock => Rps::Paper,
            Rps::Paper => Rps::Scissors,
            Rps::Scissors => Rps::Rock,
        },
        Outcome::Loss => match opponent {
            Rps::Rock => Rps::Scissors,
            Rps::Paper => Rps::Rock,
            Rps::Scissors => Rps::Paper,
        },
        Outcome::Tie => *opponent,
    }
}

} // verus!
