//! Item priorities for the rucksack puzzle: lowercase items score 1..=26,
//! uppercase items score 27..=52.

use vstd::prelude::*;

verus! {

pub open spec fn priority_spec(c: char) -> int {
    if 'a' <= c && c <= 'z' {
        c as int - 'a' as int + 1
    } else {
        c as int - 'A' as int + 27
    }
}

/// Priority of an item: its 1-based position in the alphabet
/// `a..z` followed by `A..Z`.
pub fn priority(c: char) -> (p: u32)
    requires
        ('a' <= c && c <= 'z') || ('A' <= c && c <= 'Z'),
    ensures
        p == priority_spec(c),
        1 <= p <= 52,
{
    if 'a' <= c && c <= 'z' {
        c as u32 - 'a' as u32 + 1
    } else {
        c as u32 - 'A' as u32 + 27
    }
}

} // verus!
