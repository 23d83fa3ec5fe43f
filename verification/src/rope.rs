//! Rope physics: the head moves one step, and each following knot closes up
//! diagonally whenever it loses contact with its predecessor.

use vstd::prelude::*;

verus! {

#[derive(Debug, Eq, PartialEq, Structural, Clone, Copy)]
pub struct P {
    pub x: i32,
    pub y: i32,
}

impl P {
    /// The origin knot.
    pub fn new() -> (p: P)
        ensures
            p.x == 0 && p.y == 0,
    {
        P { x: 0, y: 0 }
    }
}

/// The two knots touch: equal, orthogonal or diagonal neighbours.
pub open spec fn adjacent_spec(a: P, b: P) -> bool {
    -1 <= a.x - b.x <= 1 && -1 <= a.y - b.y <= 1
}

/// A knot covering another counts as adjacent.
pub fn adjacent(a: &P, b: &P) -> (r: bool)
    ensures
        r == adjacent_spec(*a, *b),
{
    let dx = a.x as i64 - b.x as i64;
    let dy = a.y as i64 - b.y as i64;
    -1 <= dx && dx <= 1 && -1 <= dy && dy <= 1
}

pub open spec fn sgn(v: int) -> int {
    if v > 0 {
        1
    } else if v < 0 {
        -1
    } else {
        0
    }
}

/// Offset of a head move.
pub open spec fn move_delta(d: char) -> (int, int) {
    if d == 'L' {
        ((-1) as int, 0int)
    } else if d == 'R' {
        (1int, 0int)
    } else if d == 'U' {
        (0int, 1int)
    } else {
        (0int, (-1) as int)
    }
}

/// Where knot `t` settles behind its predecessor at `h`.
pub open spec fn follow(h: P, t: P) -> P {
    if adjacent_spec(h, t) {
        t
    } else {
        P { x: (t.x + sgn(h.x - t.x)) as i32, y: (t.y + sgn(h.y - t.y)) as i32 }
    }
}

/// Knot `i` of the rope after the pull: the head steps by the move's offset,
/// and each later knot follows the one before it.
pub open spec fn pulled_at(rope: Seq<P>, d: char, i: int) -> P
    decreases i,
{
    if i <= 0 {
        P {
            x: (rope[0].x + move_delta(d).0) as i32,
            y: (rope[0].y + move_delta(d).1) as i32,
        }
    } else {
        follow(pulled_at(rope, d, i - 1), rope[i])
    }
}

/// All coordinates stay clear of the `i32` limits.
pub open spec fn rope_bounded(rope: Seq<P>) -> bool {
    forall|i: int|
        0 <= i < rope.len() ==> {
            let p = #[trigger] rope[i];
            i32::MIN + 2 <= p.x <= i32::MAX - 2 && i32::MIN + 2 <= p.y <= i32::MAX - 2
        }
}

/// Pull the rope one step in direction `d`.
#[verifier::loop_isolation(false)]
pub fn pull_rope(rope: &mut Vec<P>, d: &char)
    requires
        old(rope)@.len() >= 1,
        rope_bounded(old(rope)@),
        *d == 'L' || *d == 'R' || *d == 'U' || *d == 'D',
    ensures
        final(rope)@.len() == old(rope)@.len(),
        forall|i: int|
            0 <= i < old(rope)@.len() ==> #[trigger] final(rope)@[i] == pulled_at(
                old(rope)@,
                *d,
                i,
            ),
{
    let ghost r0 = rope@;
    let head = rope[0];
    let (dx, dy): (i32, i32) = if *d == 'L' {
        (-1, 0)
    } else if *d == 'R' {
        (1, 0)
    } else if *d == 'U' {
        (0, 1)
    } else {
        (0, -1)
    };
    let moved = P { x: head.x + dx, y: head.y + dy };
    rope[0] = moved;
    proof {
        assert(rope@[0] == pulled_at(r0, *d, 0));
    }
    let mut i: usize = 0;
    while i < rope.len() - 1
        invariant
            i < r0.len(),
            rope@.len() == r0.len(),
            forall|k: int| 0 <= k <= i ==> #[trigger] rope@[k] == pulled_at(r0, *d, k),
            forall|k: int| i < k < r0.len() ==> #[trigger] rope@[k] == r0[k],
        decreases r0.len() - i,
    {
        let h = rope[i];
        let t = rope[i + 1];
        if !adjacent(&h, &t) {
            let sx: i32 = if h.x > t.x {
                1
            } else if h.x < t.x {
                -1
            } else {
                0
            };
            let sy: i32 = if h.y > t.y {
                1
            } else if h.y < t.y {
                -1
            } else {
                0
            };
            proof {
                lemma_pulled_bounded(r0, *d, i as int);
            }
            rope[i + 1] = P { x: t.x + sx, y: t.y + sy };
        }
        proof {
            assert(rope@[i + 1] == follow(pulled_at(r0, *d, i as int), r0[i + 1]));
        }
        i += 1;
    }
}

/// A followed knot moves at most one step, so it stays inside the safety
/// margin.
proof fn lemma_pulled_bounded(rope: Seq<P>, d: char, i: int)
    requires
        rope.len() >= 1,
        rope_bounded(rope),
        0 <= i < rope.len(),
    ensures
        i32::MIN + 1 <= pulled_at(rope, d, i).x <= i32::MAX - 1,
        i32::MIN + 1 <= pulled_at(rope, d, i).y <= i32::MAX - 1,
    decreases i,
{
    if i > 0 {
        lemma_pulled_bounded(rope, d, i - 1);
    }
}

} // verus!
