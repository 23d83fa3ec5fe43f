//! Crate-stack rearrangement: parse-free core of the crane moves. A stack is
//! a vector of crate letters with its top at the end.

use vstd::prelude::*;

verus! {

/// A move order: `n` crates from stack `from` to stack `to`, 1-based.
#[derive(Debug)]
pub struct Op(pub u32, pub usize, pub usize);

/// Crates the order lifts: the top `n` of the source stack.
pub open spec fn lifted(from: Seq<char>, n: int) -> Seq<char> {
    from.skip(from.len() - n)
}

/// Move `n` crates one at a time: they arrive in reverse order.
#[verifier::loop_isolation(false)]
pub fn exec(stacks: &mut Vec<Vec<char>>, op: Op)
    requires
        1 <= op.1 <= old(stacks)@.len(),
        1 <= op.2 <= old(stacks)@.len(),
        op.1 != op.2,
        op.0 <= old(stacks)@[op.1 - 1]@.len(),
    ensures
        final(stacks)@.len() == old(stacks)@.len(),
        final(stacks)@[op.1 - 1]@ == old(stacks)@[op.1 - 1]@.take(
            old(stacks)@[op.1 - 1]@.len() - op.0,
        ),
        final(stacks)@[op.2 - 1]@ == old(stacks)@[op.2 - 1]@ + lifted(
            old(stacks)@[op.1 - 1]@,
            op.0 as int,
        ).reverse(),
        forall|k: int|
            0 <= k < old(stacks)@.len() && k != op.1 - 1 && k != op.2 - 1
                ==> #[trigger] final(stacks)@[k] == old(stacks)@[k],
{
    let from = op.1 - 1;
    let to = op.2 - 1;
    let ghost f0 = stacks@[from as int]@;
    let ghost t0 = stacks@[to as int]@;
    let mut moved: u32 = 0;
    while moved < op.0
        invariant
            moved <= op.0,
            stacks@.len() == old(stacks)@.len(),
            stacks@[from as int]@ == f0.take(f0.len() - moved),
            stacks@[to as int]@ == t0 + f0.skip(f0.len() - moved).reverse(),
            forall|k: int|
                0 <= k < old(stacks)@.len() && k != from && k != to ==> #[trigger] stacks@[k]
                    == old(stacks)@[k],
        decreases op.0 - moved,
    {
        let c = match stacks[from].pop() {
            Some(c) => c,
            None => {
                proof {
                    assert(false);
                }
                ' '
            },
        };
        stacks[to].push(c);
        proof {
            assert(stacks@[from as int]@ =~= f0.take(f0.len() - (moved + 1)));
            assert(c == f0[f0.len() - moved - 1]);
            assert(stacks@[to as int]@ =~= t0 + f0.skip(f0.len() - (moved + 1)).reverse());
        }
        moved += 1;
    }
}

/// Move `n` crates in one grab: they keep their order.
#[verifier::loop_isolation(false)]
pub fn exec2(stacks: &mut Vec<Vec<char>>, op: Op)
    requires
        1 <= op.1 <= old(stacks)@.len(),
        1 <= op.2 <= old(stacks)@.len(),
        op.1 != op.2,
        op.0 <= old(stacks)@[op.1 - 1]@.len(),
    ensures
        final(stacks)@.len() == old(stacks)@.len(),
        final(stacks)@[op.1 - 1]@ == old(stacks)@[op.1 - 1]@.take(
            old(stacks)@[op.1 - 1]@.len() - op.0,
        ),
        final(stacks)@[op.2 - 1]@ == old(stacks)@[op.2 - 1]@ + lifted(
            old(stacks)@[op.1 - 1]@,
            op.0 as int,
        ),
        forall|k: int|
            0 <= k < old(stacks)@.len() && k != op.1 - 1 && k != op.2 - 1
                ==> #[trigger] final(stacks)@[k] == old(stacks)@[k],
{
    let from = op.1 - 1;
    let to = op.2 - 1;
    let ghost f0 = stacks@[from as int]@;
    let ghost t0 = stacks@[to as int]@;
    let flen = stacks[from].len();
    let base = flen - (op.0 as usize);
    let mut i: usize = 0;
    while i < op.0 as usize
        invariant
            i <= op.0,
            base == f0.len() - op.0,
            stacks@.len() == old(stacks)@.len(),
            stacks@[from as int]@ == f0,
            stacks@[to as int]@ == t0 + f0.subrange(base as int, base + i),
            forall|k: int|
                0 <= k < old(stacks)@.len() && k != from && k != to ==> #[trigger] stacks@[k]
                    == old(stacks)@[k],
        decreases op.0 - i,
    {
        let c = stacks[from][base + i];
        stacks[to].push(c);
        proof {
            assert(stacks@[to as int]@ =~= t0 + f0.subrange(base as int, base + i + 1));
        }
        i += 1;
    }
    stacks[from].truncate(base);
    proof {
        assert(stacks@[from as int]@ =~= f0.take(f0.len() - op.0));
        assert(f0.subrange(base as int, base + op.0) =~= lifted(f0, op.0 as int));
    }
}

/// A column of the drawing read bottom-up, skipping blanks.
pub open spec fn column(rows: Seq<Seq<char>>, i: int) -> Seq<char>
    decreases rows.len(),
{
    if rows.len() == 0 {
        Seq::empty()
    } else {
        let top = if rows[0][i] != ' ' {
            seq![rows[0][i]]
        } else {
            Seq::<char>::empty()
        };
        column(rows.drop_first(), i) + top
    }
}

/// Turn the rows of the crate drawing into stacks, one per column, bottom
/// crate first, blanks dropped.
#[verifier::loop_isolation(false)]
pub fn transpose(rows: &Vec<Vec<char>>) -> (v: Vec<Vec<char>>)
    requires
        rows@.len() >= 1,
        forall|r: int| 0 <= r < rows@.len() ==> (#[trigger] rows@[r])@.len() == rows@[0]@.len(),
    ensures
        v@.len() == rows@[0]@.len(),
        forall|i: int| 0 <= i < v@.len() ==> (#[trigger] v@[i])@ == column(
            rows@.map_values(|r: Vec<char>| r@),
            i,
        ),
{
    let ghost rv = rows@.map_values(|r: Vec<char>| r@);
    let width = rows[0].len();
    let mut v: Vec<Vec<char>> = Vec::new();
    let mut i: usize = 0;
    while i < width
        invariant
            i <= width,
            v@.len() == i,
            forall|k: int| 0 <= k < i ==> (#[trigger] v@[k])@ == column(rv, k),
        decreases width - i,
    {
        let mut stack: Vec<char> = Vec::new();
        let mut r: usize = rows.len();
        while r > 0
            invariant
                r <= rows@.len(),
                i < width,
                stack@ == column(rv.skip(r as int), i as int),
            decreases r,
        {
            r -= 1;
            let c = rows[r][i];
            proof {
                assert(rv.skip(r as int).drop_first() =~= rv.skip(r + 1));
                assert(rv.skip(r as int)[0] == rv[r as int]);
            }
            if c != ' ' {
                stack.push(c);
            }
            proof {
                assert(stack@ =~= column(rv.skip(r as int), i as int));
            }
        }
        proof {
            assert(rv.skip(0) =~= rv);
        }
        v.push(stack);
        i += 1;
    }
    v
}

} // verus!
