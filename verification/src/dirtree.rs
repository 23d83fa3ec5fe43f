//! A directory tree with per-directory file sizes, a recursive total, and a
//! dive that collects the subtree totals a caller's test accepts.

use vstd::prelude::*;

verus! {

#[derive(Debug)]
pub struct Dir {
    pub size: u32,
    pub subd: Vec<Dir>,
}

impl Dir {
    /// An empty directory.
    pub fn new() -> (d: Dir)
        ensures
            d.size == 0,
            d.subd@.len() == 0,
    {
        Dir { size: 0, subd: Vec::new() }
    }
}

/// Total size of a directory: its own files plus all subdirectories.
pub open spec fn total_spec(d: Dir) -> int
    decreases d, 1int, 0int,
{
    d.size + totals_from(d.subd@, 0)
}

/// Sum of the totals of the directories from position `i` on.
pub open spec fn totals_from(s: Seq<Dir>, i: int) -> int
    decreases s, 0int, s.len() - i,
{
    if i < 0 || i >= s.len() {
        0
    } else {
        total_spec(s[i]) + totals_from(s, i + 1)
    }
}

proof fn lemma_total_nonneg(d: Dir)
    ensures
        total_spec(d) >= 0,
    decreases d, 1int, 0int,
{
    lemma_totals_nonneg(d.subd@, 0);
}

proof fn lemma_totals_nonneg(s: Seq<Dir>, i: int)
    ensures
        totals_from(s, i) >= 0,
    decreases s, 0int, s.len() - i,
{
    if 0 <= i < s.len() {
        lemma_total_nonneg(s[i]);
        lemma_totals_nonneg(s, i + 1);
    }
}

/// Walk the tree, returning the directory's total size and every subtree
/// total that `pred` accepted, deepest directories first.
#[verifier::loop_isolation(false)]
pub fn dive<F: Fn(u32) -> bool>(dir: &Dir, pred: &F) -> (r: (u32, Vec<u32>))
    requires
        total_spec(*dir) <= u32::MAX,
        forall|x: u32| #[trigger] pred.requires((x,)),
    ensures
        r.0 == total_spec(*dir),
        forall|k: int| 0 <= k < r.1@.len() ==> call_ensures(pred, (#[trigger] r.1@[k],), true),
    decreases *dir, 1int, 0int,
{
    let mut total: u32 = dir.size;
    let mut sizes: Vec<u32> = Vec::new();
    let mut i: usize = 0;
    proof {
        lemma_totals_nonneg(dir.subd@, 0);
    }
    while i < dir.subd.len()
        invariant
            i <= dir.subd@.len(),
            total + totals_from(dir.subd@, i as int) == total_spec(*dir),
            total >= 0,
            forall|k: int|
                0 <= k < sizes@.len() ==> call_ensures(pred, (#[trigger] sizes@[k],), true),
        decreases dir.subd@.len() - i,
    {
        proof {
            lemma_total_nonneg(dir.subd@[i as int]);
            lemma_totals_nonneg(dir.subd@, i + 1);
        }
        let sub = &dir.subd[i];
        let (subtotal, subsizes) = dive(sub, pred);
        total = total + subtotal;
        let mut k: usize = 0;
        while k < subsizes.len()
            invariant
                k <= subsizes@.len(),
                forall|w: int|
                    0 <= w < subsizes@.len() ==> call_ensures(
                        pred,
                        (#[trigger] subsizes@[w],),
                        true,
                    ),
                forall|w: int|
                    0 <= w < sizes@.len() ==> call_ensures(pred, (#[trigger] sizes@[w],), true),
            decreases subsizes@.len() - k,
        {
            let s = subsizes[k];
            if pred(s) {
                sizes.push(s);
            }
            k += 1;
        }
        i += 1;
    }
    if pred(total) {
        sizes.push(total);
    }
    (total, sizes)
}

} // verus!
