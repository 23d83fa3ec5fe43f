//! The yelling-monkey expression tree: each monkey either knows a constant
//! or combines two other monkeys, named here by index.

use vstd::prelude::*;

verus! {

#[derive(Debug, Clone, Copy)]
pub enum Monkey {
    K(u64),
    Add(usize, usize),
    Sub(usize, usize),
    Mul(usize, usize),
    Div(usize, usize),
}

impl Monkey {
    /// Does this monkey yell a plain constant?
    pub fn is_k(&self) -> (r: bool)
        ensures
            r == (self matches Monkey::K(_)),
    {
        matches!(self, Monkey::K(_))
    }

    /// Does this monkey listen to the monkey named `id`?
    pub fn needs(&self, id: usize) -> (r: bool)
        ensures
            r == needs_spec(*self, id),
    {
        match self {
            Monkey::K(_) => false,
            Monkey::Add(a, b) | Monkey::Sub(a, b) | Monkey::Mul(a, b) | Monkey::Div(a, b) => {
                *a == id || *b == id
            },
        }
    }

    /// The two monkeys this one listens to.
    pub fn operands(&self) -> (ops: [usize; 2])
        requires
            !(self matches Monkey::K(_)),
        ensures
            match *self {
                Monkey::K(_) => false,
                Monkey::Add(a, b) => ops@[0] == a && ops@[1] == b,
                Monkey::Sub(a, b) => ops@[0] == a && ops@[1] == b,
                Monkey::Mul(a, b) => ops@[0] == a && ops@[1] == b,
                Monkey::Div(a, b) => ops@[0] == a && ops@[1] == b,
            },
    {
        match self {
            Monkey::Add(a, b) | Monkey::Sub(a, b) | Monkey::Mul(a, b) | Monkey::Div(a, b) => {
                [*a, *b]
            },
            Monkey::K(_) => {
                proof {
                    assert(false);
                }
                [0, 0]
            },
        }
    }
}

/// The monkey combines the number yelled by `id`.
pub open spec fn needs_spec(m: Monkey, id: usize) -> bool {
    match m {
        Monkey::K(_) => false,
        Monkey::Add(a, b) => a == id || b == id,
        Monkey::Sub(a, b) => a == id || b == id,
        Monkey::Mul(a, b) => a == id || b == id,
        Monkey::Div(a, b) => a == id || b == id,
    }
}

/// Every combining monkey names monkeys of the troop.
pub open spec fn monkeys_wf(ms: Seq<Monkey>) -> bool {
    forall|i: int|
        0 <= i < ms.len() ==> match #[trigger] ms[i] {
            Monkey::K(_) => true,
            Monkey::Add(a, b) => a < ms.len() && b < ms.len(),
            Monkey::Sub(a, b) => a < ms.len() && b < ms.len(),
            Monkey::Mul(a, b) => a < ms.len() && b < ms.len(),
            Monkey::Div(a, b) => a < ms.len() && b < ms.len(),
        }
}

/// An operation to invert, recording which side held the known operand.
#[derive(Debug, Clone, Copy, PartialEq, Eq, Structural)]
pub enum Op {
    Add,
    Mul,
    /// known operand on the left
    Divl,
    /// known operand on the right
    Divr,
    /// known operand on the left
    Subl,
    /// known operand on the right
    Subr,
}

/// Solve `op(.., x, ..) == target` for the unknown operand `x`, given the
/// known operand. Division is the truncating whole-number division of the
/// evaluator.
pub fn reverse_op(op: Op, target: u64, operand: u64) -> (x: u64)
    requires
        op == Op::Add ==> target >= operand,
        op == Op::Mul ==> operand != 0,
        op == Op::Divl ==> target != 0,
        op == Op::Divr ==> target * operand <= u64::MAX,
        op == Op::Subl ==> operand >= target,
        op == Op::Subr ==> target + operand <= u64::MAX,
    ensures
        x == match op {
            Op::Add => (target - operand) as u64,
            Op::Mul => (target / operand) as u64,
            Op::Divl => (operand / target) as u64,
            Op::Divr => (target * operand) as u64,
            Op::Subl => (operand - target) as u64,
            Op::Subr => (target + operand) as u64,
        },
{
    match op {
        Op::Add => target - operand,
        Op::Mul => target / operand,
        Op::Divl => operand / target,
        Op::Divr => target * operand,
        Op::Subl => operand - target,
        Op::Subr => target + operand,
    }
}


/// The number a monkey yells, given the numbers `m` already heard.
pub open spec fn mval(ms: Seq<Monkey>, m: Map<int, int>, i: int) -> int {
    match ms[i] {
        Monkey::K(k) => k as int,
        Monkey::Add(a, b) => m[a as int] + m[b as int],
        Monkey::Sub(a, b) => m[a as int] - m[b as int],
        Monkey::Mul(a, b) => m[a as int] * m[b as int],
        Monkey::Div(a, b) => m[a as int] / m[b as int],
    }
}

/// The numbers heard after the first `k` monkeys of the queue have yelled.
pub open spec fn vals_after(ms: Seq<Monkey>, queue: Seq<usize>, k: int) -> Map<int, int>
    decreases k,
{
    if k <= 0 {
        Map::empty()
    } else {
        let m = vals_after(ms, queue, k - 1);
        m.insert(queue[k - 1] as int, mval(ms, m, queue[k - 1] as int))
    }
}

/// `id` yells somewhere in the first `k` places of the queue.
pub open spec fn appears_before(queue: Seq<usize>, k: int, id: usize) -> bool {
    exists|j: int| 0 <= j < k && queue[j] == id
}

/// The order half of a usable queue: ids are in range, and every combining
/// monkey's operands yell at earlier positions.
pub open spec fn queue_ordered(ms: Seq<Monkey>, queue: Seq<usize>) -> bool {
    forall|k: int|
        0 <= k < queue.len() ==> {
            let i = #[trigger] queue[k] as int;
            &&& i < ms.len()
            &&& match ms[i] {
                Monkey::K(_) => true,
                Monkey::Add(a, b) => appears_before(queue, k, a) && appears_before(queue, k, b),
                Monkey::Sub(a, b) => appears_before(queue, k, a) && appears_before(queue, k, b),
                Monkey::Mul(a, b) => appears_before(queue, k, a) && appears_before(queue, k, b),
                Monkey::Div(a, b) => appears_before(queue, k, a) && appears_before(queue, k, b),
            }
        }
}

/// The arithmetic half of a usable queue: every number yelled stays a whole
/// `u64` — no overflow, no borrow below zero, no division by zero.
pub open spec fn queue_arith_ok(ms: Seq<Monkey>, queue: Seq<usize>) -> bool {
    forall|k: int|
        0 <= k < queue.len() ==> {
            let i = #[trigger] queue[k] as int;
            let m = vals_after(ms, queue, k);
            &&& match ms[i] {
                Monkey::K(_) => true,
                Monkey::Add(_, _) => true,
                Monkey::Sub(a, b) => m[a as int] >= m[b as int],
                Monkey::Mul(_, _) => true,
                Monkey::Div(_, b) => m[b as int] >= 1,
            }
            &&& 0 <= mval(ms, m, i) <= u64::MAX
        }
}

/// A usable evaluation order: operands yell first, numbers stay in range.
pub open spec fn queue_ok(ms: Seq<Monkey>, queue: Seq<usize>) -> bool {
    queue_ordered(ms, queue) && queue_arith_ok(ms, queue)
}

/// A monkey has yelled within the first `k` places exactly when its number
/// has been heard.
proof fn lemma_vals_domain(ms: Seq<Monkey>, queue: Seq<usize>, k: int, id: usize)
    requires
        0 <= k <= queue.len(),
    ensures
        vals_after(ms, queue, k).contains_key(id as int) <==> appears_before(queue, k, id),
    decreases k,
{
    if k > 0 {
        lemma_vals_domain(ms, queue, k - 1, id);
        if appears_before(queue, k, id) && queue[k - 1] != id {
            let j = choose|j: int| 0 <= j < k && queue[j] == id;
            assert(0 <= j < k - 1 && queue[j] == id);
        }
    }
}

/// In an ordered queue, the operands of the monkey at place `k` are in range
/// and already heard.
proof fn lemma_operands_ready(ms: Seq<Monkey>, queue: Seq<usize>, k: int)
    requires
        queue_ordered(ms, queue),
        0 <= k < queue.len(),
    ensures
        ({
            let i = queue[k] as int;
            let m = vals_after(ms, queue, k);
            match ms[i] {
                Monkey::K(_) => true,
                Monkey::Add(a, b) => a < ms.len() && b < ms.len() && m.contains_key(a as int)
                    && m.contains_key(b as int),
                Monkey::Sub(a, b) => a < ms.len() && b < ms.len() && m.contains_key(a as int)
                    && m.contains_key(b as int),
                Monkey::Mul(a, b) => a < ms.len() && b < ms.len() && m.contains_key(a as int)
                    && m.contains_key(b as int),
                Monkey::Div(a, b) => a < ms.len() && b < ms.len() && m.contains_key(a as int)
                    && m.contains_key(b as int),
            }
        }),
{
    let i = queue[k] as int;
    match ms[i] {
        Monkey::K(_) => {},
        Monkey::Add(a, b) | Monkey::Sub(a, b) | Monkey::Mul(a, b) | Monkey::Div(a, b) => {
            lemma_vals_domain(ms, queue, k, a);
            lemma_vals_domain(ms, queue, k, b);
            let ja = choose|j: int| 0 <= j < k && queue[j] == a;
            assert((queue[ja] as int) < ms.len());
            let jb = choose|j: int| 0 <= j < k && queue[j] == b;
            assert((queue[jb] as int) < ms.len());
        },
    }
}

/// Every number heard is a whole `u64`.
#[verifier::rlimit(60)]
proof fn lemma_vals_in_range(ms: Seq<Monkey>, queue: Seq<usize>, k: int, id: int)
    requires
        queue_ok(ms, queue),
        0 <= k <= queue.len(),
        vals_after(ms, queue, k).contains_key(id),
    ensures
        0 <= vals_after(ms, queue, k)[id] <= u64::MAX,
    decreases k,
{
    if k > 0 {
        let m = vals_after(ms, queue, k - 1);
        if id != queue[k - 1] as int {
            lemma_vals_in_range(ms, queue, k - 1, id);
        }
    }
}

/// Replay a yelling order: after the whole queue has yelled, return the
/// number of its last monkey.
#[verifier::loop_isolation(false)]
#[verifier::rlimit(100)]
pub fn yell(monkeys: &Vec<Monkey>, queue: Vec<usize>) -> (r: u64)
    requires
        queue_ok(monkeys@, queue@),
        queue@.len() >= 1,
    ensures
        r == vals_after(monkeys@, queue@, queue@.len() as int)[queue@.last() as int],
{
    let ghost ms = monkeys@;
    let n = monkeys.len();
    let mut values: Vec<Option<u64>> = Vec::new();
    let mut f: usize = 0;
    while f < n
        invariant
            values@.len() == f <= n,
            forall|id: int| 0 <= id < f ==> #[trigger] values@[id] is None,
        decreases n - f,
    {
        values.push(None);
        f += 1;
    }

    let mut k: usize = 0;
    while k < queue.len()
        invariant
            k <= queue@.len(),
            n == ms.len(),
            values@.len() == n,
            forall|id: int|
                0 <= id < n ==> match #[trigger] values@[id] {
                    Some(v) => vals_after(ms, queue@, k as int).contains_key(id) && v
                        == vals_after(ms, queue@, k as int)[id],
                    None => !vals_after(ms, queue@, k as int).contains_key(id),
                },
        decreases queue@.len() - k,
    {
        let id = queue[k];
        let ghost m = vals_after(ms, queue@, k as int);
        proof {
            lemma_operands_ready(ms, queue@, k as int);
        }
        let v: u64 = match &monkeys[id] {
            Monkey::K(c) => *c,
            Monkey::Add(a, b) | Monkey::Sub(a, b) | Monkey::Mul(a, b) | Monkey::Div(a, b) => {
                let va = match values[*a] {
                    Some(v) => v,
                    None => {
                        proof {
                            assert(false);
                        }
                        0
                    },
                };
                let vb = match values[*b] {
                    Some(v) => v,
                    None => {
                        proof {
                            assert(false);
                        }
                        0
                    },
                };
                proof {
                    lemma_vals_in_range(ms, queue@, k as int, *a as int);
                    lemma_vals_in_range(ms, queue@, k as int, *b as int);
                }
                match &monkeys[id] {
                    Monkey::K(_) => {
                        proof {
                            assert(false);
                        }
                        0
                    },
                    Monkey::Add(_, _) => va + vb,
                    Monkey::Sub(_, _) => va - vb,
                    Monkey::Mul(_, _) => va * vb,
                    Monkey::Div(_, _) => va / vb,
                }
            },
        };
        proof {
            assert(v == mval(ms, m, id as int));
            assert(vals_after(ms, queue@, k + 1) =~= m.insert(id as int, mval(ms, m, id as int)));
        }
        values[id] = Some(v);
        k += 1;
    }
    let root = queue[queue.len() - 1];
    proof {
        assert(vals_after(ms, queue@, queue@.len() as int).contains_key(root as int));
    }
    match values[root] {
        Some(v) => v,
        None => {
            proof {
                assert(false);
            }
            0
        },
    }
}


/// Linear membership test.
fn has_id(v: &Vec<usize>, x: usize) -> (r: bool)
    ensures
        r == v@.contains(x),
{
    let mut i: usize = 0;
    while i < v.len()
        invariant
            i <= v@.len(),
            forall|k: int| 0 <= k < i ==> v@[k] != x,
        decreases v@.len() - i,
    {
        if v[i] == x {
            assert(v@[i as int] == x);
            return true;
        }
        i += 1;
    }
    false
}

/// Count of marked entries, used to bound the walk.
spec fn marked_count(s: Seq<bool>) -> int
    decreases s.len(),
{
    if s.len() == 0 {
        0
    } else {
        marked_count(s.drop_last()) + if s.last() {
            1int
        } else {
            0int
        }
    }
}

proof fn lemma_marked_count_bounds(s: Seq<bool>)
    ensures
        0 <= marked_count(s) <= s.len(),
    decreases s.len(),
{
    if s.len() > 0 {
        lemma_marked_count_bounds(s.drop_last());
    }
}

proof fn lemma_marked_count_update(s: Seq<bool>, i: int)
    requires
        0 <= i < s.len(),
        !s[i],
    ensures
        marked_count(s.update(i, true)) == marked_count(s) + 1,
    decreases s.len(),
{
    let u = s.update(i, true);
    if i == s.len() - 1 {
        assert(u.drop_last() =~= s.drop_last());
    } else {
        assert(u.drop_last() =~= s.drop_last().update(i, true));
        lemma_marked_count_update(s.drop_last(), i);
    }
}

/// A duplicate-free list of ids below `n` holds at most `n` entries.
proof fn lemma_distinct_ids_bounded(s: Seq<usize>, n: int)
    requires
        s.no_duplicates(),
        n >= 0,
        forall|i: int| 0 <= i < s.len() ==> #[trigger] s[i] < n,
    ensures
        s.len() <= n,
{
    let si = s.map_values(|u: usize| u as int);
    assert(si.no_duplicates());
    si.unique_seq_to_set();
    assert forall|e: int|
        si.to_set().contains(e) implies vstd::set_lib::set_int_range(0, n).contains(e) by {
        let i = choose|i: int| 0 <= i < si.len() && si[i] == e;
        assert(s[i] < n);
    }
    vstd::set_lib::lemma_int_range(0, n);
    vstd::set_lib::lemma_len_subset(si.to_set(), vstd::set_lib::set_int_range(0, n));
}


proof fn lemma_marked_count_zero(s: Seq<bool>)
    requires
        forall|j: int| 0 <= j < s.len() ==> !(#[trigger] s[j]),
    ensures
        marked_count(s) == 0,
    decreases s.len(),
{
    if s.len() > 0 {
        lemma_marked_count_zero(s.drop_last());
    }
}

/// The constant monkeys the listener chains of `root` lead back to, each
/// listed once, in discovery order. Every monkey is visited at most once.
#[verifier::loop_isolation(false)]
pub fn find_starters(monkeys: &Vec<Monkey>, root: usize) -> (starters: Vec<usize>)
    requires
        monkeys_wf(monkeys@),
        root < monkeys@.len(),
    ensures
        forall|s: int|
            0 <= s < starters@.len() ==> #[trigger] starters@[s] < monkeys@.len() && (
            monkeys@[starters@[s] as int] matches Monkey::K(_)),
        starters@.no_duplicates(),
{
    let n = monkeys.len();
    let mut queued: Vec<bool> = Vec::new();
    let mut f: usize = 0;
    while f < n
        invariant
            queued@.len() == f <= n,
            forall|j: int| 0 <= j < f ==> !(#[trigger] queued@[j]),
        decreases n - f,
    {
        queued.push(false);
        f += 1;
    }
    proof {
        lemma_marked_count_zero(queued@);
    }

    let mut queue: Vec<usize> = Vec::new();
    queue.push(root);
    let ghost q0 = queued@;
    queued[root] = true;
    proof {
        assert(queued@ =~= q0.update(root as int, true));
        lemma_marked_count_update(q0, root as int);
        lemma_marked_count_bounds(queued@);
    }

    let mut collected: Vec<bool> = Vec::new();
    let mut g: usize = 0;
    while g < n
        invariant
            collected@.len() == g <= n,
            forall|j: int| 0 <= j < g ==> !(#[trigger] collected@[j]),
        decreases n - g,
    {
        collected.push(false);
        g += 1;
    }

    let mut starters: Vec<usize> = Vec::new();
    let mut qi: usize = 0;
    while qi < queue.len()
        invariant
            queued@.len() == n,
            collected@.len() == n,
            qi <= queue@.len(),
            forall|j: int|
                0 <= j < queue@.len() ==> #[trigger] queue@[j] < n && queued@[queue@[j] as int],
            queue@.no_duplicates(),
            forall|s: int|
                0 <= s < starters@.len() ==> #[trigger] starters@[s] < n && (
                monkeys@[starters@[s] as int] matches Monkey::K(_)) && collected@[starters@[s] as int],
            starters@.no_duplicates(),
            marked_count(queued@) <= n,
        decreases n - marked_count(queued@), queue@.len() - qi,
    {
        let id = queue[qi];
        qi += 1;
        if monkeys[id].is_k() {
            if !collected[id] {
                let ghost cpre = collected@;
                let ghost starters0 = starters@;
                collected[id] = true;
                starters.push(id);
                proof {
                    assert forall|s1: int, s2: int|
                        0 <= s1 < starters@.len() && 0 <= s2 < starters@.len() && s1 != s2
                        implies starters@[s1] != starters@[s2] by {
                        if s2 == starters@.len() - 1 && s1 < s2 {
                            assert(cpre[starters0[s1] as int]);
                        } else if s1 == starters@.len() - 1 && s2 < s1 {
                            assert(cpre[starters0[s2] as int]);
                        }
                    }
                }
            }
        } else {
            let ops = monkeys[id].operands();
            proof {
                assert(ops@[0] < n && ops@[1] < n);
            }
            let ghost marks_pre = queued@;
            let ghost queue_pre = queue@;
            let mut o: usize = 0;
            while o < 2
                invariant
                    o <= 2,
                    queued@.len() == n,
                    ops@[0] < n && ops@[1] < n,
                    qi <= queue@.len(),
                    forall|j: int|
                        0 <= j < queue@.len() ==> #[trigger] queue@[j] < n
                            && queued@[queue@[j] as int],
                    queue@.no_duplicates(),
                    marked_count(queued@) <= n,
                    queue@.len() >= queue_pre.len(),
                    forall|j: int|
                        0 <= j < queue_pre.len() ==> #[trigger] queue@[j] == queue_pre[j],
                    marked_count(queued@) - queue@.len() == marked_count(marks_pre)
                        - queue_pre.len(),
                decreases 2 - o,
            {
                let op = ops[o];
                if !queued[op] {
                    proof {
                        assert(forall|j: int|
                            0 <= j < queue@.len() ==> #[trigger] queue@[j] != op);
                    }
                    let ghost qpre = queued@;
                    queued[op] = true;
                    proof {
                        assert(queued@ =~= qpre.update(op as int, true));
                        lemma_marked_count_update(qpre, op as int);
                        lemma_marked_count_bounds(queued@);
                    }
                    queue.push(op);
                }
                o += 1;
            }
        }
    }
    starters
}


/// Kahn-style ordering: repeatedly move a ready monkey to the queue; a
/// combining monkey becomes ready once both of its operands have yelled.
/// Ends when `root` is queued. Where the listeners stall — a shape the
/// transcript rules out by failing — the empty queue is returned instead.
/// Any non-empty result ends in `root` and is a valid yelling order.
#[verifier::loop_isolation(false)]
pub fn toposort(monkeys: &Vec<Monkey>, starters: Vec<usize>, root: usize) -> (queue: Vec<usize>)
    requires
        root < monkeys@.len(),
        forall|s: int|
            0 <= s < starters@.len() ==> #[trigger] starters@[s] < monkeys@.len() && (
            monkeys@[starters@[s] as int] matches Monkey::K(_)),
        starters@.no_duplicates(),
    ensures
        queue@.len() >= 1 ==> queue@.last() == root,
        queue_ordered(monkeys@, queue@),
{
    let n = monkeys.len();
    let mut starters = starters;
    let mut queue: Vec<usize> = Vec::new();
    loop
        invariant
            n == monkeys@.len(),
            root < n,
            queue_ordered(monkeys@, queue@),
            queue@.no_duplicates(),
            forall|j: int| 0 <= j < queue@.len() ==> #[trigger] queue@[j] < n,
            queue@.len() <= n,
            starters@.no_duplicates(),
            forall|s: int| 0 <= s < starters@.len() ==> #[trigger] starters@[s] < n,
            forall|s: int, j: int|
                0 <= s < starters@.len() && 0 <= j < queue@.len() ==> (#[trigger] starters@[s])
                    != (#[trigger] queue@[j]),
            // every waiting monkey is ready: a constant, or both operands queued
            forall|s: int|
                0 <= s < starters@.len() ==> match monkeys@[(#[trigger] starters@[s]) as int] {
                    Monkey::K(_) => true,
                    Monkey::Add(a, b) => queue@.contains(a) && queue@.contains(b),
                    Monkey::Sub(a, b) => queue@.contains(a) && queue@.contains(b),
                    Monkey::Mul(a, b) => queue@.contains(a) && queue@.contains(b),
                    Monkey::Div(a, b) => queue@.contains(a) && queue@.contains(b),
                },
        decreases n - queue@.len(),
    {
        let ready = match starters.pop() {
            Some(r) => r,
            None => {
                // the listeners stalled before reaching the root
                return Vec::new();
            },
        };
        let ghost queue0 = queue@;
        queue.push(ready);
        proof {
            assert forall|k: int|
                0 <= k < queue@.len() implies {
                let i = #[trigger] queue@[k] as int;
                &&& i < monkeys@.len()
                &&& match monkeys@[i] {
                    Monkey::K(_) => true,
                    Monkey::Add(a, b) => appears_before(queue@, k, a) && appears_before(
                        queue@,
                        k,
                        b,
                    ),
                    Monkey::Sub(a, b) => appears_before(queue@, k, a) && appears_before(
                        queue@,
                        k,
                        b,
                    ),
                    Monkey::Mul(a, b) => appears_before(queue@, k, a) && appears_before(
                        queue@,
                        k,
                        b,
                    ),
                    Monkey::Div(a, b) => appears_before(queue@, k, a) && appears_before(
                        queue@,
                        k,
                        b,
                    ),
                }
            } by {
                if k < queue0.len() {
                    assert(queue_ordered(monkeys@, queue0));
                    assert(queue0[k] == queue@[k]);
                    match monkeys@[queue0[k] as int] {
                        Monkey::K(_) => {},
                        Monkey::Add(a, b) | Monkey::Sub(a, b) | Monkey::Mul(a, b)
                            | Monkey::Div(a, b) => {
                            let ja = choose|j: int| 0 <= j < k && queue0[j] == a;
                            assert(queue@[ja] == a);
                            let jb = choose|j: int| 0 <= j < k && queue0[j] == b;
                            assert(queue@[jb] == b);
                        },
                    }
                } else {
                    match monkeys@[queue@[k] as int] {
                        Monkey::K(_) => {},
                        Monkey::Add(a, b) | Monkey::Sub(a, b) | Monkey::Mul(a, b)
                            | Monkey::Div(a, b) => {
                            let ja = choose|j: int| 0 <= j < queue0.len() && queue0[j] == a;
                            assert(queue@[ja] == a);
                            let jb = choose|j: int| 0 <= j < queue0.len() && queue0[j] == b;
                            assert(queue@[jb] == b);
                        },
                    }
                }
            }
            assert(queue_ordered(monkeys@, queue@));
            lemma_distinct_ids_bounded(queue@, n as int);
            // the waiting monkeys stay ready: their operands are still queued
            assert forall|s: int|
                0 <= s < starters@.len() implies match monkeys@[(#[trigger] starters@[s]) as int] {
                Monkey::K(_) => true,
                Monkey::Add(a, b) => queue@.contains(a) && queue@.contains(b),
                Monkey::Sub(a, b) => queue@.contains(a) && queue@.contains(b),
                Monkey::Mul(a, b) => queue@.contains(a) && queue@.contains(b),
                Monkey::Div(a, b) => queue@.contains(a) && queue@.contains(b),
            } by {
                match monkeys@[starters@[s] as int] {
                    Monkey::K(_) => {},
                    Monkey::Add(a, b) | Monkey::Sub(a, b) | Monkey::Mul(a, b)
                        | Monkey::Div(a, b) => {
                        assert(queue0.contains(a));
                        let ja = choose|j: int| 0 <= j < queue0.len() && queue0[j] == a;
                        assert(queue@[ja] == a);
                        assert(queue0.contains(b));
                        let jb = choose|j: int| 0 <= j < queue0.len() && queue0[j] == b;
                        assert(queue@[jb] == b);
                    },
                }
            }
        }

        if ready == root {
            return queue;
        }

        // the monkey that listens to `ready`
        let mut pi: usize = 0;
        let mut found = false;
        while pi < n && !found
            invariant
                pi <= n,
                found ==> pi < n && needs_spec(monkeys@[pi as int], ready),
            decreases n - pi, if found {
                0int
            } else {
                1int
            },
        {
            if monkeys[pi].needs(ready) {
                found = true;
            } else {
                pi += 1;
            }
        }
        if !found {
            // no monkey listens to `ready`: the transcript's failure case
            return Vec::new();
        }
        let parent = pi;
        let ops = monkeys[parent].operands();
        if has_id(&queue, ops[0]) && has_id(&queue, ops[1]) && !has_id(&queue, parent)
            && !has_id(&starters, parent) {
            starters.push(parent);
        }
    }
}

/// Split the expression under a combining `root` into its two operand
/// branches, each ordered for yelling by `toposort` over its own constants.
pub fn split_branches(monkeys: &Vec<Monkey>, root: usize) -> (branches: (Vec<usize>, Vec<usize>))
    requires
        monkeys_wf(monkeys@),
        root < monkeys@.len(),
        !(monkeys@[root as int] matches Monkey::K(_)),
    ensures
        queue_ordered(monkeys@, branches.0@),
        queue_ordered(monkeys@, branches.1@),
        ({
            let (a, b) = match monkeys@[root as int] {
                Monkey::K(_) => (0usize, 0usize),
                Monkey::Add(a, b) => (a, b),
                Monkey::Sub(a, b) => (a, b),
                Monkey::Mul(a, b) => (a, b),
                Monkey::Div(a, b) => (a, b),
            };
            &&& (branches.0@.len() >= 1 ==> branches.0@.last() == a)
            &&& (branches.1@.len() >= 1 ==> branches.1@.last() == b)
        }),
{
    let ops = monkeys[root].operands();
    let lq = toposort(monkeys, find_starters(monkeys, ops[0]), ops[0]);
    let rq = toposort(monkeys, find_starters(monkeys, ops[1]), ops[1]);
    (lq, rq)
}

} // verus!
