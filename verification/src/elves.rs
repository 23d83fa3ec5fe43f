//! Neighbourhood queries and bounding-box area for the spreading-elves
//! simulation on an unbounded integer grid.

use vstd::prelude::*;

verus! {

#[derive(Debug, Clone, Copy, PartialEq, Eq, Structural)]
pub enum Dir {
    N,
    S,
    E,
    W,
}

/// Offset a direction proposes.
pub open spec fn dir_delta(d: Dir) -> (int, int) {
    match d {
        Dir::N => (0int, -1int),
        Dir::S => (0int, 1int),
        Dir::E => (1int, 0int),
        Dir::W => ((-1) as int, 0int),
    }
}

/// One step in a proposed direction.
pub fn step(pos: (i32, i32), dir: Dir) -> (q: (i32, i32))
    requires
        i32::MIN < pos.0 < i32::MAX,
        i32::MIN < pos.1 < i32::MAX,
    ensures
        q.0 == pos.0 + dir_delta(dir).0,
        q.1 == pos.1 + dir_delta(dir).1,
{
    match dir {
        Dir::N => (pos.0, pos.1 - 1),
        Dir::S => (pos.0, pos.1 + 1),
        Dir::E => (pos.0 + 1, pos.1),
        Dir::W => (pos.0 - 1, pos.1),
    }
}

/// The eight surrounding offsets, in scan order.
pub open spec fn ring_deltas() -> Seq<(int, int)> {
    seq![
        ((-1) as int, (-1) as int),
        (0int, (-1) as int),
        (1int, (-1) as int),
        ((-1) as int, 0int),
        (1int, 0int),
        ((-1) as int, 1int),
        (0int, 1int),
        (1int, 1int),
    ]
}

/// The eight positions surrounding `pos`, in scan order.
pub fn adjacent_positions(pos: (i32, i32)) -> (res: Vec<(i32, i32)>)
    requires
        i32::MIN < pos.0 < i32::MAX,
        i32::MIN < pos.1 < i32::MAX,
    ensures
        res@.len() == 8,
        forall|k: int|
            0 <= k < 8 ==> (#[trigger] res@[k]).0 == pos.0 + ring_deltas()[k].0 && res@[k].1
                == pos.1 + ring_deltas()[k].1,
{
    let v: Vec<(i32, i32)> = vec![
        (pos.0 - 1, pos.1 - 1),
        (pos.0, pos.1 - 1),
        (pos.0 + 1, pos.1 - 1),
        (pos.0 - 1, pos.1),
        (pos.0 + 1, pos.1),
        (pos.0 - 1, pos.1 + 1),
        (pos.0, pos.1 + 1),
        (pos.0 + 1, pos.1 + 1),
    ];
    v
}

/// The three offsets an elf must check before proposing a move in `dir`.
pub open spec fn side_deltas(dir: Dir) -> Seq<(int, int)> {
    match dir {
        Dir::N => seq![((-1) as int, (-1) as int), (0int, (-1) as int), (1int, (-1) as int)],
        Dir::S => seq![((-1) as int, 1int), (0int, 1int), (1int, 1int)],
        Dir::E => seq![(1int, (-1) as int), (1int, 0int), (1int, 1int)],
        Dir::W => seq![((-1) as int, (-1) as int), ((-1) as int, 0int), ((-1) as int, 1int)],
    }
}

/// The three positions on the `dir` side of `pos`.
pub fn adjacent3(pos: (i32, i32), dir: Dir) -> (res: [(i32, i32); 3])
    requires
        i32::MIN < pos.0 < i32::MAX,
        i32::MIN < pos.1 < i32::MAX,
    ensures
        forall|k: int|
            0 <= k < 3 ==> (#[trigger] res@[k]).0 == pos.0 + side_deltas(dir)[k].0 && res@[k].1
                == pos.1 + side_deltas(dir)[k].1,
{
    let res = match dir {
        Dir::N => [(pos.0 - 1, pos.1 - 1), (pos.0, pos.1 - 1), (pos.0 + 1, pos.1 - 1)],
        Dir::S => [(pos.0 - 1, pos.1 + 1), (pos.0, pos.1 + 1), (pos.0 + 1, pos.1 + 1)],
        Dir::E => [(pos.0 + 1, pos.1 - 1), (pos.0 + 1, pos.1), (pos.0 + 1, pos.1 + 1)],
        Dir::W => [(pos.0 - 1, pos.1 - 1), (pos.0 - 1, pos.1), (pos.0 - 1, pos.1 + 1)],
    };
    res
}

pub open spec fn min_x(s: Seq<(i32, i32)>) -> int
    decreases s.len(),
{
    if s.len() <= 1 {
        s[0].0 as int
    } else {
        let m = min_x(s.drop_last());
        if s.last().0 < m {
            s.last().0 as int
        } else {
            m
        }
    }
}

pub open spec fn max_x(s: Seq<(i32, i32)>) -> int
    decreases s.len(),
{
    if s.len() <= 1 {
        s[0].0 as int
    } else {
        let m = max_x(s.drop_last());
        if s.last().0 > m {
            s.last().0 as int
        } else {
            m
        }
    }
}

pub open spec fn min_y(s: Seq<(i32, i32)>) -> int
    decreases s.len(),
{
    if s.len() <= 1 {
        s[0].1 as int
    } else {
        let m = min_y(s.drop_last());
        if s.last().1 < m {
            s.last().1 as int
        } else {
            m
        }
    }
}

pub open spec fn max_y(s: Seq<(i32, i32)>) -> int
    decreases s.len(),
{
    if s.len() <= 1 {
        s[0].1 as int
    } else {
        let m = max_y(s.drop_last());
        if s.last().1 > m {
            s.last().1 as int
        } else {
            m
        }
    }
}

/// `[min x, min y, max x, max y]` over the elves' positions.
#[verifier::loop_isolation(false)]
pub fn boundaries(elves: &Vec<(i32, i32)>) -> (b: [i32; 4])
    requires
        elves@.len() >= 1,
    ensures
        b@[0] == min_x(elves@),
        b@[1] == min_y(elves@),
        b@[2] == max_x(elves@),
        b@[3] == max_y(elves@),
{
    let mut minx = elves[0].0;
    let mut miny = elves[0].1;
    let mut maxx = elves[0].0;
    let mut maxy = elves[0].1;
    let mut i: usize = 1;
    proof {
        assert(elves@.take(1).drop_last() =~= elves@.take(0));
        assert(minx == min_x(elves@.take(1)));
    }
    while i < elves.len()
        invariant
            1 <= i <= elves@.len(),
            minx == min_x(elves@.take(i as int)),
            miny == min_y(elves@.take(i as int)),
            maxx == max_x(elves@.take(i as int)),
            maxy == max_y(elves@.take(i as int)),
        decreases elves@.len() - i,
    {
        let (x, y) = elves[i];
        proof {
            assert(elves@.take(i + 1).drop_last() =~= elves@.take(i as int));
            assert(elves@.take(i + 1).last() == elves@[i as int]);
        }
        if x < minx {
            minx = x;
        }
        if y < miny {
            miny = y;
        }
        if x > maxx {
            maxx = x;
        }
        if y > maxy {
            maxy = y;
        }
        i += 1;
    }
    proof {
        assert(elves@.take(elves@.len() as int) =~= elves@);
    }
    [minx, miny, maxx, maxy]
}

/// Area of the elves' bounding box.
pub fn total_area(elves: &Vec<(i32, i32)>) -> (area: usize)
    requires
        elves@.len() >= 1,
        (max_x(elves@) - min_x(elves@) + 1) * (max_y(elves@) - min_y(elves@) + 1) <= usize::MAX,
    ensures
        area == (max_x(elves@) - min_x(elves@) + 1) * (max_y(elves@) - min_y(elves@) + 1),
{
    let b = boundaries(elves);
    proof {
        lemma_bounds_order(elves@);
    }
    let w = (b[2] as i64 - b[0] as i64 + 1) as u64;
    let h = (b[3] as i64 - b[1] as i64 + 1) as u64;
    proof {
        assert(w * h <= usize::MAX);
        assert(w >= 1 && h >= 1);
        assert(w * h >= 1) by (nonlinear_arith)
            requires
                w >= 1,
                h >= 1,
        ;
    }
    (w * h) as usize
}

/// The extremes respect each other.
proof fn lemma_bounds_order(s: Seq<(i32, i32)>)
    requires
        s.len() >= 1,
    ensures
        min_x(s) <= max_x(s),
        min_y(s) <= max_y(s),
        i32::MIN <= min_x(s) <= i32::MAX,
        i32::MIN <= max_x(s) <= i32::MAX,
        i32::MIN <= min_y(s) <= i32::MAX,
        i32::MIN <= max_y(s) <= i32::MAX,
    decreases s.len(),
{
    if s.len() > 1 {
        lemma_bounds_order(s.drop_last());
    }
}

} // verus!
