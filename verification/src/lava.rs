//! Neighbourhood queries on a cloud of unit cubes in a 3D grid: the six
//! face-adjacent positions of a cube, and which of them are occupied.

use vstd::prelude::*;

verus! {

pub type Pos = [u8; 3];

/// `b` differs from `a` by exactly one step along exactly one axis.
pub open spec fn face_adjacent(a: Seq<u8>, b: Seq<u8>) -> bool {
    &&& a.len() == 3
    &&& b.len() == 3
    &&& exists|axis: int|
        0 <= axis < 3 && (b[axis] == a[axis] + 1 || b[axis] == a[axis] - 1)
            && (forall|o: int| 0 <= o < 3 && o != axis ==> b[o] == a[o])
}

/// The neighbours of `p` listed by `adjacent_positions`, in order: the +1
/// step on each axis, then the -1 step on each axis where it stays at or
/// above zero.
pub open spec fn expected_neighbors(p: Seq<u8>) -> Seq<Seq<u8>> {
    let up = seq![
        seq![(p[0] + 1) as u8, p[1], p[2]],
        seq![p[0], (p[1] + 1) as u8, p[2]],
        seq![p[0], p[1], (p[2] + 1) as u8],
    ];
    let d0 = if p[0] > 0 { seq![seq![(p[0] - 1) as u8, p[1], p[2]]] } else { Seq::empty() };
    let d1 = if p[1] > 0 { seq![seq![p[0], (p[1] - 1) as u8, p[2]]] } else { Seq::empty() };
    let d2 = if p[2] > 0 { seq![seq![p[0], p[1], (p[2] - 1) as u8]] } else { Seq::empty() };
    up + d0 + d1 + d2
}

/// A cube position occupies `grid`.
pub open spec fn occupied(grid: Seq<Pos>, v: Seq<u8>) -> bool {
    exists|g: int| 0 <= g < grid.len() && #[trigger] grid[g]@ == v
}

/// Unfolding step for `Seq::filter` over a `push`.
proof fn lemma_filter_push<A>(s: Seq<A>, x: A, pred: spec_fn(A) -> bool)
    ensures
        s.push(x).filter(pred) == if pred(x) {
            s.filter(pred).push(x)
        } else {
            s.filter(pred)
        },
{
    reveal(Seq::filter);
    assert(s.push(x).drop_last() =~= s);
}

/// The face-adjacent positions of `pos` whose coordinates stay at or above
/// zero. The result is exactly `expected_neighbors(pos@)`, and every entry is
/// face-adjacent to `pos`.
pub fn adjacent_positions(pos: Pos) -> (neighbors: Vec<Pos>)
    requires
        forall|k: int| 0 <= k < 3 ==> pos@[k] < 255,
    ensures
        neighbors@.map_values(|q: Pos| q@) =~= expected_neighbors(pos@),
        forall|i: int|
            0 <= i < neighbors@.len() ==> face_adjacent(pos@, #[trigger] neighbors@[i]@),
{
    let x = pos[0];
    let y = pos[1];
    let z = pos[2];
    let mut neighbors: Vec<Pos> = Vec::new();
    neighbors.push([x + 1, y, z]);
    neighbors.push([x, y + 1, z]);
    neighbors.push([x, y, z + 1]);
    if x > 0 {
        neighbors.push([x - 1, y, z]);
    }
    if y > 0 {
        neighbors.push([x, y - 1, z]);
    }
    if z > 0 {
        neighbors.push([x, y, z - 1]);
    }
    proof {
        assert(pos@ =~= seq![x, y, z]);
        assert(neighbors@.map_values(|q: Pos| q@) =~= expected_neighbors(pos@));
        assert forall|i: int|
            0 <= i < neighbors@.len() implies face_adjacent(pos@, #[trigger] neighbors@[i]@) by {
            let q = neighbors@[i]@;
            assert(q == expected_neighbors(pos@)[i]);
            if q[0] != pos@[0] {
                assert((q[0] == pos@[0] + 1 || q[0] == pos@[0] - 1)
                    && (forall|o: int| 0 <= o < 3 && o != 0 ==> q[o] == pos@[o]));
            } else if q[1] != pos@[1] {
                assert((q[1] == pos@[1] + 1 || q[1] == pos@[1] - 1)
                    && (forall|o: int| 0 <= o < 3 && o != 1 ==> q[o] == pos@[o]));
            } else {
                assert((q[2] == pos@[2] + 1 || q[2] == pos@[2] - 1)
                    && (forall|o: int| 0 <= o < 3 && o != 2 ==> q[o] == pos@[o]));
            }
        }
    }
    neighbors
}

/// Linear membership test on the cube cloud.
pub fn grid_contains(grid: &Vec<Pos>, q: &Pos) -> (r: bool)
    ensures
        r == occupied(grid@, q@),
{
    let mut i: usize = 0;
    while i < grid.len()
        invariant
            i <= grid@.len(),
            forall|g: int| 0 <= g < i ==> #[trigger] grid@[g]@ != q@,
        decreases grid@.len() - i,
    {
        let c = &grid[i];
        if c[0] == q[0] && c[1] == q[1] && c[2] == q[2] {
            proof {
                assert(grid@[i as int]@ =~= q@);
            }
            return true;
        }
        proof {
            if grid@[i as int]@ == q@ {
                assert(grid@[i as int]@[0] == q@[0]);
                assert(grid@[i as int]@[1] == q@[1]);
                assert(grid@[i as int]@[2] == q@[2]);
                assert(false);
            }
        }
        i += 1;
    }
    false
}

/// The face-adjacent positions of `pos` that are occupied in `grid`: exactly
/// the occupied entries of `adjacent_positions(pos)`, kept in order.
pub fn neighbors(grid: &Vec<Pos>, pos: Pos) -> (res: Vec<Pos>)
    requires
        forall|k: int| 0 <= k < 3 ==> pos@[k] < 255,
    ensures
        res@.map_values(|q: Pos| q@) == expected_neighbors(pos@).filter(
            |v: Seq<u8>| occupied(grid@, v),
        ),
        forall|i: int| 0 <= i < res@.len() ==> face_adjacent(pos@, #[trigger] res@[i]@),
{
    let all = adjacent_positions(pos);
    let ghost pred = |v: Seq<u8>| occupied(grid@, v);
    let mut res: Vec<Pos> = Vec::new();
    let mut i: usize = 0;
    proof {
        assert(all@.map_values(|q: Pos| q@).take(0) =~= Seq::<Seq<u8>>::empty());
        assert(Seq::<Seq<u8>>::empty().filter(pred) =~= Seq::<Seq<u8>>::empty());
        assert(res@.map_values(|q: Pos| q@) =~= Seq::<Seq<u8>>::empty());
    }
    while i < all.len()
        invariant
            i <= all@.len(),
            pred == (|v: Seq<u8>| occupied(grid@, v)),
            forall|k: int| 0 <= k < all@.len() ==> face_adjacent(pos@, #[trigger] all@[k]@),
            res@.map_values(|q: Pos| q@) == all@.map_values(|q: Pos| q@).take(i as int).filter(
                pred,
            ),
            forall|k: int| 0 <= k < res@.len() ==> face_adjacent(pos@, #[trigger] res@[k]@),
        decreases all@.len() - i,
    {
        let ghost pre = all@.map_values(|q: Pos| q@).take(i as int);
        proof {
            assert(all@.map_values(|q: Pos| q@).take(i + 1) =~= pre.push(all@[i as int]@));
            lemma_filter_push(pre, all@[i as int]@, pred);
        }
        if grid_contains(grid, &all[i]) {
            res.push(all[i]);
            proof {
                assert(res@.map_values(|q: Pos| q@) =~= pre.filter(pred).push(all@[i as int]@));
            }
        }
        i += 1;
    }
    proof {
        assert(all@.map_values(|q: Pos| q@).take(all@.len() as int) =~= all@.map_values(
            |q: Pos| q@,
        ));
        assert(all@.map_values(|q: Pos| q@) =~= expected_neighbors(pos@));
    }
    res
}

} // verus!
