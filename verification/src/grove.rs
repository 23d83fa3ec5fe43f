//! Walking the grove map: a board of rows with per-row offsets, flat
//! wrap-around movement, and the hard-wired cube folding of the fifty-wide
//! net used by the full puzzle.

use vstd::prelude::*;

verus! {

#[derive(Debug, Clone, Copy)]
pub enum Ins {
    Walk(usize),
    L,
    R,
}

#[derive(Debug, Clone, Copy, PartialEq, Eq, Structural)]
pub enum Dir {
    W,
    E,
    N,
    S,
}

#[derive(Debug, PartialEq, Eq, Clone, Copy)]
pub struct P {
    /// `(row, column)`
    pub pos: (usize, usize),
    pub dir: Dir,
}

impl P {
    pub fn south(&self) -> (r: bool)
        ensures
            r == (self.dir == Dir::S),
    {
        matches!(self.dir, Dir::S)
    }

    pub fn north(&self) -> (r: bool)
        ensures
            r == (self.dir == Dir::N),
    {
        matches!(self.dir, Dir::N)
    }

    pub fn west(&self) -> (r: bool)
        ensures
            r == (self.dir == Dir::W),
    {
        matches!(self.dir, Dir::W)
    }

    pub fn east(&self) -> (r: bool)
        ensures
            r == (self.dir == Dir::E),
    {
        matches!(self.dir, Dir::E)
    }
}

pub open spec fn facing_value(d: Dir) -> int {
    match d {
        Dir::E => 0,
        Dir::S => 1,
        Dir::W => 2,
        Dir::N => 3,
    }
}

/// Final password: row and column are 1-based, the facing is encoded.
pub fn password(p: &P) -> (code: usize)
    requires
        1000 * (p.pos.0 + 1) + 4 * (p.pos.1 + 1) + 3 <= usize::MAX,
    ensures
        code == 1000 * (p.pos.0 + 1) + 4 * (p.pos.1 + 1) + facing_value(p.dir),
{
    let (y, x) = p.pos;
    let f: usize = match p.dir {
        Dir::E => 0,
        Dir::S => 1,
        Dir::W => 2,
        Dir::N => 3,
    };
    1000 * (y + 1) + 4 * (x + 1) + f
}

pub open spec fn turn_spec(facing: Dir, side: Ins) -> Dir {
    match (facing, side) {
        (Dir::W, Ins::L) | (Dir::E, Ins::R) => Dir::S,
        (Dir::W, Ins::R) | (Dir::E, Ins::L) => Dir::N,
        (Dir::N, Ins::L) | (Dir::S, Ins::R) => Dir::W,
        _ => Dir::E,
    }
}

/// Rotate the facing a quarter turn left or right.
pub fn turn(facing: Dir, side: Ins) -> (d: Dir)
    requires
        !(side matches Ins::Walk(_)),
    ensures
        d == turn_spec(facing, side),
{
    match (facing, side) {
        (Dir::W, Ins::L) | (Dir::E, Ins::R) => Dir::S,
        (Dir::W, Ins::R) | (Dir::E, Ins::L) => Dir::N,
        (Dir::N, Ins::L) | (Dir::S, Ins::R) => Dir::W,
        (Dir::N, Ins::R) | (Dir::S, Ins::L) => Dir::E,
        _ => {
            proof {
                assert(false);
            }
            Dir::E
        },
    }
}

/// The fifty-wide cube net: which `(row, column)` cells exist.
pub open spec fn cube_pos_valid(pos: (int, int)) -> bool {
    let (y, x) = pos;
    ||| (0 <= y < 50 && 50 <= x < 150)
    ||| (50 <= y < 100 && 50 <= x < 100)
    ||| (100 <= y < 150 && 0 <= x < 100)
    ||| (150 <= y < 200 && 0 <= x < 50)
}

/// One step over the folded cube: crossing an edge of the net teleports to
/// the glued edge with a new facing; interior steps move one cell.
pub open spec fn cube_step(p: P) -> P {
    let (y, x) = (p.pos.0 as int, p.pos.1 as int);
    let (y0, x0, d0): (int, int, Dir) = if p.dir == Dir::W && x == 50 && y < 50 {
        (150 - (y + 1), 0, Dir::E)
    } else if p.dir == Dir::W && x == 0 && 100 <= y < 150 {
        (50 - (y - 100 + 1), 50, Dir::E)
    } else if p.dir == Dir::W && x == 50 && 50 <= y < 100 {
        (100, y - 50, Dir::S)
    } else if p.dir == Dir::N && y == 100 && x < 50 {
        (50 + x, 50, Dir::E)
    } else if p.dir == Dir::S && y == 49 && 100 <= x < 150 {
        (x - 50, 99, Dir::W)
    } else if p.dir == Dir::E && x == 99 && 50 <= y < 100 {
        (49, y + 50, Dir::N)
    } else if p.dir == Dir::E && x == 99 && 100 <= y < 150 {
        (50 - (y - 100 + 1), 149, Dir::W)
    } else if p.dir == Dir::E && x == 149 && y < 50 {
        (150 - (y + 1), 99, Dir::W)
    } else if p.dir == Dir::S && y == 149 && 50 <= x < 100 {
        (150 + (x - 50), 49, Dir::W)
    } else if p.dir == Dir::E && x == 49 && 150 <= y < 200 {
        (149, 50 + (y - 150), Dir::N)
    } else if p.dir == Dir::N && y == 0 && 100 <= x < 150 {
        (199, x - 100, Dir::N)
    } else if p.dir == Dir::S && y == 199 && x < 50 {
        (0, x + 100, Dir::S)
    } else if p.dir == Dir::W && x == 0 && 150 <= y < 200 {
        (0, 50 + (y - 150), Dir::S)
    } else if p.dir == Dir::N && y == 0 && 50 <= x < 150 {
        (150 + (x - 50), 0, Dir::E)
    } else {
        match p.dir {
            Dir::W => (y, x - 1, Dir::W),
            Dir::E => (y, x + 1, Dir::E),
            Dir::N => (y - 1, x, Dir::N),
            Dir::S => (y + 1, x, Dir::S),
        }
    };
    P { pos: (y0 as usize, x0 as usize), dir: d0 }
}

/// Take one step over the folded cube. The result is `cube_step`, and stays
/// on the net.
#[verifier::rlimit(60)]
pub fn next_pos_cube(p: &P) -> (q: P)
    requires
        cube_pos_valid((p.pos.0 as int, p.pos.1 as int)),
    ensures
        q == cube_step(*p),
        cube_pos_valid((q.pos.0 as int, q.pos.1 as int)),
{
    let (y, x) = p.pos;
    let west = matches!(p.dir, Dir::W);
    let east = matches!(p.dir, Dir::E);
    let north = matches!(p.dir, Dir::N);
    let south = matches!(p.dir, Dir::S);
    let (y0, x0, d0): (usize, usize, Dir) = if west && x == 50 && y < 50 {
        (150 - (y + 1), 0, Dir::E)
    } else if west && x == 0 && 100 <= y && y < 150 {
        (50 - (y - 100 + 1), 50, Dir::E)
    } else if west && x == 50 && 50 <= y && y < 100 {
        (100, y - 50, Dir::S)
    } else if north && y == 100 && x < 50 {
        (50 + x, 50, Dir::E)
    } else if south && y == 49 && 100 <= x && x < 150 {
        (x - 50, 99, Dir::W)
    } else if east && x == 99 && 50 <= y && y < 100 {
        (49, y + 50, Dir::N)
    } else if east && x == 99 && 100 <= y && y < 150 {
        (50 - (y - 100 + 1), 149, Dir::W)
    } else if east && x == 149 && y < 50 {
        (150 - (y + 1), 99, Dir::W)
    } else if south && y == 149 && 50 <= x && x < 100 {
        (150 + (x - 50), 49, Dir::W)
    } else if east && x == 49 && 150 <= y && y < 200 {
        (149, 50 + (y - 150), Dir::N)
    } else if north && y == 0 && 100 <= x && x < 150 {
        (199, x - 100, Dir::N)
    } else if south && y == 199 && x < 50 {
        (0, x + 100, Dir::S)
    } else if west && x == 0 && 150 <= y && y < 200 {
        (0, 50 + (y - 150), Dir::S)
    } else if north && y == 0 && 50 <= x && x < 150 {
        (150 + (x - 50), 0, Dir::E)
    } else {
        match p.dir {
            Dir::W => (y, x - 1, Dir::W),
            Dir::E => (y, x + 1, Dir::E),
            Dir::N => (y - 1, x, Dir::N),
            Dir::S => (y + 1, x, Dir::S),
        }
    };
    P { pos: (y0, x0), dir: d0 }
}

/// The board: row `y` holds columns `offsets[y] .. offsets[y] + lengths[y]`,
/// stored without the leading blank columns.
#[derive(Debug)]
pub struct Board {
    pub rows: Vec<Vec<char>>,
    pub offsets: Vec<usize>,
    pub lengths: Vec<usize>,
}

pub open spec fn board_wf(m: Board) -> bool {
    &&& m.rows@.len() >= 1
    &&& m.offsets@.len() == m.rows@.len()
    &&& m.lengths@.len() == m.rows@.len()
    &&& forall|y: int|
        0 <= y < m.rows@.len() ==> (#[trigger] m.rows@[y])@.len() == m.lengths@[y]
    &&& forall|y: int| 0 <= y < m.rows@.len() ==> #[trigger] m.lengths@[y] >= 1
    &&& forall|y: int|
        0 <= y < m.rows@.len() ==> #[trigger] m.offsets@[y] + m.lengths@[y] <= usize::MAX
}

/// A cell named by absolute coordinates exists on the board.
pub open spec fn on_board(m: Board, y: int, x: int) -> bool {
    0 <= y < m.rows@.len() && m.offsets@[y] <= x < m.offsets@[y] + m.lengths@[y]
}

/// The tile at absolute coordinates.
pub open spec fn tile_at(m: Board, y: int, x: int) -> char {
    m.rows@[y]@[x - m.offsets@[y]]
}

impl Board {
    /// The tile at an absolute position.
    pub fn tile(&self, y: usize, x: usize) -> (c: char)
        requires
            board_wf(*self),
            on_board(*self, y as int, x as int),
        ensures
            c == tile_at(*self, y as int, x as int),
    {
        self.rows[y][x - self.offsets[y]]
    }

    /// The leftmost open tile of the top row, where every walk begins.
    #[verifier::loop_isolation(false)]
    pub fn start(&self) -> (s: (usize, usize))
        requires
            board_wf(*self),
            exists|x: int| on_board(*self, 0, x) && tile_at(*self, 0, x) != '#',
        ensures
            s.0 == 0,
            on_board(*self, 0, s.1 as int),
            tile_at(*self, 0, s.1 as int) != '#',
            forall|x: int| self.offsets@[0] <= x < s.1 ==> tile_at(*self, 0, x) == '#',
    {
        let mut x = self.offsets[0];
        while self.tile(0, x) == '#'
            invariant
                on_board(*self, 0, x as int),
                forall|w: int| self.offsets@[0] <= w < x ==> tile_at(*self, 0, w) == '#',
            decreases self.offsets@[0] + self.lengths@[0] - x,
        {
            proof {
                let w = choose|w: int| on_board(*self, 0, w) && tile_at(*self, 0, w) != '#';
                assert(w > x);
            }
            x += 1;
        }
        (0, x)
    }
}


/// Scan upwards (towards row 0) for the lowest row whose span strictly
/// contains column `x`.
pub open spec fn scan_down(m: Board, x: int, y0: int) -> int
    decreases y0 + 1,
{
    if y0 < 0 {
        -1
    } else if m.offsets@[y0] < x < m.offsets@[y0] + m.lengths@[y0] {
        y0
    } else {
        scan_down(m, x, y0 - 1)
    }
}

/// Scan downwards for the first row that starts strictly left of column `x`.
pub open spec fn scan_up(m: Board, x: int, y0: int) -> int
    decreases m.rows@.len() - y0,
{
    if y0 < 0 || y0 >= m.rows@.len() {
        m.rows@.len() as int
    } else if m.offsets@[y0] < x {
        y0
    } else {
        scan_up(m, x, y0 + 1)
    }
}

/// One step on the flat board: wrap to the opposite side of the row or
/// column when walking off an edge.
pub open spec fn flat_step(m: Board, p: P) -> (int, int) {
    let (y, x) = (p.pos.0 as int, p.pos.1 as int);
    if p.dir == Dir::N && (y == 0 || !on_board(m, y - 1, x)) {
        (scan_down(m, x, m.rows@.len() - 1), x)
    } else if p.dir == Dir::S && !on_board(m, y + 1, x) {
        (scan_up(m, x, 0), x)
    } else if p.dir == Dir::W && x == m.offsets@[y] {
        (y, m.offsets@[y] + m.lengths@[y] - 1 as int)
    } else if p.dir == Dir::E && x == m.offsets@[y] + m.lengths@[y] - 1 {
        (y, m.offsets@[y] as int)
    } else {
        match p.dir {
            Dir::W => (y, x - 1),
            Dir::E => (y, x + 1),
            Dir::N => (y - 1, x),
            Dir::S => (y + 1, x),
        }
    }
}

/// The wrap scans the step needs will succeed.
pub open spec fn flat_step_safe(m: Board, p: P) -> bool {
    let (y, x) = (p.pos.0 as int, p.pos.1 as int);
    &&& (p.dir == Dir::N && (y == 0 || !on_board(m, y - 1, x)) ==> exists|w: int|
        0 <= w < m.rows@.len() && m.offsets@[w] < x < #[trigger] m.offsets@[w]
            + m.lengths@[w])
    &&& (p.dir == Dir::S && !on_board(m, y + 1, x) ==> (exists|w: int|
        0 <= w < m.rows@.len() && #[trigger] m.offsets@[w] < x) && ({
        let w = scan_up(m, x, 0);
        0 <= w < m.rows@.len() && x < m.offsets@[w] + m.lengths@[w]
    }))
}

/// One step on the flat board, wrapping around row and column ends.
#[verifier::loop_isolation(false)]
pub fn next_pos(map: &Board, p: &P) -> (q: (usize, usize))
    requires
        board_wf(*map),
        on_board(*map, p.pos.0 as int, p.pos.1 as int),
        flat_step_safe(*map, *p),
    ensures
        (q.0 as int, q.1 as int) == flat_step(*map, *p),
        on_board(*map, flat_step(*map, *p).0, flat_step(*map, *p).1),
{
    let (y, x) = p.pos;
    let rlen = map.rows.len();
    proof {
        assert(y < rlen);
        assert(map.offsets@[y as int] + map.lengths@[y as int] <= usize::MAX);
    }
    let up_off = if y == 0 {
        true
    } else {
        !(self_on_board(map, y - 1, x))
    };
    if matches!(p.dir, Dir::N) && up_off {
        let mut y0 = map.rows.len() - 1;
        while map.offsets[y0] >= x || x >= map.offsets[y0] + map.lengths[y0]
            invariant
                0 <= y0 < map.rows@.len(),
                scan_down(*map, x as int, map.rows@.len() - 1) == scan_down(*map, x as int, y0 as int),
                exists|w: int|
                    0 <= w <= y0 && map.offsets@[w] < x < #[trigger] map.offsets@[w]
                        + map.lengths@[w],
            decreases y0,
        {
            proof {
                let w = choose|w: int|
                    0 <= w <= y0 && map.offsets@[w] < x < #[trigger] map.offsets@[w]
                        + map.lengths@[w];
                assert(w < y0);
            }
            y0 -= 1;
        }
        (y0, x)
    } else if matches!(p.dir, Dir::S) && !self_on_board(map, y + 1, x) {
        let mut y0: usize = 0;
        while map.offsets[y0] >= x
            invariant
                0 <= y0 < map.rows@.len(),
                scan_up(*map, x as int, 0) == scan_up(*map, x as int, y0 as int),
                exists|w: int| y0 <= w < map.rows@.len() && #[trigger] map.offsets@[w] < x,
            decreases map.rows@.len() - y0,
        {
            proof {
                let w = choose|w: int|
                    y0 <= w < map.rows@.len() && #[trigger] map.offsets@[w] < x;
                assert(w > y0);
            }
            y0 += 1;
        }
        proof {
            assert(scan_up(*map, x as int, y0 as int) == y0 as int);
        }
        (y0, x)
    } else if matches!(p.dir, Dir::W) && x == map.offsets[y] {
        (y, map.offsets[y] + map.lengths[y] - 1)
    } else if matches!(p.dir, Dir::E) && x == map.offsets[y] + map.lengths[y] - 1 {
        (y, map.offsets[y])
    } else {
        match p.dir {
            Dir::W => (y, x - 1),
            Dir::E => (y, x + 1),
            Dir::N => (y - 1, x),
            Dir::S => (y + 1, x),
        }
    }
}

/// Does the board hold a cell at these coordinates?
fn self_on_board(map: &Board, y: usize, x: usize) -> (r: bool)
    requires
        board_wf(*map),
    ensures
        r == on_board(*map, y as int, x as int),
{
    y < map.rows.len() && map.offsets[y] <= x && x - map.offsets[y] < map.lengths[y]
}

/// The position after walking up to `n` flat steps, stopping at a wall.
pub open spec fn walk_spec(m: Board, p: P, n: int) -> P
    decreases n,
{
    if n <= 0 {
        p
    } else {
        let t = flat_step(m, p);
        if tile_at(m, t.0, t.1) == '.' {
            walk_spec(m, P { pos: (t.0 as usize, t.1 as usize), dir: p.dir }, n - 1)
        } else {
            p
        }
    }
}

/// Every one of up to `n` flat steps lands on the board without the wrap
/// scans failing.
pub open spec fn walk_ok(m: Board, p: P, n: int) -> bool
    decreases n,
{
    n <= 0 || {
        let t = flat_step(m, p);
        &&& flat_step_safe(m, p)
        &&& on_board(m, t.0, t.1)
        &&& (tile_at(m, t.0, t.1) == '.' ==> walk_ok(
            m,
            P { pos: (t.0 as usize, t.1 as usize), dir: p.dir },
            n - 1,
        ))
    }
}

/// Walk up to `n` steps on the flat board, stopping early at a wall.
#[verifier::loop_isolation(false)]
pub fn walk(map: &Board, p: &mut P, n: usize)
    requires
        board_wf(*map),
        on_board(*map, old(p).pos.0 as int, old(p).pos.1 as int),
        walk_ok(*map, *old(p), n as int),
    ensures
        *final(p) == walk_spec(*map, *old(p), n as int),
{
    let mut left = n;
    while left > 0
        invariant
            on_board(*map, p.pos.0 as int, p.pos.1 as int),
            walk_ok(*map, *p, left as int),
            walk_spec(*map, *p, left as int) == walk_spec(*map, *old(p), n as int),
        decreases left,
    {
        let target = next_pos(map, p);
        if map.tile(target.0, target.1) == '.' {
            p.pos = target;
        } else {
            proof {
                assert(walk_spec(*map, *p, left as int) == *p);
            }
            return ;
        }
        left -= 1;
    }
}

/// The board carries the whole fifty-wide cube net.
pub open spec fn covers_net(m: Board) -> bool {
    forall|y: int, x: int| cube_pos_valid((y, x)) ==> #[trigger] on_board(m, y, x)
}

/// The position after walking up to `n` cube steps, stopping at a wall.
pub open spec fn walk_cube_spec(m: Board, p: P, n: int) -> P
    decreases n,
{
    if n <= 0 {
        p
    } else {
        let t = cube_step(p);
        if tile_at(m, t.pos.0 as int, t.pos.1 as int) == '.' {
            walk_cube_spec(m, t, n - 1)
        } else {
            p
        }
    }
}

/// Walk up to `n` steps over the folded cube, stopping early at a wall.
#[verifier::loop_isolation(false)]
pub fn walk_cube(map: &Board, p: &mut P, n: usize)
    requires
        board_wf(*map),
        covers_net(*map),
        cube_pos_valid((old(p).pos.0 as int, old(p).pos.1 as int)),
    ensures
        *final(p) == walk_cube_spec(*map, *old(p), n as int),
{
    let mut left = n;
    while left > 0
        invariant
            cube_pos_valid((p.pos.0 as int, p.pos.1 as int)),
            walk_cube_spec(*map, *p, left as int) == walk_cube_spec(*map, *old(p), n as int),
        decreases left,
    {
        let target = next_pos_cube(p);
        if map.tile(target.pos.0, target.pos.1) == '.' {
            *p = target;
        } else {
            proof {
                assert(walk_cube_spec(*map, *p, left as int) == *p);
            }
            return ;
        }
        left -= 1;
    }
}

} // verus!
