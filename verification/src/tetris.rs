//! Falling-rock simulation in a seven-wide chamber: the five rock shapes,
//! their tiles, and the chamber buffer with spawn, push, fall and rest
//! checks.

use vstd::prelude::*;

verus! {

pub const CHAMBER_WIDTH: usize = 7;

#[derive(Debug, Clone, Copy, PartialEq, Eq, Structural)]
pub enum Dir {
    L,
    R,
    D,
}

#[derive(Debug, Clone, Copy, PartialEq, Eq, Structural)]
pub enum Polyomino {
    Dash,
    Plus,
    L,
    Pipe,
    Square,
}

#[derive(Debug, Clone, Copy, PartialEq, Eq, Structural)]
pub struct P {
    pub x: usize,
    pub y: usize,
}

impl Polyomino {
    pub open spec fn height_spec(self) -> usize {
        match self {
            Polyomino::Dash => 1usize,
            Polyomino::Plus => 3usize,
            Polyomino::L => 3usize,
            Polyomino::Pipe => 4usize,
            Polyomino::Square => 2usize,
        }
    }

    pub open spec fn width_spec(self) -> usize {
        match self {
            Polyomino::Dash => 4usize,
            Polyomino::Plus => 3usize,
            Polyomino::L => 3usize,
            Polyomino::Pipe => 1usize,
            Polyomino::Square => 2usize,
        }
    }

    /// Rows the shape spans.
    pub fn height(&self) -> (h: usize)
        ensures
            h == self.height_spec(),
    {
        match self {
            Polyomino::Dash => 1,
            Polyomino::Plus => 3,
            Polyomino::L => 3,
            Polyomino::Pipe => 4,
            Polyomino::Square => 2,
        }
    }

    /// Columns the shape spans.
    pub fn width(&self) -> (w: usize)
        ensures
            w == self.width_spec(),
    {
        match self {
            Polyomino::Dash => 4,
            Polyomino::Plus => 3,
            Polyomino::L => 3,
            Polyomino::Pipe => 1,
            Polyomino::Square => 2,
        }
    }
}

/// The five shapes in the order they fall, repeating cyclically.
pub fn polyominos() -> (v: Vec<Polyomino>)
    ensures
        v@ =~= seq![
            Polyomino::Dash,
            Polyomino::Plus,
            Polyomino::L,
            Polyomino::Pipe,
            Polyomino::Square,
        ],
{
    let mut v: Vec<Polyomino> = Vec::new();
    v.push(Polyomino::Dash);
    v.push(Polyomino::Plus);
    v.push(Polyomino::L);
    v.push(Polyomino::Pipe);
    v.push(Polyomino::Square);
    v
}

#[derive(Debug, Clone, Copy)]
pub struct Rock {
    pub poly: Polyomino,
    /// bottom-left tile of the shape's bounding box
    pub pos: P,
}

/// The rock's bounding box stays inside the chamber columns and below
/// `rows` many rows.
pub open spec fn rock_fits(r: Rock, rows: int) -> bool {
    r.pos.x + r.poly.width_spec() <= CHAMBER_WIDTH && r.pos.y + r.poly.height_spec() <= rows
}

impl Rock {
    /// The chamber walls and floor allow a move in `dir`.
    pub fn valid_move(&self, dir: Dir) -> (r: bool)
        requires
            self.pos.x + self.poly.width_spec() <= CHAMBER_WIDTH,
        ensures
            r == match dir {
                Dir::L => self.pos.x > 0,
                Dir::R => self.pos.x + self.poly.width_spec() < CHAMBER_WIDTH,
                Dir::D => self.pos.y > 0,
            },
    {
        match dir {
            Dir::L => self.pos.x > 0,
            Dir::R => self.pos.x + self.poly.width() < CHAMBER_WIDTH,
            Dir::D => self.pos.y > 0,
        }
    }

    /// The tiles of the shape at its current position.
    pub fn tiles(&self) -> (ts: Vec<P>)
        requires
            self.pos.x + 4 <= usize::MAX,
            self.pos.y + 4 <= usize::MAX,
        ensures
            ts@ =~= tiles_spec(*self),
    {
        let x = self.pos.x;
        let y = self.pos.y;
        let mut ts: Vec<P> = Vec::new();
        match self.poly {
            Polyomino::Dash => {
                ts.push(P { x, y });
                ts.push(P { x: x + 1, y });
                ts.push(P { x: x + 2, y });
                ts.push(P { x: x + 3, y });
            },
            Polyomino::Plus => {
                ts.push(P { x: x + 1, y });
                ts.push(P { x, y: y + 1 });
                ts.push(P { x: x + 1, y: y + 1 });
                ts.push(P { x: x + 2, y: y + 1 });
                ts.push(P { x: x + 1, y: y + 2 });
            },
            Polyomino::L => {
                ts.push(P { x, y });
                ts.push(P { x: x + 1, y });
                ts.push(P { x: x + 2, y });
                ts.push(P { x: x + 2, y: y + 1 });
                ts.push(P { x: x + 2, y: y + 2 });
            },
            Polyomino::Pipe => {
                ts.push(P { x, y });
                ts.push(P { x, y: y + 1 });
                ts.push(P { x, y: y + 2 });
                ts.push(P { x, y: y + 3 });
            },
            Polyomino::Square => {
                ts.push(P { x, y });
                ts.push(P { x: x + 1, y });
                ts.push(P { x, y: y + 1 });
                ts.push(P { x: x + 1, y: y + 1 });
            },
        }
        ts
    }
}

/// The tiles of a rock's shape, bottom row first.
pub open spec fn tiles_spec(r: Rock) -> Seq<P> {
    let x = r.pos.x;
    let y = r.pos.y;
    match r.poly {
        Polyomino::Dash => seq![
            P { x, y },
            P { x: (x + 1) as usize, y },
            P { x: (x + 2) as usize, y },
            P { x: (x + 3) as usize, y },
        ],
        Polyomino::Plus => seq![
            P { x: (x + 1) as usize, y },
            P { x, y: (y + 1) as usize },
            P { x: (x + 1) as usize, y: (y + 1) as usize },
            P { x: (x + 2) as usize, y: (y + 1) as usize },
            P { x: (x + 1) as usize, y: (y + 2) as usize },
        ],
        Polyomino::L => seq![
            P { x, y },
            P { x: (x + 1) as usize, y },
            P { x: (x + 2) as usize, y },
            P { x: (x + 2) as usize, y: (y + 1) as usize },
            P { x: (x + 2) as usize, y: (y + 2) as usize },
        ],
        Polyomino::Pipe => seq![
            P { x, y },
            P { x, y: (y + 1) as usize },
            P { x, y: (y + 2) as usize },
            P { x, y: (y + 3) as usize },
        ],
        Polyomino::Square => seq![
            P { x, y },
            P { x: (x + 1) as usize, y },
            P { x, y: (y + 1) as usize },
            P { x: (x + 1) as usize, y: (y + 1) as usize },
        ],
    }
}

#[derive(Debug)]
pub struct Chamber {
    pub buf: Vec<[u8; CHAMBER_WIDTH]>,
    pub rock: Option<Rock>,
    /// rows up to which settled rock reaches
    pub rock_height: usize,
}

pub open spec fn chamber_wf(c: Chamber) -> bool {
    &&& c.rock_height <= c.buf@.len()
    &&& match c.rock {
        Some(r) => rock_fits(r, c.buf@.len() as int),
        None => true,
    }
}

impl Chamber {
    /// An empty chamber with three spare rows.
    pub fn new() -> (c: Chamber)
        ensures
            chamber_wf(c),
            c.buf@.len() == 3,
            c.rock is None,
            c.rock_height == 0,
            forall|r: int, x: int|
                0 <= r < 3 && 0 <= x < CHAMBER_WIDTH ==> #[trigger] (c.buf@[r])@[x] == 0,
    {
        let mut buf: Vec<[u8; CHAMBER_WIDTH]> = Vec::new();
        buf.push([0; CHAMBER_WIDTH]);
        buf.push([0; CHAMBER_WIDTH]);
        buf.push([0; CHAMBER_WIDTH]);
        Chamber { buf, rock: None, rock_height: 0 }
    }

    /// Rows currently stored.
    pub fn height(&self) -> (h: usize)
        ensures
            h == self.buf@.len(),
    {
        self.buf.len()
    }

    /// Spawn a rock: ensure three clear rows above the settled pile, and
    /// place the shape two columns in.
    #[verifier::loop_isolation(false)]
    pub fn materialize_rock(&mut self, poly: Polyomino)
        requires
            chamber_wf(*old(self)),
            old(self).rock is None,
            old(self).buf@.len() + 8 <= usize::MAX,
        ensures
            chamber_wf(*final(self)),
            final(self).rock_height == old(self).rock_height,
            final(self).buf@.len() == if old(self).buf@.len() - old(self).rock_height
                < poly.height_spec() + 3 {
                old(self).rock_height + poly.height_spec() + 3
            } else {
                old(self).buf@.len() as int
            },
            forall|r: int|
                0 <= r < old(self).buf@.len() ==> #[trigger] final(self).buf@[r] == old(
                    self,
                ).buf@[r],
            forall|r: int, x: int|
                old(self).buf@.len() <= r < final(self).buf@.len() && 0 <= x < CHAMBER_WIDTH
                    ==> #[trigger] (final(self).buf@[r])@[x] == 0,
            final(self).rock == Some(
                Rock {
                    poly,
                    pos: P {
                        x: 2,
                        y: if final(self).buf@.len() - poly.height_spec() < old(self).rock_height
                            + 3 {
                            (final(self).buf@.len() - poly.height_spec()) as usize
                        } else {
                            (old(self).rock_height + 3) as usize
                        },
                    },
                },
            ),
    {
        let empty_rows = self.buf.len() - self.rock_height;
        let poly_height = poly.height();

        if empty_rows < poly_height + 3 {
            let missing = (poly_height + 3) - empty_rows;
            let mut added: usize = 0;
            while added < missing
                invariant
                    added <= missing,
                    self.buf@.len() == old(self).buf@.len() + added,
                    self.rock == old(self).rock,
                    self.rock_height == old(self).rock_height,
                    forall|r: int|
                        0 <= r < old(self).buf@.len() ==> #[trigger] self.buf@[r] == old(
                            self,
                        ).buf@[r],
                    forall|r: int, x: int|
                        old(self).buf@.len() <= r < self.buf@.len() && 0 <= x < CHAMBER_WIDTH
                            ==> #[trigger] (self.buf@[r])@[x] == 0,
                decreases missing - added,
            {
                self.buf.push([0; CHAMBER_WIDTH]);
                added += 1;
            }
        }

        let h = self.buf.len();
        let spawn_y = if h - poly_height < self.rock_height + 3 {
            h - poly_height
        } else {
            self.rock_height + 3
        };
        let rock = Rock { poly, pos: P { x: 2, y: spawn_y } };
        self.rock = Some(rock);
    }

    /// Write `value` into every listed tile.
    #[verifier::loop_isolation(false)]
    pub fn emplace_tiles(&mut self, tiles: &Vec<P>, value: u8)
        requires
            forall|k: int|
                0 <= k < tiles@.len() ==> (#[trigger] tiles@[k]).y < old(self).buf@.len()
                    && tiles@[k].x < CHAMBER_WIDTH,
        ensures
            final(self).rock == old(self).rock,
            final(self).rock_height == old(self).rock_height,
            final(self).buf@.len() == old(self).buf@.len(),
            forall|r: int, x: int|
                0 <= r < old(self).buf@.len() && 0 <= x < CHAMBER_WIDTH
                    ==> #[trigger] (final(self).buf@[r])@[x] == (if exists|k: int|
                    0 <= k < tiles@.len() && (#[trigger] tiles@[k]).y == r && tiles@[k].x == x {
                    value
                } else {
                    old(self).buf@[r]@[x]
                }),
    {
        let mut k: usize = 0;
        while k < tiles.len()
            invariant
                k <= tiles@.len(),
                self.rock == old(self).rock,
                self.rock_height == old(self).rock_height,
                self.buf@.len() == old(self).buf@.len(),
                forall|t: int|
                    0 <= t < tiles@.len() ==> (#[trigger] tiles@[t]).y < self.buf@.len()
                        && tiles@[t].x < CHAMBER_WIDTH,
                forall|r: int, x: int|
                    0 <= r < old(self).buf@.len() && 0 <= x < CHAMBER_WIDTH
                        ==> #[trigger] (self.buf@[r])@[x] == (if exists|w: int|
                        0 <= w < k && (#[trigger] tiles@[w]).y == r && tiles@[w].x == x {
                        value
                    } else {
                        old(self).buf@[r]@[x]
                    }),
            decreases tiles@.len() - k,
        {
            let t = tiles[k];
            let ghost pre = self.buf@;
            let row = &mut self.buf[t.y];
            row[t.x] = value;
            proof {
                assert forall|r: int, x: int|
                    0 <= r < old(self).buf@.len() && 0 <= x < CHAMBER_WIDTH
                    implies #[trigger] (self.buf@[r])@[x] == (if exists|w: int|
                    0 <= w < k + 1 && (#[trigger] tiles@[w]).y == r && tiles@[w].x == x {
                    value
                } else {
                    old(self).buf@[r]@[x]
                }) by {
                    if r == t.y && x == t.x {
                        assert(tiles@[k as int].y == r && tiles@[k as int].x == x);
                    } else {
                        assert(self.buf@[r]@[x] == pre[r]@[x]);
                        if exists|w: int|
                            0 <= w < k + 1 && (#[trigger] tiles@[w]).y == r && tiles@[w].x == x {
                            let w = choose|w: int|
                                0 <= w < k + 1 && (#[trigger] tiles@[w]).y == r && tiles@[w].x
                                    == x;
                            assert(w < k);
                        }
                    }
                }
            }
            k += 1;
        }
    }

    /// Any of the tiles, moved one step in `dir`, hits settled rock.
    pub fn check_for_collision(&self, tiles: &Vec<P>, dir: Dir) -> (hit: bool)
        requires
            forall|k: int|
                0 <= k < tiles@.len() ==> moved_ok(#[trigger] tiles@[k], dir, self.buf@.len() as int),
        ensures
            hit == exists|k: int|
                0 <= k < tiles@.len() && tile_occupied(
                    self.buf@,
                    moved(#[trigger] tiles@[k], dir),
                ),
    {
        let mut k: usize = 0;
        while k < tiles.len()
            invariant
                k <= tiles@.len(),
                forall|t: int|
                    0 <= t < tiles@.len() ==> moved_ok(
                        #[trigger] tiles@[t],
                        dir,
                        self.buf@.len() as int,
                    ),
                forall|t: int|
                    0 <= t < k ==> !tile_occupied(self.buf@, moved(#[trigger] tiles@[t], dir)),
            decreases tiles@.len() - k,
        {
            let t = tiles[k];
            let (mx, my): (usize, usize) = match dir {
                Dir::L => (t.x - 1, t.y),
                Dir::R => (t.x + 1, t.y),
                Dir::D => (t.x, t.y - 1),
            };
            if self.buf[my][mx] == 1 {
                return true;
            }
            k += 1;
        }
        false
    }

    /// Push or drop the rock one step if the walls and pile allow it.
    #[verifier::rlimit(100)]
    pub fn move_rock(&mut self, dir: Dir)
        requires
            chamber_wf(*old(self)),
            old(self).rock is Some,
            old(self).buf@.len() + 4 <= usize::MAX,
        ensures
            chamber_wf(*final(self)),
            final(self).buf == old(self).buf,
            final(self).rock_height == old(self).rock_height,
            ({
                let r = old(self).rock.unwrap();
                let can = match dir {
                    Dir::L => r.pos.x > 0,
                    Dir::R => r.pos.x + r.poly.width_spec() < CHAMBER_WIDTH,
                    Dir::D => r.pos.y > 0,
                };
                let hit = exists|k: int|
                    0 <= k < tiles_spec(r).len() && tile_occupied(
                        old(self).buf@,
                        moved(#[trigger] tiles_spec(r)[k], dir),
                    );
                final(self).rock == Some(
                    if can && !hit {
                        Rock { poly: r.poly, pos: moved(r.pos, dir) }
                    } else {
                        r
                    },
                )
            }),
    {
        let rock = match &self.rock {
            Some(r) => *r,
            None => {
                proof {
                    assert(false);
                }
                Rock { poly: Polyomino::Dash, pos: P { x: 0, y: 0 } }
            },
        };
        let can = rock.valid_move(dir);
        if can {
            let ts = rock.tiles();
            proof {
                assert forall|k: int|
                    0 <= k < ts@.len() implies moved_ok(
                    #[trigger] ts@[k],
                    dir,
                    self.buf@.len() as int,
                ) by {
                    assert(ts@[k] == tiles_spec(rock)[k]);
                }
            }
            if !self.check_for_collision(&ts, dir) {
                let p = rock.pos;
                let np = match dir {
                    Dir::L => P { x: p.x - 1, y: p.y },
                    Dir::R => P { x: p.x + 1, y: p.y },
                    Dir::D => P { x: p.x, y: p.y - 1 },
                };
                self.rock = Some(Rock { poly: rock.poly, pos: np });
            }
        }
    }

    /// The rock cannot fall further: it sits on the floor or on the pile.
    pub fn rock_at_rest(&self) -> (rest: bool)
        requires
            chamber_wf(*self),
            self.rock is Some,
            self.buf@.len() + 4 <= usize::MAX,
        ensures
            ({
                let r = self.rock.unwrap();
                rest == (r.pos.y == 0 || exists|k: int|
                    0 <= k < tiles_spec(r).len() && tile_occupied(
                        self.buf@,
                        moved(#[trigger] tiles_spec(r)[k], Dir::D),
                    ))
            }),
    {
        let rock = match &self.rock {
            Some(r) => *r,
            None => {
                proof {
                    assert(false);
                }
                Rock { poly: Polyomino::Dash, pos: P { x: 0, y: 0 } }
            },
        };
        if rock.valid_move(Dir::D) {
            let ts = rock.tiles();
            proof {
                assert forall|k: int|
                    0 <= k < ts@.len() implies moved_ok(
                    #[trigger] ts@[k],
                    Dir::D,
                    self.buf@.len() as int,
                ) by {
                    assert(ts@[k] == tiles_spec(rock)[k]);
                }
            }
            self.check_for_collision(&ts, Dir::D)
        } else {
            true
        }
    }

    /// Freeze the rock into the pile: write its tiles and raise the pile
    /// height to cover it.
    pub fn ossify_rock(&mut self) -> (r: Rock)
        requires
            chamber_wf(*old(self)),
            old(self).rock is Some,
            old(self).buf@.len() + 4 <= usize::MAX,
        ensures
            r == old(self).rock.unwrap(),
            final(self).rock is None,
            final(self).buf@.len() == old(self).buf@.len(),
            final(self).rock_height == (if old(self).rock_height >= r.pos.y
                + r.poly.height_spec() {
                old(self).rock_height as int
            } else {
                r.pos.y + r.poly.height_spec()
            }),
            forall|row: int, x: int|
                0 <= row < old(self).buf@.len() && 0 <= x < CHAMBER_WIDTH
                    ==> #[trigger] (final(self).buf@[row])@[x] == (if exists|k: int|
                    0 <= k < tiles_spec(r).len() && (#[trigger] tiles_spec(r)[k]).y == row
                        && tiles_spec(r)[k].x == x {
                    1u8
                } else {
                    old(self).buf@[row]@[x]
                }),
            chamber_wf(*final(self)),
    {
        let rock = match &self.rock {
            Some(r) => *r,
            None => {
                proof {
                    assert(false);
                }
                Rock { poly: Polyomino::Dash, pos: P { x: 0, y: 0 } }
            },
        };
        self.rock = None;
        let ts = rock.tiles();
        proof {
            assert(ts@ =~= tiles_spec(rock));
            assert forall|k: int|
                0 <= k < ts@.len() implies (#[trigger] ts@[k]).y < self.buf@.len() && ts@[k].x
                < CHAMBER_WIDTH by {
                assert(ts@[k] == tiles_spec(rock)[k]);
            }
        }
        self.emplace_tiles(&ts, 1);
        let top = rock.pos.y + rock.poly.height();
        if top > self.rock_height {
            self.rock_height = top;
        }
        rock
    }
}

/// A tile position moved one step.
pub open spec fn moved(t: P, dir: Dir) -> P {
    match dir {
        Dir::L => P { x: (t.x - 1) as usize, y: t.y },
        Dir::R => P { x: (t.x + 1) as usize, y: t.y },
        Dir::D => P { x: t.x, y: (t.y - 1) as usize },
    }
}

/// The move stays inside the chamber.
pub open spec fn moved_ok(t: P, dir: Dir, rows: int) -> bool {
    match dir {
        Dir::L => 1 <= t.x <= CHAMBER_WIDTH && t.y < rows,
        Dir::R => t.x + 1 < CHAMBER_WIDTH && t.y < rows,
        Dir::D => t.y >= 1 && t.y < rows && t.x < CHAMBER_WIDTH,
    }
}

/// The settled pile occupies this cell.
pub open spec fn tile_occupied(buf: Seq<[u8; CHAMBER_WIDTH]>, t: P) -> bool {
    buf[t.y as int]@[t.x as int] == 1
}


/// Highest occupied row of column `x` at or below `y`, or -1.
pub open spec fn top_in(buf: Seq<[u8; CHAMBER_WIDTH]>, x: int, y: int) -> int
    decreases y + 1,
{
    if y < 0 {
        -1
    } else if buf[y]@[x] == 1 {
        y
    } else {
        top_in(buf, x, y - 1)
    }
}

/// Highest occupied row of a column within the pile, with empty columns
/// grounded at zero.
pub open spec fn raw_top(buf: Seq<[u8; CHAMBER_WIDTH]>, rh: int, x: int) -> int {
    if top_in(buf, x, rh) >= 0 {
        top_in(buf, x, rh)
    } else {
        0
    }
}

/// Largest `raw_top` among the first `k` columns.
pub open spec fn max_raw(buf: Seq<[u8; CHAMBER_WIDTH]>, rh: int, k: int) -> int
    decreases k,
{
    if k <= 1 {
        raw_top(buf, rh, 0)
    } else {
        vstd::math::max(max_raw(buf, rh, k - 1), raw_top(buf, rh, k - 1))
    }
}

impl Chamber {
    /// Highest occupied row of column `x`, scanning down from the pile top.
    #[verifier::loop_isolation(false)]
    fn col_top(&self, x: usize) -> (t: i32)
        requires
            x < CHAMBER_WIDTH,
            self.rock_height < self.buf@.len(),
            self.buf@.len() <= i32::MAX,
        ensures
            t == top_in(self.buf@, x as int, self.rock_height as int),
    {
        let mut y = self.rock_height + 1;
        while y > 0
            invariant
                y <= self.rock_height + 1,
                top_in(self.buf@, x as int, self.rock_height as int) == top_in(
                    self.buf@,
                    x as int,
                    y - 1,
                ),
            decreases y,
        {
            y -= 1;
            if self.buf[y][x] == 1 {
                return y as i32;
            }
        }
        -1
    }

    /// The profile of the pile: for each column, the highest settled row
    /// (zero when the column is empty), shifted so the tallest column sits
    /// at zero.
    #[verifier::rlimit(100)]
    pub fn top_formation(&self) -> (res: [i32; CHAMBER_WIDTH])
        requires
            self.rock_height < self.buf@.len(),
            self.buf@.len() <= i32::MAX,
        ensures
            forall|x: int|
                0 <= x < CHAMBER_WIDTH ==> res@[x] == raw_top(
                    self.buf@,
                    self.rock_height as int,
                    x,
                ) - max_raw(self.buf@, self.rock_height as int, CHAMBER_WIDTH as int),
    {
        let ghost rh = self.rock_height as int;
        let t0 = self.col_top(0);
        let t1 = self.col_top(1);
        let t2 = self.col_top(2);
        let t3 = self.col_top(3);
        let t4 = self.col_top(4);
        let t5 = self.col_top(5);
        let t6 = self.col_top(6);
        let r0: i32 = if t0 >= 0 { t0 } else { 0 };
        let r1: i32 = if t1 >= 0 { t1 } else { 0 };
        let r2: i32 = if t2 >= 0 { t2 } else { 0 };
        let r3: i32 = if t3 >= 0 { t3 } else { 0 };
        let r4: i32 = if t4 >= 0 { t4 } else { 0 };
        let r5: i32 = if t5 >= 0 { t5 } else { 0 };
        let r6: i32 = if t6 >= 0 { t6 } else { 0 };
        let mut m = r0;
        if r1 > m {
            m = r1;
        }
        if r2 > m {
            m = r2;
        }
        if r3 > m {
            m = r3;
        }
        if r4 > m {
            m = r4;
        }
        if r5 > m {
            m = r5;
        }
        if r6 > m {
            m = r6;
        }
        proof {
            assert(max_raw(self.buf@, rh, 1) == raw_top(self.buf@, rh, 0));
            assert(max_raw(self.buf@, rh, 2) == vstd::math::max(
                max_raw(self.buf@, rh, 1),
                raw_top(self.buf@, rh, 1),
            ));
            assert(max_raw(self.buf@, rh, 3) == vstd::math::max(
                max_raw(self.buf@, rh, 2),
                raw_top(self.buf@, rh, 2),
            ));
            assert(max_raw(self.buf@, rh, 4) == vstd::math::max(
                max_raw(self.buf@, rh, 3),
                raw_top(self.buf@, rh, 3),
            ));
            assert(max_raw(self.buf@, rh, 5) == vstd::math::max(
                max_raw(self.buf@, rh, 4),
                raw_top(self.buf@, rh, 4),
            ));
            assert(max_raw(self.buf@, rh, 6) == vstd::math::max(
                max_raw(self.buf@, rh, 5),
                raw_top(self.buf@, rh, 5),
            ));
            assert(max_raw(self.buf@, rh, 7) == vstd::math::max(
                max_raw(self.buf@, rh, 6),
                raw_top(self.buf@, rh, 6),
            ));
            assert(m == max_raw(self.buf@, rh, 7));
        }
        [r0 - m, r1 - m, r2 - m, r3 - m, r4 - m, r5 - m, r6 - m]
    }
}

} // verus!
