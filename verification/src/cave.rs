//! The sand cave: a buffer of tiles covering columns `x_range.0 ..=
//! x_range.1` down to the floor row `y_range.1`, growable to the left and
//! right, with the movement tests of a falling grain.

use vstd::prelude::*;

verus! {

pub type Point = (usize, usize);

#[derive(Debug)]
pub struct Cave {
    pub buf: Vec<Vec<char>>,
    /// leftmost and rightmost stored column, absolute
    pub x_range: (usize, usize),
    /// top row and floor row
    pub y_range: (usize, usize),
}

pub open spec fn cave_wf(c: Cave) -> bool {
    &&& c.x_range.0 <= c.x_range.1
    &&& c.buf@.len() == c.y_range.1 + 1
    &&& c.y_range.1 >= 1
    &&& forall|r: int|
        0 <= r < c.buf@.len() ==> (#[trigger] c.buf@[r])@.len() == c.x_range.1 - c.x_range.0 + 1
}

impl Cave {
    /// Shift an absolute point into buffer coordinates.
    pub fn translate(&self, p: Point) -> (q: Point)
        requires
            p.0 >= self.x_range.0,
        ensures
            q == ((p.0 - self.x_range.0) as usize, p.1),
    {
        (p.0 - self.x_range.0, p.1)
    }

    /// `(width, height)` of the stored buffer.
    pub fn dimensions(&self) -> (d: Point)
        requires
            self.buf@.len() >= 1,
        ensures
            d.0 == self.buf@[0]@.len(),
            d.1 == self.buf@.len(),
    {
        (self.buf[0].len(), self.buf.len())
    }

    /// The grain sits on the leftmost stored column.
    pub fn at_left_border(&self, sand: Point) -> (r: bool)
        requires
            sand.0 >= self.x_range.0,
        ensures
            r == (sand.0 == self.x_range.0),
    {
        self.translate(sand).0 == 0
    }

    /// The grain went past the rightmost stored column.
    pub fn beyond_right_border(&self, sand: Point) -> (r: bool)
        requires
            cave_wf(*self),
            sand.0 >= self.x_range.0,
        ensures
            r == (sand.0 == self.x_range.1 + 1),
    {
        let t = self.translate(sand);
        let d = self.dimensions();
        proof {
            assert(self.buf@[0]@.len() == self.x_range.1 - self.x_range.0 + 1);
        }
        t.0 == d.0
    }

    /// Grow the cave one column to the left; the new floor cell on the
    /// right end of the bottom row is rock.
    #[verifier::loop_isolation(false)]
    pub fn expand_left(&mut self)
        requires
            cave_wf(*old(self)),
            old(self).x_range.0 >= 1,
        ensures
            cave_wf(*final(self)),
            final(self).x_range == ((old(self).x_range.0 - 1) as usize, old(self).x_range.1),
            final(self).y_range == old(self).y_range,
            final(self).buf@.len() == old(self).buf@.len(),
            forall|r: int|
                0 <= r < old(self).buf@.len() && r < old(self).buf@.len() - 1
                    ==> (#[trigger] final(self).buf@[r])@ == seq!['.'].add(old(self).buf@[r]@),
            final(self).buf@.last()@ == seq!['.'].add(old(self).buf@.last()@).update(
                old(self).x_range.1 - old(self).x_range.0 + 1,
                '#',
            ),
    {
        self.x_range.0 = self.x_range.0 - 1;
        let rows = self.buf.len();
        let mut r: usize = 0;
        while r < rows
            invariant
                r <= rows,
                self.buf@.len() == rows,
                self.x_range == ((old(self).x_range.0 - 1) as usize, old(self).x_range.1),
                self.y_range == old(self).y_range,
                forall|k: int|
                    0 <= k < r ==> (#[trigger] self.buf@[k])@ == seq!['.'].add(
                        old(self).buf@[k]@,
                    ),
                forall|k: int| r <= k < rows ==> #[trigger] self.buf@[k] == old(self).buf@[k],
            decreases rows - r,
        {
            self.buf[r].insert(0, '.');
            proof {
                assert(self.buf@[r as int]@ =~= seq!['.'].add(old(self).buf@[r as int]@));
            }
            r += 1;
        }
        let (w, h) = self.dimensions();
        proof {
            assert(self.buf@[0]@.len() == old(self).buf@[0]@.len() + 1);
            assert(w >= 1 && h >= 1);
        }
        let row = &mut self.buf[h - 1];
        row[w - 1] = '#';
        proof {
            assert(self.buf@.last()@ =~= seq!['.'].add(old(self).buf@.last()@).update(
                old(self).x_range.1 - old(self).x_range.0 + 1,
                '#',
            ));
        }
    }

    /// Grow the cave one column to the right; the new floor cell is rock.
    #[verifier::loop_isolation(false)]
    pub fn expand_right(&mut self)
        requires
            cave_wf(*old(self)),
            old(self).x_range.1 < usize::MAX,
        ensures
            cave_wf(*final(self)),
            final(self).x_range == (old(self).x_range.0, (old(self).x_range.1 + 1) as usize),
            final(self).y_range == old(self).y_range,
            final(self).buf@.len() == old(self).buf@.len(),
            forall|r: int|
                0 <= r < old(self).buf@.len() && r < old(self).buf@.len() - 1
                    ==> (#[trigger] final(self).buf@[r])@ == old(self).buf@[r]@.push('.'),
            final(self).buf@.last()@ == old(self).buf@.last()@.push('#'),
    {
        self.x_range.1 = self.x_range.1 + 1;
        let rows = self.buf.len();
        let mut r: usize = 0;
        while r < rows
            invariant
                r <= rows,
                self.buf@.len() == rows,
                self.x_range == (old(self).x_range.0, (old(self).x_range.1 + 1) as usize),
                self.y_range == old(self).y_range,
                forall|k: int|
                    0 <= k < r ==> (#[trigger] self.buf@[k])@ == old(self).buf@[k]@.push('.'),
                forall|k: int| r <= k < rows ==> #[trigger] self.buf@[k] == old(self).buf@[k],
            decreases rows - r,
        {
            self.buf[r].push('.');
            r += 1;
        }
        let (w, h) = self.dimensions();
        proof {
            assert(self.buf@[0]@.len() == old(self).buf@[0]@.len() + 1);
            assert(w >= 1 && h >= 1);
        }
        let row = &mut self.buf[h - 1];
        row[w - 1] = '#';
        proof {
            assert(self.buf@.last()@ =~= old(self).buf@.last()@.push('.').update(
                old(self).buf@.last()@.len() as int,
                '#',
            ));
            assert(old(self).buf@.last()@.push('.').update(
                old(self).buf@.last()@.len() as int,
                '#',
            ) =~= old(self).buf@.last()@.push('#'));
        }
    }

    /// Write a tile at an absolute position.
    pub fn place_tile(&mut self, tile: char, p: Point)
        requires
            cave_wf(*old(self)),
            old(self).x_range.0 <= p.0 <= old(self).x_range.1,
            p.1 <= old(self).y_range.1,
        ensures
            cave_wf(*final(self)),
            final(self).x_range == old(self).x_range,
            final(self).y_range == old(self).y_range,
            final(self).buf@.len() == old(self).buf@.len(),
            (final(self).buf@[p.1 as int])@ == old(self).buf@[p.1 as int]@.update(
                p.0 - old(self).x_range.0,
                tile,
            ),
            forall|r: int|
                0 <= r < old(self).buf@.len() && r != p.1 ==> #[trigger] final(self).buf@[r]
                    == old(self).buf@[r],
    {
        let (x, y) = self.translate(p);
        let row = &mut self.buf[y];
        row[x] = tile;
    }

    /// The tile at an absolute position: rock on the floor row, nothing
    /// outside the stored columns or below the floor.
    pub fn get_tile(&self, p: Point) -> (t: Option<char>)
        requires
            cave_wf(*self),
        ensures
            t == get_tile_spec(*self, p),
    {
        if p.1 == self.y_range.1 {
            return Some('#');
        }
        if p.0 < self.x_range.0 || p.0 > self.x_range.1 || p.1 > self.y_range.1 {
            return None;
        }
        let (x, y) = self.translate(p);
        Some(self.buf[y][x])
    }
}

/// What `get_tile` answers.
pub open spec fn get_tile_spec(c: Cave, p: Point) -> Option<char> {
    if p.1 == c.y_range.1 {
        Some('#')
    } else if p.0 < c.x_range.0 || p.0 > c.x_range.1 || p.1 > c.y_range.1 {
        None
    } else {
        Some(c.buf@[p.1 as int]@[p.0 - c.x_range.0])
    }
}

/// The grain can fall straight down.
pub fn can_move_down(cave: &Cave, sand: Point) -> (r: bool)
    requires
        cave_wf(*cave),
        sand.1 < cave.y_range.1,
        get_tile_spec(*cave, (sand.0, (sand.1 + 1) as usize)) is Some,
    ensures
        r == (get_tile_spec(*cave, (sand.0, (sand.1 + 1) as usize)) == Some('.')),
{
    match cave.get_tile((sand.0, sand.1 + 1)) {
        Some(tile) => tile == '.',
        None => {
            proof {
                assert(false);
            }
            false
        },
    }
}

/// The grain can slide down-left; off the stored columns counts as free.
pub fn can_move_down_left(cave: &Cave, sand: Point) -> (r: bool)
    requires
        cave_wf(*cave),
        sand.0 >= 1,
        sand.1 < cave.y_range.1,
    ensures
        r == match get_tile_spec(*cave, ((sand.0 - 1) as usize, (sand.1 + 1) as usize)) {
            Some(tile) => tile == '.',
            None => true,
        },
{
    match cave.get_tile((sand.0 - 1, sand.1 + 1)) {
        Some(tile) => tile == '.',
        None => true,
    }
}

/// The grain can slide down-right; off the stored columns counts as free.
pub fn can_move_down_right(cave: &Cave, sand: Point) -> (r: bool)
    requires
        cave_wf(*cave),
        sand.0 < usize::MAX,
        sand.1 < cave.y_range.1,
    ensures
        r == match get_tile_spec(*cave, ((sand.0 + 1) as usize, (sand.1 + 1) as usize)) {
            Some(tile) => tile == '.',
            None => true,
        },
{
    match cave.get_tile((sand.0 + 1, sand.1 + 1)) {
        Some(tile) => tile == '.',
        None => true,
    }
}

} // verus!
