//! Cursors over a grid in row-major order: the values, the positions, and
//! both together.

use crate::coord::{
    flatten, flatten_index, in_range, lemma_flatten_bound, lemma_flatten_unflatten,
    lemma_unflatten_flatten, Coord,
};
use crate::grid::Grid;
use vstd::prelude::*;

verus! {

/// How many cells come before `index` in row-major order; every position
/// outside the grid counts as the end.
pub open spec fn position(index: Coord, width: int, height: int) -> int {
    if in_range(index, width, height) {
        flatten(index, width)
    } else {
        width * height
    }
}

/// All positions of a grid in row-major order.
pub open spec fn coords(width: int, height: int) -> Seq<Coord> {
    Seq::new(
        (width * height) as nat,
        |i: int| Coord { x: (i % width) as u32, y: (i / width) as u32 },
    )
}

/// The positions paired with the values of `cells`, in order.
pub open spec fn pairs<T>(cells: Seq<T>, width: int, height: int) -> Seq<(Coord, T)> {
    Seq::new(cells.len(), |i: int| (coords(width, height)[i], cells[i]))
}

/// Every position of the grid stands in `coords` at its own linear index,
/// and nowhere else: the traversal meets each position exactly once.
pub proof fn lemma_coords_complete(width: int, height: int)
    requires
        0 <= width <= u32::MAX,
        0 <= height <= u32::MAX,
    ensures
        coords(width, height).len() == width * height,
        forall|c: Coord| #[trigger]
            in_range(c, width, height) ==> 0 <= flatten(c, width) < width * height && coords(
                width,
                height,
            )[flatten(c, width)] == c,
        forall|i: int|
            0 <= i < width * height ==> in_range(
                #[trigger] coords(width, height)[i],
                width,
                height,
            ) && flatten(coords(width, height)[i], width) == i,
{
    assert(0 <= width * height) by (nonlinear_arith)
        requires
            0 <= width,
            0 <= height,
    ;
    assert forall|c: Coord| #[trigger] in_range(c, width, height) implies 0 <= flatten(c, width)
        < width * height && coords(width, height)[flatten(c, width)] == c by {
        lemma_flatten_bound(c, width, height);
        lemma_unflatten_flatten(c, width);
    }
    assert forall|i: int| 0 <= i < width * height implies in_range(
        #[trigger] coords(width, height)[i],
        width,
        height,
    ) && flatten(coords(width, height)[i], width) == i by {
        assert(0 < width) by (nonlinear_arith)
            requires
                0 <= i < width * height,
                0 <= width,
        ;
        lemma_flatten_unflatten(i, width, height);
    }
}

/// Nothing comes before the first position, also in an empty grid.
pub proof fn lemma_position_start(width: int, height: int)
    requires
        0 <= width,
        0 <= height,
    ensures
        position(Coord { x: 0, y: 0 }, width, height) == 0,
{
    if width == 0 || height == 0 {
        assert(width * height == 0) by (nonlinear_arith)
            requires
                width == 0 || height == 0,
        ;
    }
}

/// The position after `index` in row-major order: one column on, or the
/// start of the next row.
pub fn step(index: Coord, width: u32, height: u32) -> (next: Coord)
    requires
        in_range(index, width as int, height as int),
    ensures
        next == if index.x + 1 < width {
            Coord { x: (index.x + 1) as u32, y: index.y }
        } else {
            Coord { x: 0, y: (index.y + 1) as u32 }
        },
        position(next, width as int, height as int) == position(
            index,
            width as int,
            height as int,
        ) + 1,
{
    proof {
        assert((index.y + 1) * width == index.y * width + width) by (nonlinear_arith);
        if index.y + 1 == height {
            assert((index.y + 1) * width == width * height) by (nonlinear_arith)
                requires
                    index.y + 1 == height,
            ;
        }
    }
    if index.x + 1 < width {
        Coord { x: index.x + 1, y: index.y }
    } else {
        Coord { x: 0, y: index.y + 1 }
    }
}

/// How many cells are still to come from `index` on.
fn cells_left(index: Coord, width: u32, height: u32) -> (left: usize)
    requires
        width * height <= usize::MAX,
    ensures
        left == width * height - position(index, width as int, height as int),
{
    if index.x < width && index.y < height {
        proof {
            lemma_flatten_bound(index, width as int, height as int);
        }
        width as usize * height as usize - flatten_index(index, width)
    } else {
        0
    }
}

/// A traversal of a well-formed grid meets `width * height` cells, and
/// meets the cell at each position inside the grid at that position's
/// linear index: as a value, as a position, and as a pair of both.
pub proof fn lemma_traversal_complete<T>(grid: Grid<T>)
    requires
        grid.wf(),
    ensures
        grid@.len() == grid.spec_width() * grid.spec_height(),
        coords(grid.spec_width(), grid.spec_height()).len() == grid@.len(),
        pairs(grid@, grid.spec_width(), grid.spec_height()).len() == grid@.len(),
        forall|c: Coord| #[trigger]
            grid.contains(c) ==> {
                let i = flatten(c, grid.spec_width());
                &&& 0 <= i < grid@.len()
                &&& grid@[i] == grid.at(c)
                &&& coords(grid.spec_width(), grid.spec_height())[i] == c
                &&& pairs(grid@, grid.spec_width(), grid.spec_height())[i] == (c, grid.at(c))
            },
        forall|i: int|
            0 <= i < grid@.len() ==> grid.contains(
                #[trigger] coords(grid.spec_width(), grid.spec_height())[i],
            ) && flatten(coords(grid.spec_width(), grid.spec_height())[i], grid.spec_width())
                == i,
{
    grid.lemma_wf();
    lemma_coords_complete(grid.spec_width(), grid.spec_height());
    assert forall|c: Coord| #[trigger] grid.contains(c) implies {
        let i = flatten(c, grid.spec_width());
        &&& 0 <= i < grid@.len()
        &&& grid@[i] == grid.at(c)
        &&& coords(grid.spec_width(), grid.spec_height())[i] == c
        &&& pairs(grid@, grid.spec_width(), grid.spec_height())[i] == (c, grid.at(c))
    } by {
        assert(in_range(c, grid.spec_width(), grid.spec_height()));
    }
}

/// A cursor over the values of a grid.
#[derive(Clone)]
pub struct Cells<'a, T> {
    grid: &'a Grid<T>,
    index: Coord,
}

impl<'a, T> Cells<'a, T> {
    /// The grid that is traversed.
    pub closed spec fn grid(&self) -> Grid<T> {
        *self.grid
    }

    /// The grid that is traversed is well formed.
    pub open spec fn wf(&self) -> bool {
        self.grid().wf()
    }

    /// How many values have been produced.
    pub closed spec fn produced(&self) -> int {
        position(self.index, self.grid.spec_width(), self.grid.spec_height())
    }

    /// The values still to come, in order.
    pub open spec fn remaining(&self) -> Seq<T> {
        self.grid()@.subrange(self.produced(), self.grid()@.len() as int)
    }

    /// The values produced so far and those to come make up the grid.
    pub proof fn lemma_produced(&self)
        requires
            self.wf(),
        ensures
            0 <= self.produced() <= self.grid()@.len(),
            self.remaining().len() == self.grid()@.len() - self.produced(),
    {
        self.grid.lemma_wf();
        if in_range(self.index, self.grid.spec_width(), self.grid.spec_height()) {
            assert(self.grid.contains(self.index));
        }
    }

    /// The next value, or `None` once every value has been produced.
    pub fn next(&mut self) -> (item: Option<&'a T>)
        requires
            old(self).wf(),
        ensures
            final(self).wf(),
            final(self).grid() == old(self).grid(),
            old(self).remaining().len() == 0 ==> item.is_none() && final(self).produced() == old(
                self,
            ).produced(),
            old(self).remaining().len() > 0 ==> item == Some(&old(self).remaining()[0])
                && final(self).produced() == old(self).produced() + 1 && final(self).remaining()
                == old(self).remaining().drop_first(),
    {
        proof {
            self.lemma_produced();
            self.grid.lemma_wf();
        }
        let grid: &'a Grid<T> = self.grid;
        if self.index.x < grid.width() && self.index.y < grid.height() {
            let item = grid.index(self.index);
            self.index = step(self.index, grid.width(), grid.height());
            proof {
                assert(grid.contains(old(self).index));
                self.lemma_produced();
                assert(self.remaining() =~= old(self).remaining().drop_first());
            }
            Some(item)
        } else {
            None
        }
    }

    /// The exact number of values still to come, as both bounds.
    pub fn size_hint(&self) -> (hint: (usize, Option<usize>))
        requires
            self.wf(),
        ensures
            hint.0 == self.remaining().len(),
            hint.1 == Some(hint.0),
    {
        let len = self.len();
        (len, Some(len))
    }

    /// The number of values still to come.
    pub fn len(&self) -> (left: usize)
        requires
            self.wf(),
        ensures
            left == self.remaining().len(),
            left == self.grid()@.len() - self.produced(),
    {
        proof {
            self.lemma_produced();
            self.grid.lemma_wf();
        }
        cells_left(self.index, self.grid.width(), self.grid.height())
    }
}


/// A cursor over the positions of a grid together with their values.
#[derive(Clone)]
pub struct EnumerateCells<'a, T> {
    grid: &'a Grid<T>,
    index: Coord,
}

impl<'a, T> EnumerateCells<'a, T> {
    /// The grid that is traversed.
    pub closed spec fn grid(&self) -> Grid<T> {
        *self.grid
    }

    /// The grid that is traversed is well formed.
    pub open spec fn wf(&self) -> bool {
        self.grid().wf()
    }

    /// How many pairs have been produced.
    pub closed spec fn produced(&self) -> int {
        position(self.index, self.grid.spec_width(), self.grid.spec_height())
    }

    /// The pairs still to come, in order.
    pub open spec fn remaining(&self) -> Seq<(Coord, T)> {
        pairs(self.grid()@, self.grid().spec_width(), self.grid().spec_height()).subrange(
            self.produced(),
            self.grid()@.len() as int,
        )
    }

    /// The pairs produced so far and those to come are one for each cell.
    pub proof fn lemma_produced(&self)
        requires
            self.wf(),
        ensures
            0 <= self.produced() <= self.grid()@.len(),
            self.remaining().len() == self.grid()@.len() - self.produced(),
    {
        self.grid.lemma_wf();
        if in_range(self.index, self.grid.spec_width(), self.grid.spec_height()) {
            assert(self.grid.contains(self.index));
        }
    }

    /// The next position with its value, or `None` once every cell has been
    /// produced.
    pub fn next(&mut self) -> (item: Option<(Coord, &'a T)>)
        requires
            old(self).wf(),
        ensures
            final(self).wf(),
            final(self).grid() == old(self).grid(),
            old(self).remaining().len() == 0 ==> item.is_none() && final(self).produced() == old(
                self,
            ).produced(),
            old(self).remaining().len() > 0 ==> item == Some(
                (old(self).remaining()[0].0, &old(self).remaining()[0].1),
            ) && final(self).produced() == old(self).produced() + 1 && final(self).remaining()
                == old(self).remaining().drop_first(),
    {
        proof {
            self.lemma_produced();
            self.grid.lemma_wf();
        }
        let grid: &'a Grid<T> = self.grid;
        if self.index.x < grid.width() && self.index.y < grid.height() {
            let at = self.index;
            let item = grid.index(at);
            self.index = step(at, grid.width(), grid.height());
            proof {
                assert(grid.contains(at));
                lemma_coords_complete(grid.spec_width(), grid.spec_height());
                assert(in_range(at, grid.spec_width(), grid.spec_height()));
                self.lemma_produced();
                assert(old(self).remaining()[0] == (at, *item));
                assert(self.remaining() =~= old(self).remaining().drop_first());
            }
            Some((at, item))
        } else {
            None
        }
    }

    /// The exact number of pairs still to come, as both bounds.
    pub fn size_hint(&self) -> (hint: (usize, Option<usize>))
        requires
            self.wf(),
        ensures
            hint.0 == self.remaining().len(),
            hint.1 == Some(hint.0),
    {
        let len = self.len();
        (len, Some(len))
    }

    /// The number of pairs still to come.
    pub fn len(&self) -> (left: usize)
        requires
            self.wf(),
        ensures
            left == self.remaining().len(),
            left == self.grid()@.len() - self.produced(),
    {
        proof {
            self.lemma_produced();
            self.grid.lemma_wf();
        }
        cells_left(self.index, self.grid.width(), self.grid.height())
    }
}

/// A cursor over the positions of a grid.
#[derive(Clone)]
pub struct CellIndices {
    index: Coord,
    dimensions: Coord,
}

impl CellIndices {
    /// The number of columns of the grid that is traversed.
    pub closed spec fn spec_width(&self) -> int {
        self.dimensions.x as int
    }

    /// The number of rows of the grid that is traversed.
    pub closed spec fn spec_height(&self) -> int {
        self.dimensions.y as int
    }

    /// The number of cells fits the machine.
    pub open spec fn wf(&self) -> bool {
        self.spec_width() * self.spec_height() <= usize::MAX
    }

    /// How many positions have been produced.
    pub closed spec fn produced(&self) -> int {
        position(self.index, self.dimensions.x as int, self.dimensions.y as int)
    }

    /// The positions still to come, in order.
    pub open spec fn remaining(&self) -> Seq<Coord> {
        coords(self.spec_width(), self.spec_height()).subrange(
            self.produced(),
            self.spec_width() * self.spec_height(),
        )
    }

    /// The positions produced so far and those to come are one for each
    /// cell.
    pub proof fn lemma_produced(&self)
        ensures
            0 <= self.spec_width() <= u32::MAX,
            0 <= self.spec_height() <= u32::MAX,
            0 <= self.produced() <= self.spec_width() * self.spec_height(),
            self.remaining().len() == self.spec_width() * self.spec_height() - self.produced(),
    {
        assert(0 <= self.dimensions.x * self.dimensions.y) by (nonlinear_arith);
        if in_range(self.index, self.dimensions.x as int, self.dimensions.y as int) {
            lemma_flatten_bound(self.index, self.dimensions.x as int, self.dimensions.y as int);
        }
    }

    /// The next position, or `None` once every position has been produced.
    pub fn next(&mut self) -> (item: Option<Coord>)
        ensures
            final(self).spec_width() == old(self).spec_width(),
            final(self).spec_height() == old(self).spec_height(),
            old(self).remaining().len() == 0 ==> item.is_none() && final(self).produced() == old(
                self,
            ).produced(),
            old(self).remaining().len() > 0 ==> item == Some(old(self).remaining()[0])
                && final(self).produced() == old(self).produced() + 1 && final(self).remaining()
                == old(self).remaining().drop_first(),
    {
        proof {
            self.lemma_produced();
        }
        if self.index.x < self.dimensions.x && self.index.y < self.dimensions.y {
            let at = self.index;
            self.index = step(at, self.dimensions.x, self.dimensions.y);
            proof {
                lemma_coords_complete(self.spec_width(), self.spec_height());
                assert(in_range(at, self.spec_width(), self.spec_height()));
                self.lemma_produced();
                assert(self.remaining() =~= old(self).remaining().drop_first());
            }
            Some(at)
        } else {
            None
        }
    }

    /// The exact number of positions still to come, as both bounds.
    pub fn size_hint(&self) -> (hint: (usize, Option<usize>))
        requires
            self.wf(),
        ensures
            hint.0 == self.remaining().len(),
            hint.1 == Some(hint.0),
    {
        let len = self.len();
        (len, Some(len))
    }

    /// The number of positions still to come.
    pub fn len(&self) -> (left: usize)
        requires
            self.wf(),
        ensures
            left == self.remaining().len(),
            left == self.spec_width() * self.spec_height() - self.produced(),
    {
        proof {
            self.lemma_produced();
        }
        cells_left(self.index, self.dimensions.x, self.dimensions.y)
    }
}

impl<T> Grid<T> {
    /// A cursor over the values, row by row, each row from left to right.
    pub fn iter(&self) -> (cursor: Cells<'_, T>)
        requires
            self.wf(),
        ensures
            cursor.wf(),
            cursor.grid() == *self,
            cursor.produced() == 0,
            cursor.remaining() == self@,
    {
        let cursor = Cells { grid: self, index: Coord { x: 0, y: 0 } };
        proof {
            self.lemma_wf();
            lemma_position_start(self.spec_width(), self.spec_height());
            assert(cursor.remaining() =~= self@);
        }
        cursor
    }

    /// A cursor over the positions with their values, in the same order.
    pub fn enumerate(&self) -> (cursor: EnumerateCells<'_, T>)
        requires
            self.wf(),
        ensures
            cursor.wf(),
            cursor.grid() == *self,
            cursor.produced() == 0,
            cursor.remaining() == pairs(self@, self.spec_width(), self.spec_height()),
    {
        let cursor = EnumerateCells { grid: self, index: Coord { x: 0, y: 0 } };
        proof {
            self.lemma_wf();
            lemma_position_start(self.spec_width(), self.spec_height());
            assert(cursor.remaining() =~= pairs(self@, self.spec_width(), self.spec_height()));
        }
        cursor
    }

    /// A cursor over the positions alone, in the same order.
    pub fn iter_indices(&self) -> (cursor: CellIndices)
        requires
            self.wf(),
        ensures
            cursor.wf(),
            cursor.spec_width() == self.spec_width(),
            cursor.spec_height() == self.spec_height(),
            cursor.produced() == 0,
            cursor.remaining() == coords(self.spec_width(), self.spec_height()),
    {
        let cursor = CellIndices {
            index: Coord { x: 0, y: 0 },
            dimensions: Coord { x: self.width(), y: self.height() },
        };
        proof {
            self.lemma_wf();
            lemma_position_start(self.spec_width(), self.spec_height());
            cursor.lemma_produced();
            assert(cursor.remaining() =~= coords(self.spec_width(), self.spec_height()));
        }
        cursor
    }
}

} // verus!
