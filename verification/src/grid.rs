//! A fixed-size dense grid stored row by row.

use crate::coord::{flatten, flatten_index, in_range, lemma_flatten_bound, Coord};
use vstd::prelude::*;

verus! {

/// A `width` by `height` grid of values, stored row by row in one vector.
#[derive(Debug)]
pub struct Grid<T> {
    data: Vec<T>,
    width: u32,
    height: u32,
}

impl<T> View for Grid<T> {
    type V = Seq<T>;

    /// The cells in row-major order.
    closed spec fn view(&self) -> Seq<T> {
        self.data@
    }
}

impl<T> Grid<T> {
    /// The number of columns.
    pub closed spec fn spec_width(&self) -> int {
        self.width as int
    }

    /// The number of rows.
    pub closed spec fn spec_height(&self) -> int {
        self.height as int
    }

    /// The storage holds exactly one value for each position.
    pub closed spec fn wf(&self) -> bool {
        self.data@.len() == self.width * self.height
    }

    /// Whether `c` names a cell of this grid.
    pub open spec fn contains(&self, c: Coord) -> bool {
        in_range(c, self.spec_width(), self.spec_height())
    }

    /// The value at `c`.
    pub open spec fn at(&self, c: Coord) -> T
        recommends
            self.contains(c),
    {
        self@[flatten(c, self.spec_width())]
    }

    /// A well-formed grid has `width * height` cells, and every position in
    /// range has its own place among them.
    pub proof fn lemma_wf(&self)
        requires
            self.wf(),
        ensures
            self@.len() == self.spec_width() * self.spec_height(),
            self@.len() <= usize::MAX,
            0 <= self.spec_width() <= u32::MAX,
            0 <= self.spec_height() <= u32::MAX,
            forall|c: Coord| #[trigger]
                self.contains(c) ==> 0 <= flatten(c, self.spec_width()) < self@.len(),
    {
        assert(self.data@.len() == self.data.len());
        assert forall|c: Coord| #[trigger] self.contains(c) implies 0 <= flatten(
            c,
            self.spec_width(),
        ) < self@.len() by {
            lemma_flatten_bound(c, self.spec_width(), self.spec_height());
        }
    }

    /// Fills every cell with a clone of `value`.
    pub fn from_value(width: u32, height: u32, value: T) -> (grid: Self) where T: Clone
        requires
            width * height <= usize::MAX,
        ensures
            grid.wf(),
            grid.spec_width() == width,
            grid.spec_height() == height,
            grid@.len() == width * height,
            forall|i: int| 0 <= i < grid@.len() ==> cloned(value, #[trigger] grid@[i]),
    {
        assert(0 <= width * height) by (nonlinear_arith)
            requires
                0 <= width,
                0 <= height,
        ;
        let n: usize = width as usize * height as usize;
        Grid { data: vec![value; n], width, height }
    }

    /// Fills the cell in column `x` of row `y` with `func(x, y)`, calling
    /// `func` row by row, each row from left to right.
    pub fn from_fn<F>(width: u32, height: u32, func: F) -> (grid: Self) where F: Fn(u32, u32) -> T
        requires
            width * height <= usize::MAX,
            forall|x: u32, y: u32| x < width && y < height ==> call_requires(func, (x, y)),
        ensures
            grid.wf(),
            grid.spec_width() == width,
            grid.spec_height() == height,
            grid@.len() == width * height,
            forall|c: Coord| #[trigger]
                grid.contains(c) ==> call_ensures(func, (c.x, c.y), grid.at(c)),
    {
        let mut data: Vec<T> = Vec::new();
        let mut y: u32 = 0;
        while y < height
            invariant
                y <= height,
                width * height <= usize::MAX,
                data@.len() == y * width,
                forall|x: u32, y: u32| x < width && y < height ==> call_requires(func, (x, y)),
                forall|c: Coord|
                    c.x < width && c.y < y ==> call_ensures(
                        func,
                        (c.x, c.y),
                        #[trigger] data@[flatten(c, width as int)],
                    ),
            decreases height - y,
        {
            let mut x: u32 = 0;
            while x < width
                invariant
                    x <= width,
                    y < height,
                    width * height <= usize::MAX,
                    data@.len() == y * width + x,
                    forall|x: u32, y: u32| x < width && y < height ==> call_requires(func, (x, y)),
                    forall|c: Coord|
                        (c.y < y && c.x < width) || (c.y == y && c.x < x) ==> call_ensures(
                            func,
                            (c.x, c.y),
                            #[trigger] data@[flatten(c, width as int)],
                        ),
                decreases width - x,
            {
                let ghost before = data@;
                let value = func(x, y);
                data.push(value);
                proof {
                    assert forall|c: Coord|
                        (c.y < y && c.x < width) || (c.y == y && c.x < x + 1) implies call_ensures(
                        func,
                        (c.x, c.y),
                        #[trigger] data@[flatten(c, width as int)],
                    ) by {
                        if c.y == y && c.x == x {
                        } else {
                            assert(c.y * width + c.x < y * width + x) by (nonlinear_arith)
                                requires
                                    (c.y < y && c.x < width) || (c.y == y && c.x < x),
                                    0 <= c.x,
                                    0 <= c.y,
                            ;
                            assert(data@[flatten(c, width as int)] == before[flatten(
                                c,
                                width as int,
                            )]);
                        }
                    }
                }
                x += 1;
            }
            proof {
                assert(y * width + width == (y + 1) * width) by (nonlinear_arith);
            }
            y += 1;
        }
        proof {
            assert(height * width == width * height) by (nonlinear_arith);
        }
        Grid { data, width, height }
    }

    /// The number of columns.
    pub fn width(&self) -> (w: u32)
        ensures
            w == self.spec_width(),
    {
        self.width
    }

    /// The number of rows.
    pub fn height(&self) -> (h: u32)
        ensures
            h == self.spec_height(),
    {
        self.height
    }

    /// Whether `index` names a cell of this grid.
    pub fn in_bounds(&self, index: Coord) -> (inside: bool)
        ensures
            inside == self.contains(index),
    {
        index.x < self.width && index.y < self.height
    }

    /// The cell at `index`, or `None` where `index` lies outside the grid.
    pub fn get(&self, index: Coord) -> (cell: Option<&T>)
        requires
            self.wf(),
        ensures
            self.contains(index) ==> cell == Some(&self.at(index)),
            !self.contains(index) ==> cell.is_none(),
    {
        if index.x < self.width && index.y < self.height {
            proof {
                self.lemma_wf();
                assert(self.contains(index));
            }
            Some(&self.data[flatten_index(index, self.width)])
        } else {
            None
        }
    }

    /// The cell at `index`, which must lie inside the grid.
    pub fn index(&self, index: Coord) -> (cell: &T)
        requires
            self.wf(),
            self.contains(index),
        ensures
            *cell == self.at(index),
    {
        proof {
            self.lemma_wf();
        }
        &self.data[flatten_index(index, self.width)]
    }

    /// Exclusive access to the cell at `index`, or `None` where `index` lies
    /// outside the grid. What is written through it is the only change.
    pub fn get_mut(&mut self, index: Coord) -> (cell: Option<&mut T>)
        requires
            old(self).wf(),
        ensures
            final(self).wf(),
            final(self).spec_width() == old(self).spec_width(),
            final(self).spec_height() == old(self).spec_height(),
            match cell {
                Some(r) => old(self).contains(index) && *r == old(self).at(index) && final(self)@
                    == old(self)@.update(flatten(index, old(self).spec_width()), *final(r)),
                None => !old(self).contains(index) && final(self)@ == old(self)@,
            },
    {
        if index.x < self.width && index.y < self.height {
            proof {
                self.lemma_wf();
                assert(self.contains(index));
            }
            let flat: usize = flatten_index(index, self.width);
            Some(&mut self.data[flat])
        } else {
            None
        }
    }

    /// Exclusive access to the cell at `index`, which must lie inside the
    /// grid. What is written through it is the only change.
    pub fn index_mut(&mut self, index: Coord) -> (cell: &mut T)
        requires
            old(self).wf(),
            old(self).contains(index),
        ensures
            final(self).wf(),
            final(self).spec_width() == old(self).spec_width(),
            final(self).spec_height() == old(self).spec_height(),
            *cell == old(self).at(index),
            final(self)@ == old(self)@.update(
                flatten(index, old(self).spec_width()),
                *final(cell),
            ),
    {
        proof {
            self.lemma_wf();
        }
        let flat: usize = flatten_index(index, self.width);
        &mut self.data[flat]
    }

    /// Replaces the cell at `index`, which must lie inside the grid, and
    /// leaves every other cell as it was.
    pub fn put(&mut self, index: Coord, value: T)
        requires
            old(self).wf(),
            old(self).contains(index),
        ensures
            final(self).wf(),
            final(self).spec_width() == old(self).spec_width(),
            final(self).spec_height() == old(self).spec_height(),
            final(self)@ == old(self)@.update(flatten(index, old(self).spec_width()), value),
    {
        proof {
            self.lemma_wf();
        }
        let flat: usize = flatten_index(index, self.width);
        self.data[flat] = value;
    }
}

impl<T: Clone> Clone for Grid<T> {
    /// A grid of the same dimensions whose cells are clones of this one's.
    fn clone(&self) -> (copy: Self)
        ensures
            copy.wf() == self.wf(),
            copy.spec_width() == self.spec_width(),
            copy.spec_height() == self.spec_height(),
            copy@.len() == self@.len(),
            forall|i: int| 0 <= i < self@.len() ==> cloned(self@[i], #[trigger] copy@[i]),
    {
        Grid { data: self.data.clone(), width: self.width, height: self.height }
    }
}

} // verus!
