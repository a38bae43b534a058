use vstd::prelude::*;

verus! {

/// The mathematical model of a dense rectangular grid: `width * height` cells,
/// row after row, the cell in column `x` of row `y` at offset `width * y + x`.
pub struct Grid<T> {
    pub cells: Seq<T>,
    pub width: int,
    pub height: int,
}

impl<T> Grid<T> {
    /// There is exactly one entry for each cell.
    pub open spec fn wf(self) -> bool {
        0 <= self.width && 0 <= self.height && self.cells.len() == self.width * self.height
    }

    /// Whether column `x` and row `y` name a cell of the grid.
    pub open spec fn inside(self, x: int, y: int) -> bool {
        0 <= x < self.width && 0 <= y < self.height
    }

    /// Where the cell in column `x` of row `y` lies among the entries.
    pub open spec fn offset(self, x: int, y: int) -> int {
        self.width * y + x
    }

    /// The value of the cell in column `x` of row `y`.
    pub open spec fn at(self, x: int, y: int) -> T {
        self.cells[self.offset(x, y)]
    }

    /// The grid with `item` in the cell in column `x` of row `y`.
    pub open spec fn put(self, x: int, y: int, item: T) -> Grid<T> {
        Grid { cells: self.cells.update(self.offset(x, y), item), width: self.width, height: self.height }
    }

    /// Whether `other` has the same number of columns and rows.
    pub open spec fn same_shape<U>(self, other: Grid<U>) -> bool {
        self.width == other.width && self.height == other.height
    }

    /// Every cell lies at an offset of its own, within the entries.
    pub proof fn lemma_offset(self, x: int, y: int)
        requires
            self.wf(),
            self.inside(x, y),
        ensures
            0 <= self.width * y,
            0 <= self.offset(x, y) < self.cells.len(),
            forall|u: int, v: int|
                self.inside(u, v) && #[trigger] self.offset(u, v) == self.offset(x, y) ==> u == x
                    && v == y,
    {
        lemma_offset_bound(self.width, self.height, x, y);
        assert forall|u: int, v: int|
            self.inside(u, v) && #[trigger] self.offset(u, v) == self.offset(x, y) implies u == x
            && v == y by {
            lemma_offset_injective(self.width, u, v, x, y);
        }
    }

    /// `put` changes the cell it names and no other.
    pub proof fn lemma_put(self, x: int, y: int, item: T)
        requires
            self.wf(),
            self.inside(x, y),
        ensures
            self.put(x, y, item).wf(),
            self.put(x, y, item).same_shape(self),
            self.put(x, y, item).at(x, y) == item,
            forall|u: int, v: int|
                self.inside(u, v) && (u != x || v != y) ==> #[trigger] self.put(x, y, item).at(u, v)
                    == self.at(u, v),
    {
        self.lemma_offset(x, y);
        assert forall|u: int, v: int| self.inside(u, v) && (u != x || v != y) implies #[trigger] self.put(
            x,
            y,
            item,
        ).at(u, v) == self.at(u, v) by {
            self.lemma_offset(u, v);
            assert(self.offset(u, v) != self.offset(x, y));
        }
    }

    /// Every offset within the grid names a cell: column `k % width` of row `k / width`.
    pub proof fn lemma_cell_of_offset(self, k: int)
        requires
            self.wf(),
            0 <= k < self.cells.len(),
        ensures
            self.inside(k % self.width, k / self.width),
            self.offset(k % self.width, k / self.width) == k,
    {
        let w = self.width;
        let h = self.height;
        assert(w > 0) by (nonlinear_arith)
            requires
                0 <= k < w * h,
                0 <= w,
        ;
        assert(0 <= k % w < w && 0 <= k / w && w * (k / w) + k % w == k) by (nonlinear_arith)
            requires
                w > 0,
                k >= 0,
        ;
        assert(k / w < h) by (nonlinear_arith)
            requires
                w > 0,
                0 <= k < w * h,
                w * (k / w) + k % w == k,
                0 <= k % w,
        {
            if k / w >= h {
                assert(w * (k / w) >= w * h);
            }
        }
    }

    /// Two grids of one shape with the same value in every cell are the same grid.
    pub proof fn lemma_same_cells(self, other: Grid<T>)
        requires
            self.wf(),
            other.wf(),
            self.same_shape(other),
            forall|x: int, y: int| self.inside(x, y) ==> #[trigger] self.at(x, y) == other.at(x, y),
        ensures
            self == other,
    {
        assert forall|k: int| 0 <= k < self.cells.len() implies self.cells[k] == other.cells[k] by {
            self.lemma_cell_of_offset(k);
            assert(self.at(k % self.width, k / self.width) == other.at(
                k % self.width,
                k / self.width,
            ));
        }
        assert(self.cells =~= other.cells);
    }
}

/// A dense rectangular grid whose cells lie row after row in one vector.
pub struct Vec2d<T> {
    pub vec: Vec<T>,
    pub width: usize,
    pub height: usize,
}

/// Two cell offsets of a grid of the given width agree only for the same cell.
pub proof fn lemma_offset_injective(width: int, x1: int, y1: int, x2: int, y2: int)
    requires
        0 <= x1 < width,
        0 <= x2 < width,
        width * y1 + x1 == width * y2 + x2,
    ensures
        x1 == x2,
        y1 == y2,
{
    assert(y1 == y2) by (nonlinear_arith)
        requires
            0 <= x1 < width,
            0 <= x2 < width,
            width * y1 + x1 == width * y2 + x2,
    {
        if y1 < y2 {
            assert(width * (y2 - y1) >= width);
            assert(width * y2 - width * y1 == width * (y2 - y1));
        } else if y2 < y1 {
            assert(width * (y1 - y2) >= width);
            assert(width * y1 - width * y2 == width * (y1 - y2));
        }
    }
}

/// The offset of a cell inside a `width` by `height` grid is below `width * height`.
pub proof fn lemma_offset_bound(width: int, height: int, x: int, y: int)
    requires
        0 <= x < width,
        0 <= y < height,
    ensures
        0 <= width * y,
        0 <= width * y + x < width * height,
{
    assert(0 <= width * y && width * y + x < width * height) by (nonlinear_arith)
        requires
            0 <= x < width,
            0 <= y < height,
    {
        assert(width * y + width == width * (y + 1));
        assert(width * (y + 1) <= width * height);
    }
}

impl<T> View for Vec2d<T> {
    type V = Grid<T>;

    open spec fn view(&self) -> Grid<T> {
        Grid { cells: self.vec@, width: self.width as int, height: self.height as int }
    }
}

impl<T> Vec2d<T> {
    /// The vector holds exactly one entry for each cell.
    pub open spec fn wf(&self) -> bool {
        self@.wf()
    }

    /// Wraps a row-major vector as a grid of the given dimensions.
    pub fn from_vec(vec: Vec<T>, width: usize, height: usize) -> (grid: Vec2d<T>)
        ensures
            grid.vec == vec,
            grid.width == width,
            grid.height == height,
    {
        Vec2d { vec, width, height }
    }

    /// Borrows the cell in column `x` of row `y`.
    #[inline(always)]
    pub fn i(&self, x: usize, y: usize) -> (cell: &T)
        requires
            self.wf(),
            self@.inside(x as int, y as int),
        ensures
            *cell == self@.at(x as int, y as int),
    {
        let len: usize = self.vec.len();
        proof {
            self@.lemma_offset(x as int, y as int);
        }
        &self.vec[self.width * y + x]
    }

    /// Borrows the cell in column `x` of row `y` for writing: whatever the
    /// caller leaves there becomes the cell's value, and no other cell changes.
    #[inline(always)]
    pub fn i_mut(&mut self, x: usize, y: usize) -> (cell: &mut T)
        requires
            old(self).wf(),
            old(self)@.inside(x as int, y as int),
        ensures
            *cell == old(self)@.at(x as int, y as int),
            final(self).wf(),
            final(self)@ == old(self)@.put(x as int, y as int, *final(cell)),
    {
        let len: usize = self.vec.len();
        proof {
            self@.lemma_offset(x as int, y as int);
        }
        &mut self.vec[self.width * y + x]
    }

    /// Stores `item` in the cell in column `x` of row `y`; no other cell changes.
    #[inline(always)]
    pub fn i_assign(&mut self, x: usize, y: usize, item: T)
        requires
            old(self).wf(),
            old(self)@.inside(x as int, y as int),
        ensures
            final(self).wf(),
            final(self)@ == old(self)@.put(x as int, y as int, item),
    {
        let len: usize = self.vec.len();
        proof {
            self@.lemma_offset(x as int, y as int);
            self@.lemma_put(x as int, y as int, item);
        }
        let k: usize = self.width * y + x;
        self.vec[k] = item;
    }
}

} // verus!
