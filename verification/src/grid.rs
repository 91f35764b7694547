//! A rectangular grid of cells in one flat, row-major vector, with the row
//! shifts and column changes that removing and inserting seams are made of.

use vstd::prelude::*;
use crate::energy::PixelEnergyPoint;
use crate::picture::{Picture, blank_pixel};

verus! {

/// The place of `(x, y)` in the row-major order of a grid `width` wide.
pub open spec fn flat_index(width: int, x: int, y: int) -> int {
    y * width + x
}

/// A position inside a `width` by `height` grid has its place inside the
/// `height * width` cells.
pub proof fn lemma_flat_index_in_range(width: int, height: int, x: int, y: int)
    requires
        0 <= x < width,
        0 <= y < height,
    ensures
        0 <= y * width,
        0 <= flat_index(width, x, y) < height * width,
        (y + 1) * width <= height * width,
        (y + 1) * width == y * width + width,
{
    assert(0 <= y * width && y * width + width <= height * width && (y + 1) * width == y * width
        + width) by (nonlinear_arith)
        requires
            0 <= y < height,
            0 < width,
    ;
}

/// Row-major order: positions of earlier rows come first, and within a row
/// the places differ as the columns do.
pub proof fn lemma_flat_index_order(width: int, x: int, y: int, i: int, j: int)
    requires
        0 <= x < width,
        0 <= i < width,
        0 <= y,
        0 <= j,
    ensures
        j < y ==> flat_index(width, i, j) < flat_index(width, x, y),
        j == y ==> flat_index(width, i, j) - flat_index(width, x, y) == i - x,
        j > y ==> flat_index(width, i, j) > flat_index(width, x, y),
{
    assert(j < y ==> j * width + width <= y * width) by (nonlinear_arith)
        requires
            0 < width,
    ;
    assert(j > y ==> y * width + width <= j * width) by (nonlinear_arith)
        requires
            0 < width,
    ;
}

/// `cells` holds, in row-major order for a grid `width` wide, the value
/// `f(i, j)` for every position before `(x, y)`, and nothing more.
pub open spec fn filled_before<T>(
    cells: Seq<T>,
    width: int,
    x: int,
    y: int,
    f: spec_fn(int, int) -> T,
) -> bool {
    &&& cells.len() == flat_index(width, x, y)
    &&& forall|i: int, j: int|
        0 <= i < width && 0 <= j && (j < y || (j == y && i < x)) ==> cells[#[trigger] flat_index(
            width,
            i,
            j,
        )] == f(i, j)
}

/// Pushing the value for `(x, y)` fills the cells up to the next column.
pub proof fn lemma_fill_next<T>(cells: Seq<T>, width: int, x: int, y: int, f: spec_fn(int, int) -> T)
    requires
        filled_before(cells, width, x, y, f),
        0 <= x < width,
        0 <= y,
    ensures
        filled_before(cells.push(f(x, y)), width, x + 1, y, f),
{
    let next = cells.push(f(x, y));
    assert forall|i: int, j: int|
        0 <= i < width && 0 <= j && (j < y || (j == y && i < x + 1)) implies next[#[trigger] flat_index(
        width,
        i,
        j,
    )] == f(i, j) by {
        lemma_flat_index_order(width, x, y, i, j);
        lemma_flat_index_in_range(width, j + 1, i, j);
    }
}

/// Cells filled to the end of row `y` are filled up to the start of the
/// next row.
pub proof fn lemma_fill_next_row<T>(
    cells: Seq<T>,
    width: int,
    y: int,
    f: spec_fn(int, int) -> T,
)
    requires
        filled_before(cells, width, width, y, f),
        0 <= width,
        0 <= y,
    ensures
        filled_before(cells, width, 0, y + 1, f),
{
    assert((y + 1) * width == y * width + width) by (nonlinear_arith);
}

/// Cells filled up to row `height` hold `f` at the place of every position
/// of the grid.
pub proof fn lemma_filled<T>(
    cells: Seq<T>,
    width: int,
    height: int,
    f: spec_fn(int, int) -> T,
)
    requires
        filled_before(cells, width, 0, height, f),
        0 <= width,
        0 <= height,
    ensures
        cells.len() == height * width,
        forall|i: int, j: int|
            0 <= i < width && 0 <= j < height ==> 0 <= #[trigger] flat_index(width, i, j)
                < cells.len() && cells[flat_index(width, i, j)] == f(i, j),
{
    assert forall|i: int, j: int| 0 <= i < width && 0 <= j < height implies 0
        <= #[trigger] flat_index(width, i, j) < cells.len() && cells[flat_index(width, i, j)] == f(
        i,
        j,
    ) by {
        lemma_flat_index_in_range(width, height, i, j);
    }
}

/// A rectangle of cells, `width` columns by `height` rows.
#[derive(Debug)]
pub struct Grid {
    width: usize,
    height: usize,
    cells: Vec<PixelEnergyPoint>,
}

impl Grid {
    /// The vector holds exactly one cell for each position.
    pub closed spec fn wf(&self) -> bool {
        self.cells@.len() == self.height * self.width
    }

    /// The number of columns.
    pub closed spec fn spec_width(&self) -> nat {
        self.width as nat
    }

    /// The number of rows.
    pub closed spec fn spec_height(&self) -> nat {
        self.height as nat
    }

    /// The cell in column `x` of row `y`.
    pub closed spec fn cell(&self, x: int, y: int) -> PixelEnergyPoint {
        self.cells@[flat_index(self.width as int, x, y)]
    }

    /// Whether `(x, y)` is a position of the grid.
    pub open spec fn contains(&self, x: int, y: int) -> bool {
        0 <= x < self.spec_width() && 0 <= y < self.spec_height()
    }

    /// The cells row by row.
    pub open spec fn rows(&self) -> Seq<Seq<PixelEnergyPoint>> {
        Seq::new(
            self.spec_height(),
            |y: int| Seq::new(self.spec_width(), |x: int| self.cell(x, y)),
        )
    }

    /// The colours of the cells, as a picture.
    pub open spec fn picture(&self) -> Picture {
        Picture {
            width: self.spec_width(),
            rows: Seq::new(
                self.spec_height(),
                |y: int| Seq::new(self.spec_width(), |x: int| self.cell(x, y).pixel),
            ),
        }
    }

    /// A grid of the given size with `fill` in every cell.
    pub fn new(width: usize, height: usize, fill: PixelEnergyPoint) -> (grid: Grid)
        ensures
            grid.wf(),
            grid.spec_width() == width,
            grid.spec_height() == height,
            forall|x: int, y: int| grid.contains(x, y) ==> #[trigger] grid.cell(x, y) == fill,
    {
        let mut cells: Vec<PixelEnergyPoint> = Vec::new();
        let mut y: usize = 0;
        while y < height
            invariant
                y <= height,
                cells@.len() == y * width,
                forall|k: int| 0 <= k < cells@.len() ==> cells@[k] == fill,
            decreases height - y,
        {
            let mut x: usize = 0;
            while x < width
                invariant
                    x <= width,
                    y < height,
                    cells@.len() == y * width + x,
                    forall|k: int| 0 <= k < cells@.len() ==> cells@[k] == fill,
                decreases width - x,
            {
                cells.push(fill);
                x += 1;
            }
            proof {
                assert((y + 1) * width == y * width + width) by (nonlinear_arith);
            }
            y += 1;
        }
        let grid = Grid { width, height, cells };
        proof {
            assert forall|x: int, y: int| grid.contains(x, y) implies #[trigger] grid.cell(x, y)
                == fill by {
                lemma_flat_index_in_range(width as int, height as int, x, y);
            }
        }
        grid
    }

    /// The number of columns.
    pub fn width(&self) -> (width: usize)
        ensures
            width == self.spec_width(),
    {
        self.width
    }

    /// The number of rows.
    pub fn height(&self) -> (height: usize)
        ensures
            height == self.spec_height(),
    {
        self.height
    }

    /// The place of `(x, y)` in the vector of cells.
    fn index_of(&self, x: usize, y: usize) -> (index: usize)
        requires
            self.wf(),
            self.contains(x as int, y as int),
        ensures
            index == flat_index(self.width as int, x as int, y as int),
            index < self.cells@.len(),
    {
        proof {
            lemma_flat_index_in_range(self.width as int, self.height as int, x as int, y as int);
            assert(self.cells.len() <= usize::MAX);
        }
        y * self.width + x
    }

    /// The cell at `(x, y)`.
    pub fn get(&self, x: usize, y: usize) -> (cell: &PixelEnergyPoint)
        requires
            self.wf(),
            self.contains(x as int, y as int),
        ensures
            *cell == self.cell(x as int, y as int),
    {
        let index = self.index_of(x, y);
        &self.cells[index]
    }

    /// The cell at `(x, y)`, to be changed in place.
    pub fn get_mut(&mut self, x: usize, y: usize) -> (cell: &mut PixelEnergyPoint)
        requires
            old(self).wf(),
            old(self).contains(x as int, y as int),
        ensures
            *cell == old(self).cell(x as int, y as int),
            final(self).wf(),
            final(self).spec_width() == old(self).spec_width(),
            final(self).spec_height() == old(self).spec_height(),
            final(self).cell(x as int, y as int) == *final(cell),
            forall|i: int, j: int|
                old(self).contains(i, j) && (i != x || j != y) ==> #[trigger] final(self).cell(i, j)
                    == old(self).cell(i, j),
    {
        let index = self.index_of(x, y);
        proof {
            assert forall|i: int, j: int| old(self).contains(i, j) && (i != x || j != y) implies 0
                <= #[trigger] flat_index(self.width as int, i, j) < self.cells@.len() && flat_index(
                self.width as int,
                i,
                j,
            ) != index by {
                lemma_flat_index_order(self.width as int, x as int, y as int, i, j);
                lemma_flat_index_in_range(self.width as int, self.height as int, i, j);
            }
        }
        &mut self.cells[index]
    }

    /// The neighbours of `(x, y)` to the left, to the right, above and
    /// below, in that order. Where `(x, y)` lies at a border, the cell at
    /// `(x, y)` itself is given in place of the neighbour that is missing.
    pub fn get_adjacent(&self, x: usize, y: usize) -> (adjacent: (
        &PixelEnergyPoint,
        &PixelEnergyPoint,
        &PixelEnergyPoint,
        &PixelEnergyPoint,
    ))
        requires
            self.wf(),
            self.contains(x as int, y as int),
        ensures
            *adjacent.0 == self.cell(if x >= 1 { x - 1 } else { x as int }, y as int),
            *adjacent.1 == self.cell(if x + 1 < self.spec_width() { x + 1 } else { x as int }, y as int),
            *adjacent.2 == self.cell(x as int, if y >= 1 { y - 1 } else { y as int }),
            *adjacent.3 == self.cell(x as int, if y + 1 < self.spec_height() { y + 1 } else { y as int }),
    {
        let left = if x >= 1 { x - 1 } else { x };
        let right = if x < self.width - 1 { x + 1 } else { x };
        let up = if y >= 1 { y - 1 } else { y };
        let down = if y < self.height - 1 { y + 1 } else { y };
        (self.get(left, y), self.get(right, y), self.get(x, up), self.get(x, down))
    }

    /// The first of the columns of row `y - 1` from which a path can step
    /// down to column `x`.
    pub open spec fn first_parent(x: int) -> int {
        if x >= 1 { x - 1 } else { x }
    }

    /// The last of the columns of row `y - 1` from which a path can step
    /// down to column `x`.
    pub open spec fn last_parent(&self, x: int) -> int {
        if x + 1 < self.spec_width() { x + 1 } else { x }
    }

    /// The parents of `(x, y)`: the cells of the row above in the columns
    /// `x - 1`, `x` and `x + 1`, as far as the grid has them, from left to
    /// right, each with its position. The top row has no parents.
    pub open spec fn parents(&self, x: int, y: int) -> Seq<(usize, usize, PixelEnergyPoint)> {
        if y <= 0 {
            Seq::empty()
        } else {
            Seq::new(
                (self.last_parent(x) - Self::first_parent(x) + 1) as nat,
                |k: int|
                    (
                        (Self::first_parent(x) + k) as usize,
                        (y - 1) as usize,
                        self.cell(Self::first_parent(x) + k, y - 1),
                    ),
            )
        }
    }

    /// The parents of `(x, y)`, as `parents` lists them.
    pub fn get_parents(&self, x: usize, y: usize) -> (parents: Vec<(usize, usize, PixelEnergyPoint)>)
        requires
            self.wf(),
            self.contains(x as int, y as int),
        ensures
            parents@ == self.parents(x as int, y as int),
    {
        let mut parents: Vec<(usize, usize, PixelEnergyPoint)> = Vec::new();
        if y >= 1 {
            if x >= 1 {
                parents.push((x - 1, y - 1, *self.get(x - 1, y - 1)));
            }
            parents.push((x, y - 1, *self.get(x, y - 1)));
            if x < self.width - 1 {
                parents.push((x + 1, y - 1, *self.get(x + 1, y - 1)));
            }
        }
        assert(parents@ =~= self.parents(x as int, y as int));
        parents
    }

    /// The cells of row `y`, from left to right.
    pub fn get_row(&self, y: usize) -> (row: Vec<PixelEnergyPoint>)
        requires
            self.wf(),
            y < self.spec_height(),
        ensures
            row@ == self.rows()[y as int],
    {
        let mut row: Vec<PixelEnergyPoint> = Vec::new();
        let mut x: usize = 0;
        while x < self.width
            invariant
                self.wf(),
                y < self.spec_height(),
                x <= self.width,
                row@.len() == x,
                forall|i: int| 0 <= i < x ==> row@[i] == self.cell(i, y as int),
            decreases self.width - x,
        {
            row.push(*self.get(x, y));
            x += 1;
        }
        assert(row@ =~= self.rows()[y as int]);
        row
    }

    /// Every cell with its position, row by row from the top and from left
    /// to right within a row.
    pub fn coord_iter(&self) -> (items: Vec<(usize, usize, PixelEnergyPoint)>)
        requires
            self.wf(),
        ensures
            items@.len() == self.spec_height() * self.spec_width(),
            forall|x: int, y: int|
                self.contains(x, y) ==> 0 <= #[trigger] flat_index(self.spec_width() as int, x, y)
                    < items@.len() && items@[flat_index(self.spec_width() as int, x, y)] == (
                    x as usize,
                    y as usize,
                    self.cell(x, y),
                ),
            forall|k: int|
                0 <= k < items@.len() ==> self.contains(
                    (#[trigger] items@[k]).0 as int,
                    items@[k].1 as int,
                ) && flat_index(self.spec_width() as int, items@[k].0 as int, items@[k].1 as int)
                    == k,
    {
        let ghost f = |i: int, j: int| (i as usize, j as usize, self.cell(i, j));
        let mut items: Vec<(usize, usize, PixelEnergyPoint)> = Vec::new();
        let mut y: usize = 0;
        while y < self.height
            invariant
                self.wf(),
                y <= self.height,
                filled_before(items@, self.width as int, 0, y as int, f),
                f == |i: int, j: int| (i as usize, j as usize, self.cell(i, j)),
                forall|k: int|
                    0 <= k < items@.len() ==> self.contains(
                        (#[trigger] items@[k]).0 as int,
                        items@[k].1 as int,
                    ) && flat_index(self.width as int, items@[k].0 as int, items@[k].1 as int) == k,
            decreases self.height - y,
        {
            let mut x: usize = 0;
            while x < self.width
                invariant
                    self.wf(),
                    y < self.height,
                    x <= self.width,
                    filled_before(items@, self.width as int, x as int, y as int, f),
                    f == |i: int, j: int| (i as usize, j as usize, self.cell(i, j)),
                    forall|k: int|
                        0 <= k < items@.len() ==> self.contains(
                            (#[trigger] items@[k]).0 as int,
                            items@[k].1 as int,
                        ) && flat_index(self.width as int, items@[k].0 as int, items@[k].1 as int)
                            == k,
                decreases self.width - x,
            {
                proof {
                    lemma_fill_next(items@, self.width as int, x as int, y as int, f);
                }
                items.push((x, y, *self.get(x, y)));
                x += 1;
            }
            proof {
                lemma_fill_next_row(items@, self.width as int, y as int, f);
            }
            y += 1;
        }
        proof {
            lemma_filled(items@, self.width as int, self.height as int, f);
        }
        items
    }

    /// Exchanges rows and columns: afterwards the cell at `(x, y)` is the
    /// one that was at `(y, x)`.
    pub fn rotate(&mut self)
        requires
            old(self).wf(),
        ensures
            final(self).wf(),
            final(self).spec_width() == old(self).spec_height(),
            final(self).spec_height() == old(self).spec_width(),
            forall|x: int, y: int|
                final(self).contains(x, y) ==> #[trigger] final(self).cell(x, y) == old(self).cell(
                    y,
                    x,
                ),
    {
        let ghost f = |i: int, j: int| self.cell(j, i);
        let mut cells: Vec<PixelEnergyPoint> = Vec::new();
        let mut y: usize = 0;
        while y < self.width
            invariant
                self.wf(),
                y <= self.width,
                filled_before(cells@, self.height as int, 0, y as int, f),
                f == |i: int, j: int| self.cell(j, i),
            decreases self.width - y,
        {
            let mut x: usize = 0;
            while x < self.height
                invariant
                    self.wf(),
                    y < self.width,
                    x <= self.height,
                    filled_before(cells@, self.height as int, x as int, y as int, f),
                    f == |i: int, j: int| self.cell(j, i),
                decreases self.height - x,
            {
                proof {
                    lemma_fill_next(cells@, self.height as int, x as int, y as int, f);
                }
                cells.push(*self.get(y, x));
                x += 1;
            }
            proof {
                lemma_fill_next_row(cells@, self.height as int, y as int, f);
            }
            y += 1;
        }
        proof {
            lemma_filled(cells@, self.height as int, self.width as int, f);
        }
        let width = self.width;
        self.width = self.height;
        self.height = width;
        self.cells = cells;
    }

    /// Appends one column of blank cells on the right.
    pub fn add_last_column(&mut self)
        requires
            old(self).wf(),
            old(self).spec_width() < usize::MAX,
        ensures
            final(self).wf(),
            final(self).spec_width() == old(self).spec_width() + 1,
            final(self).spec_height() == old(self).spec_height(),
            forall|x: int, y: int|
                old(self).contains(x, y) ==> #[trigger] final(self).cell(x, y) == old(self).cell(
                    x,
                    y,
                ),
            forall|y: int|
                0 <= y < old(self).spec_height() ==> #[trigger] final(self).cell(
                    old(self).spec_width() as int,
                    y,
                ) == blank_cell(),
    {
        let blank = PixelEnergyPoint::from_pixel([0u8, 0u8, 0u8, 0u8]);
        assert(blank.pixel =~= blank_pixel());
        let ghost f = |i: int, j: int| if i < self.width { self.cell(i, j) } else { blank };
        let new_width = self.width + 1;
        let mut cells: Vec<PixelEnergyPoint> = Vec::new();
        let mut y: usize = 0;
        while y < self.height
            invariant
                self.wf(),
                y <= self.height,
                new_width == self.width + 1,
                filled_before(cells@, new_width as int, 0, y as int, f),
                f == |i: int, j: int| if i < self.width { self.cell(i, j) } else { blank },
            decreases self.height - y,
        {
            let mut x: usize = 0;
            while x < self.width
                invariant
                    self.wf(),
                    y < self.height,
                    x <= self.width,
                    new_width == self.width + 1,
                    filled_before(cells@, new_width as int, x as int, y as int, f),
                    f == |i: int, j: int| if i < self.width { self.cell(i, j) } else { blank },
                decreases self.width - x,
            {
                proof {
                    lemma_fill_next(cells@, new_width as int, x as int, y as int, f);
                }
                cells.push(*self.get(x, y));
                x += 1;
            }
            proof {
                lemma_fill_next(cells@, new_width as int, x as int, y as int, f);
            }
            cells.push(blank);
            proof {
                lemma_fill_next_row(cells@, new_width as int, y as int, f);
            }
            y += 1;
        }
        proof {
            lemma_filled(cells@, new_width as int, self.height as int, f);
        }
        self.width = new_width;
        self.cells = cells;
    }

    /// Takes the rightmost column away.
    pub fn remove_last_column(&mut self)
        requires
            old(self).wf(),
            old(self).spec_width() >= 1,
        ensures
            final(self).wf(),
            final(self).spec_width() == old(self).spec_width() - 1,
            final(self).spec_height() == old(self).spec_height(),
            forall|x: int, y: int|
                final(self).contains(x, y) ==> #[trigger] final(self).cell(x, y) == old(self).cell(
                    x,
                    y,
                ),
    {
        let ghost f = |i: int, j: int| self.cell(i, j);
        let new_width = self.width - 1;
        let mut cells: Vec<PixelEnergyPoint> = Vec::new();
        let mut y: usize = 0;
        while y < self.height
            invariant
                self.wf(),
                y <= self.height,
                new_width == self.width - 1,
                filled_before(cells@, new_width as int, 0, y as int, f),
                f == |i: int, j: int| self.cell(i, j),
            decreases self.height - y,
        {
            let mut x: usize = 0;
            while x < new_width
                invariant
                    self.wf(),
                    y < self.height,
                    x <= new_width,
                    new_width == self.width - 1,
                    filled_before(cells@, new_width as int, x as int, y as int, f),
                    f == |i: int, j: int| self.cell(i, j),
                decreases new_width - x,
            {
                proof {
                    lemma_fill_next(cells@, new_width as int, x as int, y as int, f);
                }
                cells.push(*self.get(x, y));
                x += 1;
            }
            proof {
                lemma_fill_next_row(cells@, new_width as int, y as int, f);
            }
            y += 1;
        }
        proof {
            lemma_filled(cells@, new_width as int, self.height as int, f);
        }
        self.width = new_width;
        self.cells = cells;
    }

    /// Moves the cells of row `y` that lie to the right of column `x` one
    /// column to the left: the cell at `(x, y)` is overwritten by its right
    /// neighbour, and so on up to the end of the row, whose last cell keeps
    /// its value. Other rows are left alone.
    pub fn shift_row_left_from_point(&mut self, x: usize, y: usize)
        requires
            old(self).wf(),
            old(self).contains(x as int, y as int),
        ensures
            final(self).wf(),
            final(self).spec_width() == old(self).spec_width(),
            final(self).spec_height() == old(self).spec_height(),
            forall|i: int, j: int|
                old(self).contains(i, j) ==> #[trigger] final(self).cell(i, j) == if j == y && x
                    <= i < old(self).spec_width() - 1 {
                    old(self).cell(i + 1, j)
                } else {
                    old(self).cell(i, j)
                },
    {
        let base = self.index_of(0, y);
        let last = self.width - 1;
        proof {
            lemma_flat_index_in_range(self.width as int, self.height as int, last as int, y as int);
            assert(self.cells.len() <= usize::MAX);
        }
        let mut i: usize = x;
        while i < last
            invariant
                x <= i <= last,
                last == self.width - 1,
                self.width == old(self).width,
                self.height == old(self).height,
                self.cells@.len() == old(self).cells@.len(),
                base == flat_index(self.width as int, 0, y as int),
                base + last < self.cells@.len() <= usize::MAX,
                forall|k: int|
                    0 <= k < self.cells@.len() ==> self.cells@[k] == if base + x <= k < base + i {
                        old(self).cells@[k + 1]
                    } else {
                        old(self).cells@[k]
                    },
            decreases last - i,
        {
            let moved = self.cells[base + i + 1];
            self.cells[base + i] = moved;
            i += 1;
        }
        proof {
            assert forall|i: int, j: int| old(self).contains(i, j) implies #[trigger] self.cell(i, j)
                == if j == y && x <= i < old(self).spec_width() - 1 {
                old(self).cell(i + 1, j)
            } else {
                old(self).cell(i, j)
            } by {
                lemma_flat_index_order(self.width as int, 0, y as int, i, j);
                lemma_flat_index_order(self.width as int, last as int, y as int, i, j);
                lemma_flat_index_in_range(self.width as int, self.height as int, i, j);
            }
        }
    }

    /// Moves the cells of row `y` from column `x` on one column to the
    /// right: the last cell of the row is lost and the cell at `(x, y)`
    /// keeps its value, which now also stands at `(x + 1, y)`. Other rows
    /// are left alone.
    pub fn shift_row_right_from_point(&mut self, x: usize, y: usize)
        requires
            old(self).wf(),
            old(self).contains(x as int, y as int),
        ensures
            final(self).wf(),
            final(self).spec_width() == old(self).spec_width(),
            final(self).spec_height() == old(self).spec_height(),
            forall|i: int, j: int|
                old(self).contains(i, j) ==> #[trigger] final(self).cell(i, j) == if j == y && x < i {
                    old(self).cell(i - 1, j)
                } else {
                    old(self).cell(i, j)
                },
    {
        let base = self.index_of(0, y);
        let last = self.width - 1;
        proof {
            lemma_flat_index_in_range(self.width as int, self.height as int, last as int, y as int);
            assert(self.cells.len() <= usize::MAX);
        }
        let mut i: usize = last;
        while i > x
            invariant
                x <= i <= last,
                last == self.width - 1,
                self.width == old(self).width,
                self.height == old(self).height,
                self.cells@.len() == old(self).cells@.len(),
                base == flat_index(self.width as int, 0, y as int),
                base + last < self.cells@.len() <= usize::MAX,
                forall|k: int|
                    0 <= k < self.cells@.len() ==> self.cells@[k] == if base + i < k <= base + last {
                        old(self).cells@[k - 1]
                    } else {
                        old(self).cells@[k]
                    },
            decreases i,
        {
            let moved = self.cells[base + i - 1];
            self.cells[base + i] = moved;
            i -= 1;
        }
        proof {
            assert forall|i: int, j: int| old(self).contains(i, j) implies #[trigger] self.cell(i, j)
                == if j == y && x < i {
                old(self).cell(i - 1, j)
            } else {
                old(self).cell(i, j)
            } by {
                lemma_flat_index_order(self.width as int, 0, y as int, i, j);
                lemma_flat_index_order(self.width as int, last as int, y as int, i, j);
                lemma_flat_index_in_range(self.width as int, self.height as int, i, j);
            }
        }
    }
}

impl Clone for Grid {
    /// A grid of its own with the same size and the same cells.
    fn clone(&self) -> (copy: Grid)
        ensures
            copy.spec_width() == self.spec_width(),
            copy.spec_height() == self.spec_height(),
            self.wf() ==> copy.wf(),
            forall|x: int, y: int| #[trigger] copy.cell(x, y) == self.cell(x, y),
    {
        let mut cells: Vec<PixelEnergyPoint> = Vec::new();
        let mut k: usize = 0;
        while k < self.cells.len()
            invariant
                k <= self.cells@.len(),
                cells@ == self.cells@.take(k as int),
            decreases self.cells@.len() - k,
        {
            cells.push(self.cells[k]);
            assert(cells@ =~= self.cells@.take(k + 1));
            k += 1;
        }
        assert(cells@ =~= self.cells@);
        Grid { width: self.width, height: self.height, cells }
    }
}

/// The cell that a new column is filled with: blank colour, no energy.
pub open spec fn blank_cell() -> PixelEnergyPoint {
    PixelEnergyPoint { pixel: blank_pixel(), energy: 0, path_cost: 0 }
}

} // verus!
