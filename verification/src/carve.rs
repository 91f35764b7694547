//! The carver: a grid of pixels that is resized along one axis by removing
//! seams of least energy, or by duplicating them.

use vstd::prelude::*;
use image::DynamicImage;
use crate::bitmap::{
    clone_image, dimensions, get_pixel, image_dimensions, image_picture, image_pixels, new_rgba8,
    put_pixel, stored_pixel,
};
use crate::config::{Mode, Orientation};
use crate::energy::{MAX_ENERGY, Pixel, PixelEnergyPoint, pixel_average};
use crate::grid::{Grid, flat_index};
use crate::picture::{
    Picture, by_descending_column, cheapest_parent, column_is, in_column, least_parent_cost,
    lemma_leftmost_min_unique,
};

verus! {

/// The colour with which `create_debug_image` marks a point: opaque red.
pub open spec fn marker_pixel() -> Pixel {
    [255u8, 0u8, 0u8, 255u8]
}

/// Whether each of `points` lies inside the bitmap.
pub open spec fn points_inside(image: DynamicImage, points: Seq<(usize, usize)>) -> bool {
    forall|k: int|
        0 <= k < points.len() ==> (#[trigger] points[k]).0 < image_dimensions(image).0
            && points[k].1 < image_dimensions(image).1
}

/// Whether a bitmap of the given size can be made: width and height fit
/// in `u32`, and its bytes, four for each pixel, are no more than a vector
/// can hold.
pub open spec fn can_hold(width: int, height: int) -> bool {
    &&& width <= u32::MAX
    &&& height <= u32::MAX
    &&& 4 * (width * height) <= isize::MAX
}

/// Why a resize was not carried out.
#[derive(Clone, Copy, Debug, PartialEq, Eq, Structural)]
pub enum ResizeError {
    /// The distance is not below the size along the axis of the resize.
    DistanceTooLarge { requested_distance: usize, current_dimension: usize },
    /// A bitmap of the size that the resize would give cannot be made.
    ImageTooLarge { width: u64, height: u64 },
}

/// The error with which a resize of `picture` is refused, if it is.
pub open spec fn resize_error(
    picture: Picture,
    distance: usize,
    orientation: Orientation,
    mode: Mode,
) -> Option<ResizeError> {
    let width = picture.resized_width(distance as nat, orientation, mode);
    let height = picture.resized_height(distance as nat, orientation, mode);
    if distance >= picture.axis_len(orientation) {
        Some(
            ResizeError::DistanceTooLarge {
                requested_distance: distance,
                current_dimension: picture.axis_len(orientation) as usize,
            },
        )
    } else if !can_hold(width, height) {
        Some(ResizeError::ImageTooLarge { width: width as u64, height: height as u64 })
    } else {
        None
    }
}

/// A pixel grid under carving, with the record of the seam points that
/// shrinking has removed from it so far.
pub struct Carver {
    grid: Grid,
    removed_points: Vec<(usize, usize)>,
}

impl Carver {
    /// The grid holds a cell for each position, and its width and height
    /// are such as a bitmap can have.
    pub closed spec fn wf(&self) -> bool {
        &&& self.grid.wf()
        &&& self.grid.spec_width() <= u32::MAX
        &&& self.grid.spec_height() <= u32::MAX
    }

    /// The colours of the grid as it stands.
    pub closed spec fn picture(&self) -> Picture {
        self.grid.picture()
    }

    /// The points removed so far, in the order of their removal.
    pub closed spec fn removed_points(&self) -> Seq<(usize, usize)> {
        self.removed_points@
    }

    /// The picture of a well-formed carver is well-formed and no larger
    /// than a bitmap can be.
    pub proof fn lemma_picture_wf(&self)
        requires
            self.wf(),
        ensures
            self.picture().wf(),
            self.picture().width <= u32::MAX,
            self.picture().height() <= u32::MAX,
    {
    }

    /// A carver for the given bitmap, with no point removed yet.
    pub fn new(image: &DynamicImage) -> (carver: Carver)
        ensures
            carver.wf(),
            carver.picture() == image_picture(*image),
            carver.removed_points() == Seq::<(usize, usize)>::empty(),
    {
        let (width, height) = dimensions(image);
        let mut grid = Grid::new(
            width as usize,
            height as usize,
            PixelEnergyPoint::from_pixel([0u8, 0u8, 0u8, 0u8]),
        );
        let mut y: u32 = 0;
        while y < height
            invariant
                y <= height,
                width == image_dimensions(*image).0,
                height == image_dimensions(*image).1,
                grid.wf(),
                grid.spec_width() == width,
                grid.spec_height() == height,
                forall|i: int, j: int|
                    0 <= i < width && 0 <= j < y ==> (#[trigger] grid.cell(i, j)).pixel
                        == image_pixels(*image)[(i, j)],
            decreases height - y,
        {
            let mut x: u32 = 0;
            while x < width
                invariant
                    x <= width,
                    y < height,
                    width == image_dimensions(*image).0,
                    height == image_dimensions(*image).1,
                    grid.wf(),
                    grid.spec_width() == width,
                    grid.spec_height() == height,
                    forall|i: int, j: int|
                        0 <= i < width && (0 <= j < y || (j == y && i < x)) ==> (
                        #[trigger] grid.cell(i, j)).pixel == image_pixels(*image)[(i, j)],
                decreases width - x,
            {
                let pixel = get_pixel(image, x, y);
                *grid.get_mut(x as usize, y as usize) = PixelEnergyPoint::from_pixel(pixel);
                x += 1;
            }
            y += 1;
        }
        let carver = Carver { grid, removed_points: Vec::new() };
        proof {
            assert(carver.picture().rows =~~= image_picture(*image).rows);
        }
        carver
    }

    /// The number of columns of the grid as it stands.
    pub fn width(&self) -> (width: usize)
        ensures
            width == self.picture().width,
    {
        self.grid.width()
    }

    /// The number of rows of the grid as it stands.
    pub fn height(&self) -> (height: usize)
        ensures
            height == self.picture().height(),
    {
        self.grid.height()
    }

    /// The points removed so far, in the order of their removal. They are
    /// positions in the grid as it was processed: for a vertical resize, in
    /// the transposed grid.
    pub fn get_removed_points(&self) -> (points: Vec<(usize, usize)>)
        ensures
            points@ == self.removed_points(),
    {
        copy_points(&self.removed_points)
    }

    /// The path cost that the cell at `(x, y)` holds.
    closed spec fn stored_cost(&self, x: int, y: int) -> int {
        self.grid.cell(x, y).path_cost as int
    }

    /// Every cell holds the energy and the path cost of its position in the
    /// picture as it stands.
    pub closed spec fn costs_computed(&self) -> bool {
        forall|x: int, y: int|
            self.grid.contains(x, y) ==> (#[trigger] self.grid.cell(x, y)).energy
                == self.grid.picture().energy(x, y) && self.grid.cell(x, y).path_cost
                == self.grid.picture().path_cost(x, y)
    }

    /// Computes the energy and the path cost of every position, row by row
    /// from the top and from left to right within a row.
    #[verifier::rlimit(30)]
    pub fn calculate_energy(&mut self)
        requires
            old(self).wf(),
        ensures
            final(self).wf(),
            final(self).costs_computed(),
            final(self).picture() == old(self).picture(),
            final(self).removed_points() == old(self).removed_points(),
    {
        let ghost pic = self.grid.picture();
        let mut y: usize = 0;
        while y < self.grid.height()
            invariant
                self.wf(),
                self.grid.picture() == pic,
                self.grid.spec_width() == old(self).grid.spec_width(),
                self.grid.spec_height() == old(self).grid.spec_height(),
                self.removed_points@ == old(self).removed_points@,
                forall|i: int, j: int|
                    self.grid.contains(i, j) && j < y ==> (#[trigger] self.grid.cell(i, j)).energy
                        == pic.energy(i, j) && self.grid.cell(i, j).path_cost == pic.path_cost(i, j),
            decreases self.grid.spec_height() - y,
        {
            let mut x: usize = 0;
            while x < self.grid.width()
                invariant
                    self.wf(),
                    y < self.grid.spec_height(),
                    self.grid.picture() == pic,
                    self.grid.spec_width() == old(self).grid.spec_width(),
                    self.grid.spec_height() == old(self).grid.spec_height(),
                    self.removed_points@ == old(self).removed_points@,
                    forall|i: int, j: int|
                        self.grid.contains(i, j) && (j < y || (j == y && i < x)) ==> (
                        #[trigger] self.grid.cell(i, j)).energy == pic.energy(i, j)
                            && self.grid.cell(i, j).path_cost == pic.path_cost(i, j),
                decreases self.grid.spec_width() - x,
            {
                self.calculate_pixel_energy(x, y);
                proof {
                    pic.lemma_energy_bound(x as int, y as int);
                    if y >= 1 {
                        assert forall|i: int| 0 <= i < self.grid.spec_width() implies #[trigger] self.stored_cost(
                            i,
                            y - 1,
                        ) <= MAX_ENERGY * y by {
                            pic.lemma_path_cost_bound(i, y - 1);
                            assert(self.grid.contains(i, y - 1));
                        }
                    }
                }
                self.calculate_path_cost(x, y);
                proof {
                    assert(self.grid.picture().rows =~~= pic.rows);
                    if y >= 1 {
                        assert(self.grid.contains(x as int, y - 1));
                        if x >= 1 {
                            assert(self.grid.contains(x - 1, y - 1));
                        }
                        if x + 1 < self.grid.spec_width() {
                            assert(self.grid.contains(x + 1, y - 1));
                        }
                    }
                }
                x += 1;
            }
            y += 1;
        }
    }

    /// Stores in the cell at `(x, y)` the energy of that position.
    fn calculate_pixel_energy(&mut self, x: usize, y: usize)
        requires
            old(self).wf(),
            old(self).grid.contains(x as int, y as int),
        ensures
            final(self).wf(),
            final(self).grid.spec_width() == old(self).grid.spec_width(),
            final(self).grid.spec_height() == old(self).grid.spec_height(),
            final(self).grid.picture() == old(self).grid.picture(),
            final(self).removed_points@ == old(self).removed_points@,
            final(self).grid.cell(x as int, y as int) == (PixelEnergyPoint {
                energy: old(self).grid.picture().energy(x as int, y as int) as u64,
                ..old(self).grid.cell(x as int, y as int)
            }),
            old(self).grid.picture().energy(x as int, y as int) <= MAX_ENERGY,
            forall|i: int, j: int|
                old(self).grid.contains(i, j) && (i != x || j != y) ==> #[trigger] final(self).grid.cell(i, j) == old(self).grid.cell(i, j),
    {
        let energy = {
            let (left, right, up, down) = self.grid.get_adjacent(x, y);
            let horizontal_square_gradient = left.square_gradient(right);
            let vertical_square_gradient = up.square_gradient(down);
            horizontal_square_gradient + vertical_square_gradient
        };
        let cell = self.grid.get_mut(x, y);
        cell.energy = energy;
        proof {
            assert(self.grid.picture().rows =~~= old(self).grid.picture().rows);
        }
    }

    /// Stores in the cell at `(x, y)` its path cost: its energy plus the
    /// least path cost that a parent holds, if it has parents.
    fn calculate_path_cost(&mut self, x: usize, y: usize)
        requires
            old(self).wf(),
            old(self).grid.contains(x as int, y as int),
            old(self).grid.cell(x as int, y as int).energy <= MAX_ENERGY,
            y >= 1 ==> forall|i: int|
                0 <= i < old(self).grid.spec_width() ==> #[trigger] old(self).stored_cost(i, y - 1)
                    <= MAX_ENERGY * y,
        ensures
            final(self).wf(),
            final(self).grid.spec_width() == old(self).grid.spec_width(),
            final(self).grid.spec_height() == old(self).grid.spec_height(),
            final(self).removed_points@ == old(self).removed_points@,
            final(self).grid.cell(x as int, y as int).pixel == old(self).grid.cell(
                x as int,
                y as int,
            ).pixel,
            final(self).grid.cell(x as int, y as int).energy == old(self).grid.cell(
                x as int,
                y as int,
            ).energy,
            final(self).grid.cell(x as int, y as int).path_cost == old(self).grid.cell(
                x as int,
                y as int,
            ).energy + (if y == 0 {
                0
            } else {
                least_parent_cost(
                    x as int,
                    old(self).grid.spec_width() as int,
                    old(self).stored_cost(x - 1, y - 1),
                    old(self).stored_cost(x as int, y - 1),
                    old(self).stored_cost(x + 1, y - 1),
                )
            }),
            forall|i: int, j: int|
                old(self).grid.contains(i, j) && (i != x || j != y) ==> #[trigger] final(self).grid.cell(i, j) == old(self).grid.cell(i, j),
    {
        let min_parent_path_cost = match self.get_min_parent_path_cost(x, y) {
            Some(cost) => cost,
            None => 0,
        };
        proof {
            if y >= 1 {
                assert(self.stored_cost(x as int, y - 1) <= MAX_ENERGY * y);
                if x >= 1 {
                    assert(self.stored_cost(x - 1, y - 1) <= MAX_ENERGY * y);
                }
                if x + 1 < self.grid.spec_width() {
                    assert(self.stored_cost(x + 1, y - 1) <= MAX_ENERGY * y);
                }
            }
        }
        let energy = self.grid.get(x, y).energy;
        let cell = self.grid.get_mut(x, y);
        cell.path_cost = min_parent_path_cost + energy;
    }

    /// The least path cost that a parent of `(x, y)` holds; `None` in the
    /// top row, where there are no parents.
    fn get_min_parent_path_cost(&self, x: usize, y: usize) -> (cost: Option<u64>)
        requires
            self.wf(),
            self.grid.contains(x as int, y as int),
        ensures
            y == 0 ==> cost.is_none(),
            y >= 1 ==> cost.is_some() && cost.unwrap() == least_parent_cost(
                x as int,
                self.grid.spec_width() as int,
                self.stored_cost(x - 1, y - 1),
                self.stored_cost(x as int, y - 1),
                self.stored_cost(x + 1, y - 1),
            ),
    {
        let parents = self.grid.get_parents(x, y);
        match first_cheapest(&parents) {
            None => None,
            Some(best) => {
                proof {
                    self.lemma_first_cheapest_parent(x as int, y as int, parents@, best as int);
                }
                Some(parents[best].2.path_cost)
            },
        }
    }

    /// The parent of `(x, y)` that holds the least path cost, the leftmost
    /// of them where several do; `None` in the top row.
    fn get_parent_with_min_path_cost(&self, x: usize, y: usize) -> (parent: Option<(usize, usize)>)
        requires
            self.wf(),
            self.grid.contains(x as int, y as int),
        ensures
            y == 0 ==> parent.is_none(),
            y >= 1 ==> parent.is_some() && parent.unwrap().1 == y - 1 && parent.unwrap().0
                == cheapest_parent(
                x as int,
                self.grid.spec_width() as int,
                self.stored_cost(x - 1, y - 1),
                self.stored_cost(x as int, y - 1),
                self.stored_cost(x + 1, y - 1),
            ),
            y >= 1 && self.costs_computed() ==> parent.unwrap().0 == self.grid.picture().best_parent(
                x as int,
                y as int,
            ) && parent.unwrap().0 < self.grid.spec_width(),
    {
        let parents = self.grid.get_parents(x, y);
        match first_cheapest(&parents) {
            None => None,
            Some(best) => {
                proof {
                    self.lemma_first_cheapest_parent(x as int, y as int, parents@, best as int);
                    if self.costs_computed() {
                        self.lemma_stored_best_parent(x as int, y as int);
                    }
                }
                Some((parents[best].0, parents[best].1))
            },
        }
    }

    /// With the path costs computed, the cheapest parent by the costs that
    /// the cells hold is the best parent in the picture, and lies in it.
    proof fn lemma_stored_best_parent(&self, x: int, y: int)
        requires
            self.wf(),
            self.costs_computed(),
            self.grid.contains(x, y),
            y >= 1,
        ensures
            cheapest_parent(
                x,
                self.grid.spec_width() as int,
                self.stored_cost(x - 1, y - 1),
                self.stored_cost(x, y - 1),
                self.stored_cost(x + 1, y - 1),
            ) == self.grid.picture().best_parent(x, y),
            0 <= self.grid.picture().best_parent(x, y) < self.grid.spec_width(),
    {
        assert(self.grid.contains(x, y - 1));
        if x >= 1 {
            assert(self.grid.contains(x - 1, y - 1));
        }
        if x + 1 < self.grid.spec_width() {
            assert(self.grid.contains(x + 1, y - 1));
        }
    }

    /// The first cheapest among the parents of `(x, y)` is the one that
    /// `cheapest_parent` names, and its cost the one that
    /// `least_parent_cost` gives.
    proof fn lemma_first_cheapest_parent(
        &self,
        x: int,
        y: int,
        parents: Seq<(usize, usize, PixelEnergyPoint)>,
        best: int,
    )
        requires
            self.wf(),
            self.grid.contains(x, y),
            parents == self.grid.parents(x, y),
            is_first_cheapest(parents, best),
        ensures
            y >= 1,
            parents[best].1 == y - 1,
            parents[best].0 == cheapest_parent(
                x,
                self.grid.spec_width() as int,
                self.stored_cost(x - 1, y - 1),
                self.stored_cost(x, y - 1),
                self.stored_cost(x + 1, y - 1),
            ),
            parents[best].2.path_cost == least_parent_cost(
                x,
                self.grid.spec_width() as int,
                self.stored_cost(x - 1, y - 1),
                self.stored_cost(x, y - 1),
                self.stored_cost(x + 1, y - 1),
            ),
    {
        let first = Grid::first_parent(x);
        let count = self.grid.last_parent(x) - first + 1;
        assert(parents.len() == count);
        assert(parents[0].2 == self.grid.cell(first, y - 1));
        if count >= 2 {
            assert(parents[1].2 == self.grid.cell(first + 1, y - 1));
        }
        if count >= 3 {
            assert(parents[2].2 == self.grid.cell(first + 2, y - 1));
        }
    }

    /// The position at which the seam starts: in the bottom row, the first
    /// column whose path cost is least.
    pub fn get_path_start(&self) -> (start: (usize, usize))
        requires
            self.wf(),
            self.costs_computed(),
            self.picture().width >= 1,
            self.picture().height() >= 1,
        ensures
            start.0 == self.picture().path_start(),
            start.0 < self.picture().width,
            start.1 == self.picture().height() - 1,
    {
        let y = self.grid.height() - 1;
        let row = self.grid.get_row(y);
        let mut best: usize = 0;
        let mut x: usize = 1;
        while x < row.len()
            invariant
                1 <= x <= row@.len(),
                0 <= best < x,
                forall|k: int| 0 <= k < x ==> row@[best as int].path_cost <= (#[trigger] row@[k]).path_cost,
                forall|k: int| 0 <= k < best ==> row@[best as int].path_cost < (#[trigger] row@[k]).path_cost,
            decreases row@.len() - x,
        {
            if row[x].path_cost < row[best].path_cost {
                best = x;
            }
            x += 1;
        }
        proof {
            let costs = self.grid.picture().row_costs(y as int);
            assert forall|k: int| 0 <= k < costs.len() implies #[trigger] costs[k] == row@[k].path_cost by {
                assert(self.grid.contains(k, y as int));
                assert(row@[k] == self.grid.cell(k, y as int));
            }
            lemma_leftmost_min_unique(costs, best as int);
        }
        (best, y)
    }

    /// The path from `(start_x, start_y)` up to the top row that goes at
    /// each step to the parent of least path cost, the leftmost of them
    /// where several have it. The points are listed from the start on.
    #[verifier::rlimit(30)]
    pub fn find_path(&self, start_x: usize, start_y: usize) -> (path: Vec<(usize, usize)>)
        requires
            self.wf(),
            self.costs_computed(),
            start_x < self.picture().width,
            start_y < self.picture().height(),
        ensures
            path@ == self.picture().path_from(start_x as int, start_y as int),
    {
        let ghost pic = self.grid.picture();
        let mut path: Vec<(usize, usize)> = Vec::new();
        path.push((start_x, start_y));
        let mut x = start_x;
        let mut y = start_y;
        while y > 0
            invariant
                self.wf(),
                self.costs_computed(),
                pic == self.grid.picture(),
                x < self.grid.spec_width(),
                y < self.grid.spec_height(),
                y <= start_y,
                is_path_prefix(pic, start_x as int, start_y as int, path@),
                path@.len() == start_y - y + 1,
                x == pic.ancestor(start_x as int, start_y as int, (start_y - y) as nat),
            decreases y,
        {
            match self.get_parent_with_min_path_cost(x, y) {
                None => {},
                Some(parent) => {
                    proof {
                        lemma_path_prefix_grows(pic, start_x as int, start_y as int, path@, parent);
                    }
                    path.push(parent);
                    x = parent.0;
                    y = parent.1;
                },
            }
        }
        proof {
            assert(path@ =~= pic.path_from(start_x as int, start_y as int));
        }
        path
    }

    /// Removes the given points from their rows: records each as removed
    /// and moves the cells to the right of it one column to the left, in
    /// the order of the points; then takes the last column away.
    #[verifier::rlimit(30)]
    pub fn remove_path(&mut self, points: Vec<(usize, usize)>)
        requires
            old(self).wf(),
            old(self).picture().width >= 1,
            forall|k: int|
                0 <= k < points@.len() ==> (#[trigger] points@[k]).0 < old(self).picture().width
                    && points@[k].1 < old(self).picture().height(),
        ensures
            final(self).wf(),
            final(self).picture() == old(self).picture().shift_left_all(points@).drop_last_column(),
            final(self).removed_points() == old(self).removed_points() + points@,
    {
        let ghost pic = self.grid.picture();
        let mut k: usize = 0;
        while k < points.len()
            invariant
                self.wf(),
                k <= points@.len(),
                pic == old(self).grid.picture(),
                self.grid.spec_width() == old(self).grid.spec_width(),
                self.grid.spec_height() == old(self).grid.spec_height(),
                self.grid.spec_width() >= 1,
                forall|k: int|
                    0 <= k < points@.len() ==> (#[trigger] points@[k]).0 < self.grid.spec_width()
                        && points@[k].1 < self.grid.spec_height(),
                self.grid.picture() == pic.shift_left_all(points@.take(k as int)),
                self.removed_points@ == old(self).removed_points@ + points@.take(k as int),
            decreases points@.len() - k,
        {
            let (x, y) = points[k];
            let ghost before = self.grid.picture();
            self.removed_points.push((x, y));
            self.grid.shift_row_left_from_point(x, y);
            proof {
                let next = points@.take(k + 1);
                assert(next.drop_last() =~= points@.take(k as int));
                assert(next.last() == (x, y));
                let shifted = before.shift_left(x as int, y as int);
                assert forall|j: int| 0 <= j < self.grid.spec_height() implies #[trigger] self.grid.picture().rows[j]
                    =~= shifted.rows[j] by {
                    assert forall|i: int| 0 <= i < self.grid.spec_width() implies self.grid.picture().rows[j][i]
                        == shifted.rows[j][i] by {
                        assert(self.grid.contains(i, j));
                    }
                }
                assert(self.grid.picture().rows =~= shifted.rows);
                assert(self.removed_points@ =~= old(self).removed_points@ + next);
            }
            k += 1;
        }
        let ghost before = self.grid.picture();
        self.grid.remove_last_column();
        proof {
            assert(points@.take(k as int) =~= points@);
            assert(self.grid.picture().rows =~~= before.drop_last_column().rows);
        }
    }

    /// Removes `distance` seams, one after another: each time the energies
    /// and path costs are computed anew, and the seam is found and removed
    /// in what the removals before it left.
    pub fn shrink_distance(&mut self, distance: usize)
        requires
            old(self).wf(),
            distance < old(self).picture().width,
        ensures
            final(self).wf(),
            final(self).picture() == old(self).picture().shrink(distance as nat),
            final(self).removed_points() == old(self).removed_points() + old(self).picture().shrink_points(distance as nat),
    {
        let ghost pic = self.grid.picture();
        let mut done: usize = 0;
        while done < distance
            invariant
                self.wf(),
                done <= distance,
                distance < pic.width,
                pic == old(self).grid.picture(),
                pic.wf(),
                self.grid.picture() == pic.shrink(done as nat),
                self.removed_points@ == old(self).removed_points@ + pic.shrink_points(done as nat),
            decreases distance - done,
        {
            let ghost now = self.grid.picture();
            proof {
                pic.lemma_shrink_shape(done as nat);
            }
            self.remove_cheapest_seam();
            done += 1;
            proof {
                lemma_append_twice(
                    old(self).removed_points@,
                    pic.shrink_points((done - 1) as nat),
                    now.seam(),
                );
            }
        }
    }

    /// Computes the energies and path costs, finds the seam and removes
    /// it. In a grid without rows the seam has no points, and only the
    /// width changes.
    fn remove_cheapest_seam(&mut self)
        requires
            old(self).wf(),
            old(self).picture().width >= 1,
        ensures
            final(self).wf(),
            final(self).picture() == old(self).picture().without_seam(),
            final(self).removed_points() == old(self).removed_points() + old(self).picture().seam(),
    {
        let ghost now = self.grid.picture();
        self.calculate_energy();
        let path = if self.grid.height() == 0 {
            Vec::new()
        } else {
            let (start_x, start_y) = self.get_path_start();
            self.find_path(start_x, start_y)
        };
        proof {
            now.lemma_seam_points();
            assert(path@ =~= now.seam());
            now.lemma_remove_seam();
        }
        self.remove_path(path);
    }

    /// Resizes the grid by `distance` along the axis of `orientation`,
    /// growing or shrinking as `mode` says, and gives the result as a new
    /// bitmap. A vertical resize transposes the grid, resizes its width and
    /// transposes it back.
    pub fn resize(&mut self, distance: usize, orientation: Orientation, mode: Mode) -> (image:
        DynamicImage)
        requires
            old(self).wf(),
            distance < old(self).picture().axis_len(orientation),
            can_hold(
                old(self).picture().resized_width(distance as nat, orientation, mode),
                old(self).picture().resized_height(distance as nat, orientation, mode),
            ),
        ensures
            final(self).wf(),
            final(self).picture() == old(self).picture().resize(distance as nat, orientation, mode),
            final(self).removed_points() == old(self).removed_points() + old(self).picture().resize_points(
                distance as nat,
                orientation,
                mode,
            ),
            image_picture(image) == final(self).picture(),
            forall|p: Pixel| #[trigger] stored_pixel(image, p) == p,
    {
        let ghost pic = self.grid.picture();
        match orientation {
            Orientation::Horizontal => self.resize_distance(distance, mode),
            Orientation::Vertical => {
                self.grid.rotate();
                proof {
                    assert(self.grid.picture().rows =~~= pic.transpose().rows);
                }
                let ghost turned = self.grid.picture();
                self.resize_distance(distance, mode);
                let ghost resized = self.grid.picture();
                proof {
                    turned.lemma_resize_width_shape(distance as nat, mode);
                    self.lemma_removed_points_append_empty();
                }
                self.grid.rotate();
                proof {
                    assert(self.grid.picture().rows =~~= resized.transpose().rows);
                }
            },
        }
        proof {
            pic.oriented(orientation).lemma_resize_width_shape(distance as nat, mode);
        }
        self.rebuild_image()
    }

    /// `resize`, refused with an error where `resize` must not be called:
    /// where the distance is not below the size along the axis, or where a
    /// bitmap of the resulting size cannot be made. A refused resize changes
    /// nothing.
    pub fn try_resize(&mut self, distance: usize, orientation: Orientation, mode: Mode) -> (result:
        Result<DynamicImage, ResizeError>)
        requires
            old(self).wf(),
        ensures
            final(self).wf(),
            result.is_ok() <==> resize_error(old(self).picture(), distance, orientation, mode).is_none(),
            match result {
                Ok(image) => {
                    &&& final(self).picture() == old(self).picture().resize(
                        distance as nat,
                        orientation,
                        mode,
                    )
                    &&& final(self).removed_points() == old(self).removed_points() + old(self).picture().resize_points(distance as nat, orientation, mode)
                    &&& image_picture(image) == final(self).picture()
                    &&& forall|p: Pixel| #[trigger] stored_pixel(image, p) == p
                },
                Err(error) => {
                    &&& Some(error) == resize_error(old(self).picture(), distance, orientation, mode)
                    &&& final(self).picture() == old(self).picture()
                    &&& final(self).removed_points() == old(self).removed_points()
                },
            },
    {
        let width = self.grid.width();
        let height = self.grid.height();
        let axis = match orientation {
            Orientation::Horizontal => width,
            Orientation::Vertical => height,
        };
        if distance >= axis {
            return Err(
                ResizeError::DistanceTooLarge { requested_distance: distance, current_dimension: axis },
            );
        }
        let resized: u64 = match mode {
            Mode::Grow => axis as u64 + distance as u64,
            Mode::Shrink => (axis - distance) as u64,
        };
        let (new_width, new_height) = match orientation {
            Orientation::Horizontal => (resized, height as u64),
            Orientation::Vertical => (width as u64, resized),
        };
        assert(new_width * new_height <= 0x2_0000_0000 * 0x2_0000_0000) by (nonlinear_arith)
            requires
                0 <= new_width <= 0x2_0000_0000,
                0 <= new_height <= 0x2_0000_0000,
        ;
        let bytes: u128 = 4 * (new_width as u128 * new_height as u128);
        if new_width > u32::MAX as u64 || new_height > u32::MAX as u64 || bytes > isize::MAX as u128 {
            return Err(ResizeError::ImageTooLarge { width: new_width, height: new_height });
        }
        Ok(self.resize(distance, orientation, mode))
    }

    /// Appending no points leaves the record of removed points as it is.
    proof fn lemma_removed_points_append_empty(&self)
        ensures
            self.removed_points@ + Seq::<(usize, usize)>::empty() == self.removed_points@,
    {
        assert(self.removed_points@ + Seq::<(usize, usize)>::empty() =~= self.removed_points@);
    }

    /// Changes the width by `distance`: grows or shrinks as `mode` says.
    fn resize_distance(&mut self, distance: usize, mode: Mode)
        requires
            old(self).wf(),
            distance < old(self).picture().width,
            mode == Mode::Grow ==> old(self).picture().width + distance <= u32::MAX,
        ensures
            final(self).wf(),
            final(self).picture() == old(self).picture().resize_width(distance as nat, mode),
            final(self).removed_points() == old(self).removed_points() + (match mode {
                Mode::Grow => Seq::empty(),
                Mode::Shrink => old(self).picture().shrink_points(distance as nat),
            }),
    {
        match mode {
            Mode::Grow => {
                self.grow_distance(distance);
                proof {
                    self.lemma_removed_points_append_empty();
                }
            },
            Mode::Shrink => self.shrink_distance(distance),
        }
    }

    /// Widens the grid by `distance` columns: finds the seams that a shrink
    /// by `distance` would remove, appends `distance` blank columns, and
    /// puts a new pixel to the right of each point of those seams, taking
    /// the points by descending column.
    #[verifier::rlimit(30)]
    pub fn grow_distance(&mut self, distance: usize)
        requires
            old(self).wf(),
            distance < old(self).picture().width,
            old(self).picture().width + distance <= u32::MAX,
        ensures
            final(self).wf(),
            final(self).picture() == old(self).picture().grow(distance as nat),
            final(self).removed_points() == old(self).removed_points(),
    {
        let ghost pic = self.grid.picture();
        let points = self.get_points_removed_by_shrink(distance);
        proof {
            pic.lemma_grow_points_inside(distance as nat);
            pic.lemma_grow_points_none();
            assert(self.grid.picture().rows =~~= pic.widen(0).rows);
        }
        let mut added: usize = 0;
        while added < distance
            invariant
                self.grid.wf(),
                added <= distance,
                pic.wf(),
                pic.width + distance <= u32::MAX,
                pic.height() <= u32::MAX,
                self.grid.spec_width() == pic.width + added,
                self.grid.spec_height() == pic.height(),
                self.grid.picture() == pic.widen(added as nat),
                self.removed_points@ == old(self).removed_points@,
            decreases distance - added,
        {
            let ghost before = self.grid.picture();
            self.grid.add_last_column();
            added += 1;
            proof {
                assert forall|j: int| 0 <= j < pic.height() implies #[trigger] self.grid.picture().rows[j]
                    =~= pic.widen(added as nat).rows[j] by {
                    assert forall|i: int| 0 <= i < self.grid.spec_width() implies self.grid.picture().rows[j][i]
                        == pic.widen(added as nat).rows[j][i] by {
                        if i < self.grid.spec_width() - 1 {
                            assert(before.rows[j][i] == pic.widen((added - 1) as nat).rows[j][i]);
                        }
                    }
                }
                assert(self.grid.picture().rows =~= pic.widen(added as nat).rows);
            }
        }
        let ghost wide = self.grid.picture();
        let mut k: usize = 0;
        while k < points.len()
            invariant
                self.wf(),
                k <= points@.len(),
                points@ == pic.grow_points(distance as nat),
                wide == pic.widen(distance as nat),
                wide.wf(),
                self.grid.spec_width() == pic.width + distance,
                self.grid.spec_height() == pic.height(),
                points@.len() > 0 ==> distance >= 1,
                forall|i: int|
                    0 <= i < points@.len() ==> (#[trigger] points@[i]).0 < pic.width && points@[i].1
                        < pic.height(),
                self.grid.picture() == wide.insert_all(points@.take(k as int)),
                self.removed_points@ == old(self).removed_points@,
            decreases points@.len() - k,
        {
            let (x, y) = points[k];
            let ghost before = self.grid.picture();
            let left = self.grid.get(x, y).pixel;
            let pixel = self.average_pixel_from_neighbors(x, y, left);
            self.add_point(x, y, pixel);
            proof {
                let next = points@.take(k + 1);
                assert(next.drop_last() =~= points@.take(k as int));
                assert(next.last() == (x, y));
                assert(before.at(x as int, y as int) == left);
            }
            k += 1;
        }
        proof {
            assert(points@.take(k as int) =~= points@);
        }
    }

    /// The points of the seams that a shrink by `distance` would remove,
    /// found by shrinking a copy of the grid, by descending column. Points
    /// of one column keep the order in which they were removed.
    pub fn get_points_removed_by_shrink(&self, distance: usize) -> (points: Vec<(usize, usize)>)
        requires
            self.wf(),
            distance < self.picture().width,
        ensures
            points@ == self.picture().grow_points(distance as nat),
    {
        let mut shrinker = Carver { grid: self.grid.clone(), removed_points: Vec::new() };
        proof {
            assert(shrinker.grid.picture().rows =~~= self.grid.picture().rows);
        }
        shrinker.shrink_distance(distance);
        let points = shrinker.get_removed_points();
        proof {
            assert(points@ =~= self.grid.picture().shrink_points(distance as nat));
        }
        sort_by_descending_column(&points, self.grid.width())
    }

    /// Puts `pixel` in directly to the right of `(x, y)`: the cells of the
    /// row from `(x, y)` on move one column to the right, and the cell at
    /// `(x + 1, y)` becomes one of the given colour.
    fn add_point(&mut self, x: usize, y: usize, pixel: Pixel)
        requires
            old(self).wf(),
            x + 1 < old(self).grid.spec_width(),
            y < old(self).grid.spec_height(),
        ensures
            final(self).wf(),
            final(self).grid.spec_width() == old(self).grid.spec_width(),
            final(self).grid.spec_height() == old(self).grid.spec_height(),
            final(self).grid.picture() == old(self).grid.picture().insert_pixel(
                x as int,
                y as int,
                pixel,
            ),
            final(self).removed_points@ == old(self).removed_points@,
    {
        self.grid.shift_row_right_from_point(x, y);
        *self.grid.get_mut(x + 1, y) = PixelEnergyPoint::from_pixel(pixel);
        proof {
            let expected = old(self).grid.picture().insert_pixel(x as int, y as int, pixel);
            assert forall|j: int| 0 <= j < self.grid.spec_height() implies #[trigger] self.grid.picture().rows[j]
                =~= expected.rows[j] by {
                assert forall|i: int| 0 <= i < self.grid.spec_width() implies self.grid.picture().rows[j][i]
                    == expected.rows[j][i] by {
                    assert(old(self).grid.contains(i, j));
                }
            }
            assert(self.grid.picture().rows =~= expected.rows);
        }
    }

    /// The mean of `left` and of the colour at `(x + 1, y)`.
    fn average_pixel_from_neighbors(&self, x: usize, y: usize, left: Pixel) -> (pixel: Pixel)
        requires
            self.wf(),
            x + 1 < self.grid.spec_width(),
            y < self.grid.spec_height(),
        ensures
            pixel == pixel_average(left, self.grid.picture().at(x + 1, y as int)),
    {
        let right = self.grid.get(x + 1, y).pixel;
        average_pixels(&left, &right)
    }

    /// A new bitmap in 8-bit RGBA with the colours of the grid.
    pub fn rebuild_image(&self) -> (image: DynamicImage)
        requires
            self.wf(),
            can_hold(self.picture().width as int, self.picture().height() as int),
        ensures
            image_picture(image) == self.picture(),
            forall|p: Pixel| #[trigger] stored_pixel(image, p) == p,
    {
        let width = self.grid.width();
        let height = self.grid.height();
        let mut image = new_rgba8(width as u32, height as u32);
        let items = self.grid.coord_iter();
        let mut k: usize = 0;
        while k < items.len()
            invariant
                self.wf(),
                width == self.grid.spec_width(),
                height == self.grid.spec_height(),
                k <= items@.len(),
                image_dimensions(image) == (width as u32, height as u32),
                forall|p: Pixel| #[trigger] stored_pixel(image, p) == p,
                forall|x: int, y: int|
                    self.grid.contains(x, y) ==> 0 <= #[trigger] flat_index(width as int, x, y)
                        < items@.len() && items@[flat_index(width as int, x, y)] == (
                        x as usize,
                        y as usize,
                        self.grid.cell(x, y),
                    ),
                forall|i: int|
                    0 <= i < items@.len() ==> self.grid.contains(
                        (#[trigger] items@[i]).0 as int,
                        items@[i].1 as int,
                    ) && flat_index(width as int, items@[i].0 as int, items@[i].1 as int) == i,
                forall|x: int, y: int|
                    self.grid.contains(x, y) && flat_index(width as int, x, y) < k
                        ==> #[trigger] image_pixels(image)[(x, y)] == self.grid.cell(x, y).pixel,
            decreases items@.len() - k,
        {
            let (x, y, cell) = items[k];
            proof {
                assert(self.grid.contains(items@[k as int].0 as int, items@[k as int].1 as int));
                assert(items@[flat_index(width as int, x as int, y as int)] == (
                    x,
                    y,
                    self.grid.cell(x as int, y as int),
                ));
            }
            put_pixel(&mut image, x as u32, y as u32, cell.pixel);
            k += 1;
        }
        proof {
            assert(image_picture(image).rows =~~= self.picture().rows);
        }
        image
    }
}

impl Clone for Carver {
    /// A carver of its own with the same picture and the same record of
    /// removed points.
    fn clone(&self) -> (copy: Carver)
        ensures
            copy.picture() == self.picture(),
            copy.removed_points() == self.removed_points(),
            self.wf() ==> copy.wf(),
    {
        let copy = Carver { grid: self.grid.clone(), removed_points: copy_points(&self.removed_points) };
        proof {
            assert(copy.grid.picture().rows =~~= self.grid.picture().rows);
        }
        copy
    }
}

/// `path` holds the first points of the path from `(x, y)` up to the top
/// row of `picture`.
spec fn is_path_prefix(picture: Picture, x: int, y: int, path: Seq<(usize, usize)>) -> bool {
    forall|k: int|
        0 <= k < path.len() ==> #[trigger] path[k] == (
            picture.ancestor(x, y, k as nat) as usize,
            (y - k) as usize,
        )
}

/// A prefix of the path, with the best parent of its last point appended,
/// is a prefix of the path.
proof fn lemma_path_prefix_grows(
    picture: Picture,
    x: int,
    y: int,
    path: Seq<(usize, usize)>,
    parent: (usize, usize),
)
    requires
        is_path_prefix(picture, x, y, path),
        1 <= path.len() <= y <= usize::MAX,
        parent.0 == picture.best_parent(
            picture.ancestor(x, y, (path.len() - 1) as nat),
            y - (path.len() - 1),
        ),
        parent.1 == y - path.len(),
    ensures
        is_path_prefix(picture, x, y, path.push(parent)),
        parent.0 == picture.ancestor(x, y, path.len()),
{
    let next = path.push(parent);
    assert(picture.ancestor(x, y, path.len()) == picture.best_parent(
        picture.ancestor(x, y, (path.len() - 1) as nat),
        y - (path.len() - 1),
    ));
    assert forall|k: int| 0 <= k < next.len() implies #[trigger] next[k] == (
        picture.ancestor(x, y, k as nat) as usize,
        (y - k) as usize,
    ) by {
        if k < path.len() {
            assert(next[k] == path[k]);
        }
    }
}

/// `index` is the place of the first of `parents` whose path cost is least.
spec fn is_first_cheapest(parents: Seq<(usize, usize, PixelEnergyPoint)>, index: int) -> bool {
    &&& 0 <= index < parents.len()
    &&& forall|k: int|
        0 <= k < parents.len() ==> parents[index].2.path_cost <= (#[trigger] parents[k]).2.path_cost
    &&& forall|k: int|
        0 <= k < index ==> parents[index].2.path_cost < (#[trigger] parents[k]).2.path_cost
}

/// The place of the first of `parents` whose path cost is least; `None`
/// where there are no parents.
fn first_cheapest(parents: &Vec<(usize, usize, PixelEnergyPoint)>) -> (index: Option<usize>)
    ensures
        parents@.len() == 0 ==> index.is_none(),
        parents@.len() > 0 ==> index.is_some() && is_first_cheapest(parents@, index.unwrap() as int),
{
    if parents.len() == 0 {
        return None;
    }
    let mut best: usize = 0;
    let mut k: usize = 1;
    while k < parents.len()
        invariant
            1 <= k <= parents@.len(),
            is_first_cheapest(parents@.take(k as int), best as int),
        decreases parents@.len() - k,
    {
        if parents[k].2.path_cost < parents[best].2.path_cost {
            best = k;
        }
        k += 1;
    }
    assert(parents@.take(k as int) =~= parents@);
    Some(best)
}

/// The points of `points` whose column is below `bound`, by descending
/// column; points of one column keep the order they had.
pub fn sort_by_descending_column(points: &Vec<(usize, usize)>, bound: usize) -> (sorted: Vec<
    (usize, usize),
>)
    ensures
        sorted@ == by_descending_column(points@, bound as nat),
{
    let mut sorted: Vec<(usize, usize)> = Vec::new();
    let mut column: usize = bound;
    while column > 0
        invariant
            column <= bound,
            sorted@ + by_descending_column(points@, column as nat) == by_descending_column(
                points@,
                bound as nat,
            ),
        decreases column,
    {
        let ghost before = sorted@;
        let ghost rest = by_descending_column(points@, column as nat);
        column -= 1;
        let mut k: usize = 0;
        while k < points.len()
            invariant
                k <= points@.len(),
                sorted@ == before + in_column(points@.take(k as int), column as int),
            decreases points@.len() - k,
        {
            proof {
                let done = points@.take(k as int);
                assert(points@.take(k + 1) =~= done.push(points@[k as int]));
                done.lemma_filter_push(points@[k as int], column_is(column as int));
            }
            if points[k].0 == column {
                sorted.push(points[k]);
            }
            proof {
                assert(sorted@ =~= before + in_column(points@.take(k + 1), column as int));
            }
            k += 1;
        }
        proof {
            assert(points@.take(k as int) =~= points@);
            assert(rest == in_column(points@, column as int) + by_descending_column(
                points@,
                column as nat,
            ));
            assert(sorted@ + by_descending_column(points@, column as nat) =~= before + rest);
        }
    }
    proof {
        assert(sorted@ + Seq::<(usize, usize)>::empty() =~= sorted@);
    }
    sorted
}

/// `create_debug_image` where every point lies inside the bitmap; `None`,
/// and no bitmap made, where one lies outside.
pub fn try_create_debug_image(image: &DynamicImage, points: &[(usize, usize)]) -> (marked: Option<
    DynamicImage,
>)
    ensures
        marked.is_some() <==> points_inside(*image, points@),
        marked.is_some() ==> {
            &&& image_dimensions(marked.unwrap()) == image_dimensions(*image)
            &&& forall|p: Pixel| #[trigger]
                stored_pixel(marked.unwrap(), p) == stored_pixel(*image, p)
            &&& forall|x: int, y: int|
                0 <= x < image_dimensions(*image).0 && 0 <= y < image_dimensions(*image).1
                    ==> #[trigger] image_pixels(marked.unwrap())[(x, y)] == if points@.contains(
                    (x as usize, y as usize),
                ) {
                    stored_pixel(*image, marker_pixel())
                } else {
                    image_pixels(*image)[(x, y)]
                }
        },
{
    let (width, height) = dimensions(image);
    let mut k: usize = 0;
    while k < points.len()
        invariant
            k <= points@.len(),
            (width, height) == image_dimensions(*image),
            points_inside(*image, points@.take(k as int)),
        decreases points@.len() - k,
    {
        let (x, y) = points[k];
        if x >= width as usize || y >= height as usize {
            return None;
        }
        proof {
            let next = points@.take(k + 1);
            assert forall|i: int| 0 <= i < next.len() implies (#[trigger] next[i]).0
                < image_dimensions(*image).0 && next[i].1 < image_dimensions(*image).1 by {
                if i < k {
                    assert(points@.take(k as int)[i] == next[i]);
                }
            }
        }
        k += 1;
    }
    assert(points@.take(k as int) =~= points@);
    Some(create_debug_image(image, points))
}

/// The channel-wise mean of two colours, each channel rounded down.
pub fn average_pixels(pixel1: &[u8; 4], pixel2: &[u8; 4]) -> (mean: [u8; 4])
    ensures
        mean == pixel_average(*pixel1, *pixel2),
{
    let mean: [u8; 4] = [
        ((pixel1[0] as u16 + pixel2[0] as u16) / 2) as u8,
        ((pixel1[1] as u16 + pixel2[1] as u16) / 2) as u8,
        ((pixel1[2] as u16 + pixel2[2] as u16) / 2) as u8,
        ((pixel1[3] as u16 + pixel2[3] as u16) / 2) as u8,
    ];
    assert(mean =~= pixel_average(*pixel1, *pixel2));
    mean
}

/// Appending two lists one after the other appends their concatenation.
proof fn lemma_append_twice(a: Seq<(usize, usize)>, b: Seq<(usize, usize)>, c: Seq<(usize, usize)>)
    ensures
        (a + b) + c == a + (b + c),
{
    assert((a + b) + c =~= a + (b + c));
}

/// A vector with the same points in the same order.
fn copy_points(points: &Vec<(usize, usize)>) -> (copy: Vec<(usize, usize)>)
    ensures
        copy@ == points@,
{
    let mut copy: Vec<(usize, usize)> = Vec::new();
    let mut k: usize = 0;
    while k < points.len()
        invariant
            k <= points@.len(),
            copy@ == points@.take(k as int),
        decreases points@.len() - k,
    {
        copy.push(points[k]);
        assert(copy@ =~= points@.take(k + 1));
        k += 1;
    }
    assert(copy@ =~= points@);
    copy
}

/// A copy of the bitmap in which each of `points` is marked with
/// opaque red, as far as the bitmap's format keeps that colour. All other
/// colours, the size and the format are those of the given bitmap.
pub fn create_debug_image(image: &DynamicImage, points: &[(usize, usize)]) -> (marked: DynamicImage)
    requires
        points_inside(*image, points@),
    ensures
        image_dimensions(marked) == image_dimensions(*image),
        forall|p: Pixel| #[trigger] stored_pixel(marked, p) == stored_pixel(*image, p),
        forall|x: int, y: int|
            0 <= x < image_dimensions(*image).0 && 0 <= y < image_dimensions(*image).1
                ==> #[trigger] image_pixels(marked)[(x, y)] == if points@.contains(
                (x as usize, y as usize),
            ) {
                stored_pixel(*image, marker_pixel())
            } else {
                image_pixels(*image)[(x, y)]
            },
{
    let red_pixel: [u8; 4] = [255, 0, 0, 255];
    assert(red_pixel =~= marker_pixel());
    let mut marked = clone_image(image);
    let mut k: usize = 0;
    while k < points.len()
        invariant
            k <= points@.len(),
            red_pixel == marker_pixel(),
            points_inside(*image, points@),
            image_dimensions(marked) == image_dimensions(*image),
            forall|p: Pixel| #[trigger] stored_pixel(marked, p) == stored_pixel(*image, p),
            forall|x: int, y: int|
                0 <= x < image_dimensions(*image).0 && 0 <= y < image_dimensions(*image).1
                    ==> #[trigger] image_pixels(marked)[(x, y)] == if points@.take(k as int).contains(
                    (x as usize, y as usize),
                ) {
                    stored_pixel(*image, marker_pixel())
                } else {
                    image_pixels(*image)[(x, y)]
                },
        decreases points@.len() - k,
    {
        let (x, y) = points[k];
        let ghost before = marked;
        put_pixel(&mut marked, x as u32, y as u32, red_pixel);
        proof {
            let done = points@.take(k as int);
            let next = points@.take(k + 1);
            assert(next =~= done.push((x, y)));
            assert forall|i: int, j: int|
                0 <= i < image_dimensions(*image).0 && 0 <= j < image_dimensions(*image).1
                    implies #[trigger] image_pixels(marked)[(i, j)] == if next.contains(
                (i as usize, j as usize),
            ) {
                stored_pixel(*image, marker_pixel())
            } else {
                image_pixels(*image)[(i, j)]
            } by {
                let point = (i as usize, j as usize);
                if point == (x, y) {
                    assert(next[k as int] == point);
                } else if done.contains(point) {
                    let at = choose|at: int| 0 <= at < done.len() && done[at] == point;
                    assert(next[at] == point);
                } else if next.contains(point) {
                    let at = choose|at: int| 0 <= at < next.len() && next[at] == point;
                    assert(done[at] == point);
                }
            }
        }
        k += 1;
    }
    assert(points@.take(k as int) =~= points@);
    marked
}

} // verus!
