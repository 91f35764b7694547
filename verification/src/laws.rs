//! What holds of every resize: how the size changes, what a seam looks
//! like, how many points a shrink records, and where the seam of a picture
//! of one colour runs.

use vstd::prelude::*;
use image::DynamicImage;
use crate::bitmap::image_picture;
use crate::config::{Mode, Orientation};
use crate::energy::{Pixel, pixel_square_gradient};
use crate::picture::{
    Picture, by_descending_column, column_is, in_column, lemma_by_descending_column_members,
    lemma_leftmost_min, lemma_leftmost_min_unique,
};
use vstd::seq_lib::{lemma_multiset_commutative, to_multiset_build, to_multiset_len};

verus! {

impl Picture {
    /// The size across the axis that the orientation resizes.
    pub open spec fn cross_len(self, orientation: Orientation) -> nat {
        match orientation {
            Orientation::Horizontal => self.height(),
            Orientation::Vertical => self.width,
        }
    }

    /// A well-formed picture transposed is well-formed, with width and
    /// height exchanged.
    pub proof fn lemma_oriented_shape(self, orientation: Orientation)
        requires
            self.wf(),
        ensures
            self.oriented(orientation).wf(),
            self.oriented(orientation).width == self.axis_len(orientation),
            self.oriented(orientation).height() == self.cross_len(orientation),
    {
    }

    /// Transposing twice gives the picture back.
    pub proof fn lemma_transpose_twice(self)
        requires
            self.wf(),
        ensures
            self.transpose().transpose() == self,
    {
        assert(self.transpose().transpose().rows =~~= self.rows);
    }

    /// A resize by nothing changes nothing and records nothing.
    pub proof fn lemma_resize_by_nothing(self, orientation: Orientation, mode: Mode)
        requires
            self.wf(),
        ensures
            self.resize(0, orientation, mode) == self,
            self.resize_points(0, orientation, mode).len() == 0,
    {
        self.lemma_oriented_shape(orientation);
        let turned = self.oriented(orientation);
        turned.lemma_grow_points_none();
        assert(turned.grow_points(0) =~= Seq::empty());
        assert(turned.widen(0).rows =~~= turned.rows);
        assert(turned.resize_width(0, mode) == turned);
        self.lemma_transpose_twice();
    }

    /// A resize by a distance below the size along its axis changes that
    /// size by exactly the distance, up for a grow and down for a shrink,
    /// and leaves the size across the axis as it is.
    pub proof fn lemma_resize_shape(self, distance: nat, orientation: Orientation, mode: Mode)
        requires
            self.wf(),
            self.width <= usize::MAX,
            self.height() <= usize::MAX,
            distance < self.axis_len(orientation),
        ensures
            self.resize(distance, orientation, mode).wf(),
            self.resize(distance, orientation, mode).width == self.resized_width(
                distance,
                orientation,
                mode,
            ),
            self.resize(distance, orientation, mode).height() == self.resized_height(
                distance,
                orientation,
                mode,
            ),
            self.resize(distance, orientation, mode).cross_len(orientation) == self.cross_len(
                orientation,
            ),
            self.resize(distance, orientation, mode).axis_len(orientation) == (match mode {
                Mode::Grow => (self.axis_len(orientation) + distance) as int,
                Mode::Shrink => self.axis_len(orientation) - distance,
            }),
    {
        self.lemma_oriented_shape(orientation);
        let turned = self.oriented(orientation);
        turned.lemma_resize_width_shape(distance, mode);
        turned.resize_width(distance, mode).lemma_oriented_shape(orientation);
    }

    /// Shrinking by a distance below the size along the axis takes exactly
    /// that distance off that size and leaves the other size as it is.
    pub proof fn lemma_shrink_reduces_one_axis(self, distance: nat, orientation: Orientation)
        requires
            self.wf(),
            self.width <= usize::MAX,
            self.height() <= usize::MAX,
            distance < self.axis_len(orientation),
        ensures
            self.resize(distance, orientation, Mode::Shrink).axis_len(orientation) == self.axis_len(
                orientation,
            ) - distance,
            self.resize(distance, orientation, Mode::Shrink).cross_len(orientation)
                == self.cross_len(orientation),
    {
        self.lemma_resize_shape(distance, orientation, Mode::Shrink);
    }

    /// A seam has exactly one point in each row, listed from the bottom row
    /// up; each point lies in the picture, and the columns of points in
    /// neighbouring rows differ by at most one.
    pub proof fn lemma_seam_is_connected(self)
        requires
            self.wf(),
            self.width >= 1,
            self.width <= usize::MAX,
            self.height() <= usize::MAX,
        ensures
            self.seam().len() == self.height(),
            forall|k: int|
                0 <= k < self.height() ==> (#[trigger] self.seam()[k]).1 == self.height() - 1 - k
                    && self.seam()[k].0 < self.width,
            forall|k: int|
                0 <= k && k + 1 < self.height() ==> self.seam()[k].0 - 1 <= (
                #[trigger] self.seam()[k + 1]).0 <= self.seam()[k].0 + 1,
    {
        self.lemma_seam_points();
        assert forall|k: int| 0 <= k && k + 1 < self.height() implies self.seam()[k].0 - 1 <= (
        #[trigger] self.seam()[k + 1]).0 <= self.seam()[k].0 + 1 by {
            self.lemma_seam_column_inside(self.height() - 2 - k);
            assert(self.seam()[k].0 == self.seam_column(self.height() - 1 - k));
        }
    }

    /// A shrink by `distance` records exactly `distance` points for each
    /// row of the picture as it is processed: `distance` times the size
    /// across the axis.
    pub proof fn lemma_shrink_records_whole_seams(self, distance: nat, orientation: Orientation)
        requires
            self.wf(),
            self.width <= usize::MAX,
            self.height() <= usize::MAX,
            distance < self.axis_len(orientation),
        ensures
            self.resize_points(distance, orientation, Mode::Shrink).len() == distance
                * self.cross_len(orientation),
    {
        self.lemma_oriented_shape(orientation);
        self.oriented(orientation).lemma_shrink_points(distance);
    }

    /// Growing by `distance` and then shrinking by `distance` along the
    /// same axis gives a picture of the width and height it started with.
    pub proof fn lemma_grow_then_shrink_restores_size(self, distance: nat, orientation: Orientation)
        requires
            self.wf(),
            self.width + distance <= usize::MAX,
            self.height() + distance <= usize::MAX,
            distance < self.axis_len(orientation),
        ensures
            self.resize(distance, orientation, Mode::Grow).resize(
                distance,
                orientation,
                Mode::Shrink,
            ).width == self.width,
            self.resize(distance, orientation, Mode::Grow).resize(
                distance,
                orientation,
                Mode::Shrink,
            ).height() == self.height(),
    {
        self.lemma_resize_shape(distance, orientation, Mode::Grow);
        self.resize(distance, orientation, Mode::Grow).lemma_resize_shape(
            distance,
            orientation,
            Mode::Shrink,
        );
    }

    /// Shrinking by `distance` and then growing by `distance` along the
    /// same axis gives a picture of the width and height it started with, where
    /// the shrunk picture is still larger along the axis than `distance`,
    /// so that it can be grown by it.
    pub proof fn lemma_shrink_then_grow_restores_size(self, distance: nat, orientation: Orientation)
        requires
            self.wf(),
            self.width <= usize::MAX,
            self.height() <= usize::MAX,
            distance < self.axis_len(orientation) - distance,
        ensures
            self.resize(distance, orientation, Mode::Shrink).resize(
                distance,
                orientation,
                Mode::Grow,
            ).width == self.width,
            self.resize(distance, orientation, Mode::Shrink).resize(
                distance,
                orientation,
                Mode::Grow,
            ).height() == self.height(),
    {
        self.lemma_resize_shape(distance, orientation, Mode::Shrink);
        self.resize(distance, orientation, Mode::Shrink).lemma_resize_shape(
            distance,
            orientation,
            Mode::Grow,
        );
    }

    /// Below the top row the path cost of a position is its energy plus the
    /// path cost of its best parent; no parent has a smaller path cost, and
    /// no parent to the left of the best one has one as small.
    pub proof fn lemma_best_parent_is_leftmost_cheapest(self, x: int, y: int, parent: int)
        requires
            0 <= x < self.width,
            1 <= y,
            0 <= parent < self.width,
            x - 1 <= parent <= x + 1,
        ensures
            self.path_cost(x, y) == self.energy(x, y) + self.path_cost(self.best_parent(x, y), y - 1),
            self.path_cost(self.best_parent(x, y), y - 1) <= self.path_cost(parent, y - 1),
            parent < self.best_parent(x, y) ==> self.path_cost(self.best_parent(x, y), y - 1)
                < self.path_cost(parent, y - 1),
    {
    }

    /// The seam starts in the bottom row at a column of least path cost,
    /// and no column to the left of it has a path cost as small.
    pub proof fn lemma_path_start_is_leftmost_cheapest(self, x: int)
        requires
            self.height() >= 1,
            0 <= x < self.width,
        ensures
            self.path_cost(self.path_start(), self.height() - 1) <= self.path_cost(
                x,
                self.height() - 1,
            ),
            x < self.path_start() ==> self.path_cost(self.path_start(), self.height() - 1)
                < self.path_cost(x, self.height() - 1),
    {
        let costs = self.row_costs(self.height() - 1);
        lemma_leftmost_min(costs);
        assert(costs[x] == self.path_cost(x, self.height() - 1));
        assert(costs[self.path_start()] == self.path_cost(self.path_start(), self.height() - 1));
    }

    /// Whether `columns` gives a connected path from the top row to the
    /// bottom row: one column of the picture for each row, those of
    /// neighbouring rows at most one apart.
    pub open spec fn is_path(self, columns: Seq<int>) -> bool {
        &&& columns.len() == self.height()
        &&& forall|y: int| 0 <= y < self.height() ==> 0 <= #[trigger] columns[y] < self.width
        &&& forall|y: int|
            0 <= y && y + 1 < self.height() ==> columns[y] - 1 <= #[trigger] columns[y + 1]
                <= columns[y] + 1
    }

    /// The sum of the energies at the positions of `columns` in the first
    /// `rows` rows.
    pub open spec fn energy_along(self, columns: Seq<int>, rows: nat) -> int
        decreases rows,
    {
        if rows == 0 {
            0
        } else {
            self.energy_along(columns, (rows - 1) as nat) + self.energy(columns[rows - 1], rows - 1)
        }
    }

    /// The columns of the seam, row by row from the top.
    pub open spec fn seam_columns(self) -> Seq<int> {
        Seq::new(self.height(), |y: int| self.seam_column(y))
    }

    /// No connected path down to a position has less energy than the path
    /// cost of that position.
    pub proof fn lemma_path_cost_is_lower_bound(self, columns: Seq<int>, rows: nat)
        requires
            self.is_path(columns),
            1 <= rows <= self.height(),
        ensures
            self.path_cost(columns[rows - 1], rows - 1) <= self.energy_along(columns, rows),
        decreases rows,
    {
        if rows > 1 {
            self.lemma_path_cost_is_lower_bound(columns, (rows - 1) as nat);
            assert(columns[rows - 2] - 1 <= columns[(rows - 2) + 1] <= columns[rows - 2] + 1);
            self.lemma_best_parent_is_leftmost_cheapest(
                columns[rows - 1],
                rows - 1,
                columns[rows - 2],
            );
        } else {
            assert(self.energy_along(columns, 0) == 0);
        }
    }

    /// Above the bottom row the seam goes through the best parent of its
    /// position in the row below.
    pub proof fn lemma_seam_follows_best_parent(self, y: int)
        requires
            1 <= y < self.height(),
        ensures
            self.seam_column(y - 1) == self.best_parent(self.seam_column(y), y),
    {
        let bottom = self.height() - 1;
        assert(self.ancestor(self.path_start(), bottom, (bottom - (y - 1)) as nat)
            == self.best_parent(
            self.ancestor(self.path_start(), bottom, (bottom - y) as nat),
            bottom - (bottom - y),
        ));
    }

    /// The energy along the seam down to a row is the path cost of the
    /// seam's position in that row.
    pub proof fn lemma_seam_energy_is_path_cost(self, rows: nat)
        requires
            self.width >= 1,
            1 <= rows <= self.height(),
        ensures
            self.energy_along(self.seam_columns(), rows) == self.path_cost(
                self.seam_column(rows - 1),
                rows - 1,
            ),
        decreases rows,
    {
        if rows > 1 {
            self.lemma_seam_energy_is_path_cost((rows - 1) as nat);
            self.lemma_seam_follows_best_parent(rows - 1);
            self.lemma_seam_column_inside(rows - 1);
            self.lemma_seam_column_inside(rows - 2);
            self.lemma_best_parent_is_leftmost_cheapest(
                self.seam_column(rows - 1),
                rows - 1,
                self.seam_column(rows - 2),
            );
        } else {
            assert(self.energy_along(self.seam_columns(), 0) == 0);
        }
    }

    /// The seam is a connected path from the top row to the bottom row,
    /// and no such path has less energy in all.
    pub proof fn lemma_seam_has_least_energy(self, columns: Seq<int>)
        requires
            self.width >= 1,
            self.is_path(columns),
        ensures
            self.is_path(self.seam_columns()),
            self.energy_along(self.seam_columns(), self.height()) <= self.energy_along(
                columns,
                self.height(),
            ),
    {
        assert forall|y: int| 0 <= y < self.height() implies 0 <= #[trigger] self.seam_columns()[y]
            < self.width by {
            self.lemma_seam_column_inside(y);
        }
        assert forall|y: int| 0 <= y && y + 1 < self.height() implies self.seam_columns()[y] - 1
            <= #[trigger] self.seam_columns()[y + 1] <= self.seam_columns()[y] + 1 by {
            self.lemma_seam_column_inside(y);
        }
        if self.height() >= 1 {
            let bottom = self.height() - 1;
            self.lemma_seam_energy_is_path_cost(self.height());
            self.lemma_path_cost_is_lower_bound(columns, self.height());
            self.lemma_path_start_is_leftmost_cheapest(columns[bottom]);
            assert(self.seam_column(bottom) == self.path_start());
        }
    }

    /// Whether every position of the picture has the colour `colour`.
    pub open spec fn is_uniform(self, colour: Pixel) -> bool {
        forall|x: int, y: int|
            0 <= x < self.width && 0 <= y < self.height() ==> #[trigger] self.at(x, y) == colour
    }

    /// In a picture of one colour every position has path cost zero.
    pub proof fn lemma_uniform_costs_nothing(self, colour: Pixel, x: int, y: int)
        requires
            self.is_uniform(colour),
            0 <= x < self.width,
            0 <= y < self.height(),
        ensures
            self.energy(x, y) == 0,
            self.path_cost(x, y) == 0,
        decreases y,
    {
        let left = if x >= 1 { x - 1 } else { x };
        let right = if x + 1 < self.width { x + 1 } else { x };
        let up = if y >= 1 { y - 1 } else { y };
        let down = if y + 1 < self.height() { y + 1 } else { y };
        assert(self.at(left, y) == colour);
        assert(self.at(right, y) == colour);
        assert(self.at(x, up) == colour);
        assert(self.at(x, down) == colour);
        assert(pixel_square_gradient(colour, colour) == 0);
        if y > 0 {
            self.lemma_uniform_costs_nothing(colour, x, y - 1);
            if x >= 1 {
                self.lemma_uniform_costs_nothing(colour, x - 1, y - 1);
            }
            if x + 1 < self.width {
                self.lemma_uniform_costs_nothing(colour, x + 1, y - 1);
            }
        }
    }

    /// In a picture of one colour the path that starts in column 0 stays
    /// in column 0.
    pub proof fn lemma_uniform_path_stays_left(self, colour: Pixel, y: int, steps: nat)
        requires
            self.is_uniform(colour),
            self.width >= 1,
            0 <= y < self.height(),
            steps <= y,
        ensures
            self.ancestor(0, y, steps) == 0,
        decreases steps,
    {
        if steps > 0 {
            self.lemma_uniform_path_stays_left(colour, y, (steps - 1) as nat);
            let row = y - (steps - 1);
            self.lemma_uniform_costs_nothing(colour, 0, row - 1);
            if 1 < self.width {
                self.lemma_uniform_costs_nothing(colour, 1, row - 1);
            }
        }
    }

    /// In a picture of one colour every tie goes to the left: the seam is
    /// the leftmost column, from `(0, height - 1)` up to `(0, 0)`.
    pub proof fn lemma_uniform_seam_is_leftmost_column(self, colour: Pixel)
        requires
            self.wf(),
            self.width >= 1,
            self.height() <= usize::MAX,
            self.is_uniform(colour),
        ensures
            self.seam() == Seq::new(self.height(), |k: int| (0usize, (self.height() - 1 - k) as usize)),
    {
        let leftmost = Seq::new(self.height(), |k: int| (0usize, (self.height() - 1 - k) as usize));
        if self.height() >= 1 {
            let bottom = self.height() - 1;
            let costs = self.row_costs(bottom);
            assert forall|k: int| 0 <= k < costs.len() implies costs[0] <= #[trigger] costs[k] by {
                self.lemma_uniform_costs_nothing(colour, 0, bottom);
                self.lemma_uniform_costs_nothing(colour, k, bottom);
            }
            lemma_leftmost_min_unique(costs, 0);
            assert forall|k: int| 0 <= k < self.height() implies #[trigger] self.seam()[k]
                == leftmost[k] by {
                self.lemma_uniform_path_stays_left(colour, bottom, k as nat);
            }
        }
        assert(self.seam() =~= leftmost);
    }
}

/// The test whether a point lies in a column below `bound`.
pub open spec fn column_below(bound: int) -> spec_fn((usize, usize)) -> bool {
    |p: (usize, usize)| p.0 < bound
}

/// The points in the columns below `bound + 1` are those in column `bound`
/// together with those in the columns below `bound`.
pub proof fn lemma_split_by_column(points: Seq<(usize, usize)>, bound: int)
    ensures
        points.filter(column_below(bound + 1)).to_multiset() == in_column(
            points,
            bound,
        ).to_multiset().add(points.filter(column_below(bound)).to_multiset()),
    decreases points.len(),
{
    broadcast use vstd::multiset::group_multiset_axioms;

    let upto = column_below(bound + 1);
    let below = column_below(bound);
    let here = column_is(bound);
    if points.len() == 0 {
        reveal(Seq::filter);
        to_multiset_len(points.filter(upto));
        to_multiset_len(points.filter(here));
        to_multiset_len(points.filter(below));
        assert(points.filter(upto).to_multiset() =~= points.filter(here).to_multiset().add(
            points.filter(below).to_multiset(),
        ));
    } else {
        let front = points.drop_last();
        let last = points.last();
        assert(points =~= front.push(last));
        lemma_split_by_column(front, bound);
        front.lemma_filter_push(last, upto);
        front.lemma_filter_push(last, below);
        front.lemma_filter_push(last, here);
        to_multiset_build(front.filter(upto), last);
        to_multiset_build(front.filter(below), last);
        to_multiset_build(front.filter(here), last);
        assert(upto(last) == (here(last) || below(last)));
        assert(!(here(last) && below(last)));
        assert(points.filter(upto).to_multiset() =~= points.filter(here).to_multiset().add(
            points.filter(below).to_multiset(),
        ));
    }
}

/// Where every point satisfies the test, the filter keeps the whole list.
pub proof fn lemma_filter_keeps_all(points: Seq<(usize, usize)>, test: spec_fn((usize, usize)) -> bool)
    requires
        forall|k: int| 0 <= k < points.len() ==> test(#[trigger] points[k]),
    ensures
        points.filter(test) == points,
    decreases points.len(),
{
    reveal(Seq::filter);
    if points.len() > 0 {
        let front = points.drop_last();
        assert forall|k: int| 0 <= k < front.len() implies test(#[trigger] front[k]) by {
            assert(front[k] == points[k]);
        }
        lemma_filter_keeps_all(front, test);
        assert(test(points[points.len() - 1]));
        assert(front.push(points.last()) =~= points);
    } else {
        assert(points.filter(test) =~= points);
    }
}

/// `by_descending_column` holds exactly the points that lie in a column
/// below the bound, each as often as the given list holds it.
pub proof fn lemma_by_descending_column_permutes(points: Seq<(usize, usize)>, bound: nat)
    ensures
        by_descending_column(points, bound).to_multiset() == points.filter(
            column_below(bound as int),
        ).to_multiset(),
    decreases bound,
{
    if bound == 0 {
        let none = points.filter(column_below(0));
        if none.len() > 0 {
            points.lemma_filter_pred(column_below(0), 0);
        }
        assert(by_descending_column(points, bound) =~= none);
    } else {
        let head = in_column(points, bound - 1);
        let tail = by_descending_column(points, (bound - 1) as nat);
        lemma_by_descending_column_permutes(points, (bound - 1) as nat);
        lemma_multiset_commutative(head, tail);
        lemma_split_by_column(points, bound - 1);
    }
}

/// Sorting by descending column reorders the points and loses none: where
/// every point lies in a column below the bound, the sorted list holds each
/// point as often as the given one, and is as long.
pub proof fn lemma_by_descending_column_keeps_all(points: Seq<(usize, usize)>, bound: nat)
    requires
        forall|k: int| 0 <= k < points.len() ==> (#[trigger] points[k]).0 < bound,
    ensures
        by_descending_column(points, bound).to_multiset() == points.to_multiset(),
        by_descending_column(points, bound).len() == points.len(),
{
    lemma_by_descending_column_permutes(points, bound);
    lemma_filter_keeps_all(points, column_below(bound as int));
    to_multiset_len(points);
    to_multiset_len(by_descending_column(points, bound));
}

/// In `by_descending_column` no point stands before one of a higher column.
pub proof fn lemma_by_descending_column_is_sorted(points: Seq<(usize, usize)>, bound: nat)
    ensures
        forall|i: int, j: int|
            0 <= i <= j < by_descending_column(points, bound).len() ==> (
            #[trigger] by_descending_column(points, bound)[i]).0 >= (#[trigger] by_descending_column(
                points,
                bound,
            )[j]).0,
    decreases bound,
{
    if bound > 0 {
        let sorted = by_descending_column(points, bound);
        let head = in_column(points, bound - 1);
        let tail = by_descending_column(points, (bound - 1) as nat);
        lemma_by_descending_column_is_sorted(points, (bound - 1) as nat);
        lemma_by_descending_column_members(points, (bound - 1) as nat);
        assert forall|i: int, j: int| 0 <= i <= j < sorted.len() implies (#[trigger] sorted[i]).0 >= (
        #[trigger] sorted[j]).0 by {
            if i < head.len() {
                points.lemma_filter_pred(column_is(bound - 1), i);
                assert(sorted[i] == head[i]);
                if j < head.len() {
                    points.lemma_filter_pred(column_is(bound - 1), j);
                    assert(sorted[j] == head[j]);
                } else {
                    assert(sorted[j] == tail[j - head.len()]);
                }
            } else {
                assert(sorted[i] == tail[i - head.len()]);
                assert(sorted[j] == tail[j - head.len()]);
            }
        }
    }
}

/// Carving is a function of the bitmap's colours and of the parameters:
/// two bitmaps that hold the same picture give, for the same distance,
/// orientation and mode, the same resized picture and the same recorded
/// points.
pub proof fn lemma_carving_is_deterministic(
    first: DynamicImage,
    second: DynamicImage,
    distance: nat,
    orientation: Orientation,
    mode: Mode,
)
    requires
        image_picture(first) == image_picture(second),
    ensures
        image_picture(first).resize(distance, orientation, mode) == image_picture(second).resize(
            distance,
            orientation,
            mode,
        ),
        image_picture(first).resize_points(distance, orientation, mode) == image_picture(
            second,
        ).resize_points(distance, orientation, mode),
{
}

} // verus!
