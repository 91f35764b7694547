//! The mathematical model of seam carving: a rectangle of colours, the
//! energy and path cost of each of its positions, the seam those costs
//! select, and what removing or duplicating seams makes of the rectangle.
//!
//! Everything here is specification; the executable carver is proved to
//! compute exactly these functions.

use vstd::prelude::*;
use crate::config::{Mode, Orientation};
use crate::energy::{Pixel, lemma_square_gradient_bound, pixel_average, pixel_square_gradient};

verus! {

/// The colour of a column that is appended to widen a picture.
pub open spec fn blank_pixel() -> Pixel {
    [0u8, 0u8, 0u8, 0u8]
}

/// The index of the first smallest element of `s` (0 when `s` is empty).
pub open spec fn leftmost_min(s: Seq<int>) -> int
    decreases s.len(),
{
    if s.len() <= 1 {
        0
    } else {
        let before = leftmost_min(s.drop_last());
        if s.last() < s[before] {
            s.len() - 1
        } else {
            before
        }
    }
}

/// The least path cost among the parents of a position in column `x` of a
/// picture `width` wide, where `left`, `mid` and `right` are the path costs
/// in the columns `x - 1`, `x` and `x + 1` of the row above. A column that
/// the picture does not have takes no part.
pub open spec fn least_parent_cost(x: int, width: int, left: int, mid: int, right: int) -> int {
    let first = if x >= 1 && left <= mid { left } else { mid };
    if x + 1 < width && right < first { right } else { first }
}

/// The column of the parent that has that least path cost; where several
/// have it, the leftmost of them.
pub open spec fn cheapest_parent(x: int, width: int, left: int, mid: int, right: int) -> int {
    let left_wins = x >= 1 && left <= mid;
    let first = if left_wins { left } else { mid };
    if x + 1 < width && right < first {
        x + 1
    } else if left_wins {
        x - 1
    } else {
        x
    }
}

/// The test whether a point lies in column `column`.
pub open spec fn column_is(column: int) -> spec_fn((usize, usize)) -> bool {
    |p: (usize, usize)| p.0 == column
}

/// The points whose column is `column`, in the order in which `points` holds them.
pub open spec fn in_column(points: Seq<(usize, usize)>, column: int) -> Seq<(usize, usize)> {
    points.filter(column_is(column))
}

/// The points of `points` whose column is below `bound`, ordered by
/// descending column; points of one column keep the order they had.
pub open spec fn by_descending_column(points: Seq<(usize, usize)>, bound: nat) -> Seq<(usize, usize)>
    decreases bound,
{
    if bound == 0 {
        Seq::empty()
    } else {
        in_column(points, bound - 1) + by_descending_column(points, (bound - 1) as nat)
    }
}

/// A rectangle of colours, `width` columns wide, held row by row from the
/// top. Its height is the number of rows.
pub struct Picture {
    pub width: nat,
    pub rows: Seq<Seq<Pixel>>,
}

impl Picture {
    /// The number of rows.
    pub open spec fn height(self) -> nat {
        self.rows.len()
    }

    /// Every row has exactly `width` colours.
    pub open spec fn wf(self) -> bool {
        forall|y: int| 0 <= y < self.rows.len() ==> (#[trigger] self.rows[y]).len() == self.width
    }

    /// The colour in column `x` of row `y`.
    pub open spec fn at(self, x: int, y: int) -> Pixel {
        self.rows[y][x]
    }

    /// The gradient energy at `(x, y)`: the squared colour gradient between
    /// the left and right neighbours plus that between the upper and lower
    /// ones. At a border the position itself stands in for the missing
    /// neighbour.
    pub open spec fn energy(self, x: int, y: int) -> int {
        let left = if x >= 1 { x - 1 } else { x };
        let right = if x + 1 < self.width { x + 1 } else { x };
        let up = if y >= 1 { y - 1 } else { y };
        let down = if y + 1 < self.height() { y + 1 } else { y };
        pixel_square_gradient(self.at(left, y), self.at(right, y)) + pixel_square_gradient(
            self.at(x, up),
            self.at(x, down),
        )
    }

    /// The least total energy of a connected path from the top row down to
    /// `(x, y)`: the energy at `(x, y)` plus, below the top row, the least
    /// path cost among the positions in the row above whose column differs
    /// from `x` by at most one.
    pub open spec fn path_cost(self, x: int, y: int) -> int
        decreases y,
    {
        if y <= 0 {
            self.energy(x, y)
        } else {
            self.energy(x, y) + least_parent_cost(
                x,
                self.width as int,
                self.path_cost(x - 1, y - 1),
                self.path_cost(x, y - 1),
                self.path_cost(x + 1, y - 1),
            )
        }
    }

    /// The column in row `y - 1` through which the cheapest path reaches
    /// `(x, y)`: among `x - 1`, `x` and `x + 1`, as far as they lie in the
    /// picture, the first in that order whose path cost is least.
    pub open spec fn best_parent(self, x: int, y: int) -> int {
        cheapest_parent(
            x,
            self.width as int,
            self.path_cost(x - 1, y - 1),
            self.path_cost(x, y - 1),
            self.path_cost(x + 1, y - 1),
        )
    }

    /// The path costs of row `y`, column by column.
    pub open spec fn row_costs(self, y: int) -> Seq<int> {
        Seq::new(self.width, |x: int| self.path_cost(x, y))
    }

    /// The column in which the seam meets the bottom row: the first column
    /// of least path cost there.
    pub open spec fn path_start(self) -> int {
        leftmost_min(self.row_costs(self.height() - 1))
    }

    /// The column that is reached from `(x, y)` by going `steps` rows up,
    /// each step to the best parent.
    pub open spec fn ancestor(self, x: int, y: int, steps: nat) -> int
        decreases steps,
    {
        if steps == 0 {
            x
        } else {
            self.best_parent(self.ancestor(x, y, (steps - 1) as nat), y - (steps - 1))
        }
    }

    /// The path from `(x, y)` up to the top row, each step to the best
    /// parent, as the list of its points from `(x, y)` on.
    pub open spec fn path_from(self, x: int, y: int) -> Seq<(usize, usize)> {
        Seq::new(
            (y + 1) as nat,
            |k: int| (self.ancestor(x, y, k as nat) as usize, (y - k) as usize),
        )
    }

    /// The column in which the seam crosses row `y`.
    pub open spec fn seam_column(self, y: int) -> int {
        self.ancestor(self.path_start(), self.height() - 1, (self.height() - 1 - y) as nat)
    }

    /// The seam: the path from the start in the bottom row up to the top
    /// row, as the list of its points `(x, y)`.
    pub open spec fn seam(self) -> Seq<(usize, usize)> {
        self.path_from(self.path_start(), self.height() - 1)
    }

    /// The picture after the colours of row `y` to the right of column `x`
    /// moved one column to the left, over the colour at `(x, y)`. The last
    /// colour of the row then stands twice.
    pub open spec fn shift_left(self, x: int, y: int) -> Picture {
        let row = self.rows[y];
        Picture { width: self.width, rows: self.rows.update(y, row.remove(x).push(row.last())) }
    }

    /// `shift_left` at each of `points`, in their order.
    pub open spec fn shift_left_all(self, points: Seq<(usize, usize)>) -> Picture
        decreases points.len(),
    {
        if points.len() == 0 {
            self
        } else {
            let last = points.last();
            self.shift_left_all(points.drop_last()).shift_left(last.0 as int, last.1 as int)
        }
    }

    /// The picture without its rightmost column.
    pub open spec fn drop_last_column(self) -> Picture {
        Picture {
            width: (self.width - 1) as nat,
            rows: Seq::new(self.height(), |y: int| self.rows[y].drop_last()),
        }
    }

    /// The picture without its seam: each row loses the colour in its seam
    /// column, and the colours to the right of it close the gap.
    pub open spec fn without_seam(self) -> Picture {
        Picture {
            width: (self.width - 1) as nat,
            rows: Seq::new(self.height(), |y: int| self.rows[y].remove(self.seam_column(y))),
        }
    }

    /// The picture after `distance` seams were removed one after another,
    /// each found in what the removals before it left.
    pub open spec fn shrink(self, distance: nat) -> Picture
        decreases distance,
    {
        if distance == 0 {
            self
        } else {
            self.shrink((distance - 1) as nat).without_seam()
        }
    }

    /// The points of the `distance` seams that `shrink` removes, seam after
    /// seam, each in the coordinates of the picture it was found in.
    pub open spec fn shrink_points(self, distance: nat) -> Seq<(usize, usize)>
        decreases distance,
    {
        if distance == 0 {
            Seq::empty()
        } else {
            self.shrink_points((distance - 1) as nat) + self.shrink((distance - 1) as nat).seam()
        }
    }

    /// The picture with `count` blank columns appended on the right.
    pub open spec fn widen(self, count: nat) -> Picture {
        Picture {
            width: self.width + count,
            rows: Seq::new(
                self.height(),
                |y: int| self.rows[y] + Seq::new(count, |i: int| blank_pixel()),
            ),
        }
    }

    /// The picture after `pixel` was put in directly to the right of
    /// `(x, y)`. The colours further right move one column to the right and
    /// the last one of the row is lost.
    pub open spec fn insert_pixel(self, x: int, y: int, pixel: Pixel) -> Picture {
        Picture {
            width: self.width,
            rows: self.rows.update(y, self.rows[y].insert(x + 1, pixel).drop_last()),
        }
    }

    /// The picture after a new colour was put in directly to the right of
    /// `(x, y)`: the mean of the colour at `(x, y)` and of its right
    /// neighbour.
    pub open spec fn insert_after(self, x: int, y: int) -> Picture {
        self.insert_pixel(x, y, pixel_average(self.at(x, y), self.at(x + 1, y)))
    }

    /// `insert_after` for each of `points`, in their order.
    pub open spec fn insert_all(self, points: Seq<(usize, usize)>) -> Picture
        decreases points.len(),
    {
        if points.len() == 0 {
            self
        } else {
            let last = points.last();
            self.insert_all(points.drop_last()).insert_after(last.0 as int, last.1 as int)
        }
    }

    /// The points at which `grow` inserts: those of the seams that a shrink
    /// by `distance` would remove, by descending column.
    pub open spec fn grow_points(self, distance: nat) -> Seq<(usize, usize)> {
        by_descending_column(self.shrink_points(distance), self.width)
    }

    /// The picture grown by `distance` columns: widened by that many blank
    /// columns, then filled by an insertion at each point of `grow_points`.
    pub open spec fn grow(self, distance: nat) -> Picture {
        self.widen(distance).insert_all(self.grow_points(distance))
    }

    /// The picture with rows and columns exchanged.
    pub open spec fn transpose(self) -> Picture {
        Picture {
            width: self.height(),
            rows: Seq::new(self.width, |x: int| Seq::new(self.height(), |y: int| self.rows[y][x])),
        }
    }

    /// The picture as it is processed for the given orientation: itself for
    /// `Horizontal`, transposed for `Vertical`.
    pub open spec fn oriented(self, orientation: Orientation) -> Picture {
        match orientation {
            Orientation::Horizontal => self,
            Orientation::Vertical => self.transpose(),
        }
    }

    /// The size along the axis that the orientation resizes.
    pub open spec fn axis_len(self, orientation: Orientation) -> nat {
        match orientation {
            Orientation::Horizontal => self.width,
            Orientation::Vertical => self.height(),
        }
    }

    /// The width after a resize by `distance`.
    pub open spec fn resized_width(self, distance: nat, orientation: Orientation, mode: Mode) -> int {
        match (orientation, mode) {
            (Orientation::Horizontal, Mode::Grow) => (self.width + distance) as int,
            (Orientation::Horizontal, Mode::Shrink) => self.width - distance,
            (Orientation::Vertical, _) => self.width as int,
        }
    }

    /// The height after a resize by `distance`.
    pub open spec fn resized_height(self, distance: nat, orientation: Orientation, mode: Mode) -> int {
        match (orientation, mode) {
            (Orientation::Vertical, Mode::Grow) => (self.height() + distance) as int,
            (Orientation::Vertical, Mode::Shrink) => self.height() - distance,
            (Orientation::Horizontal, _) => self.height() as int,
        }
    }

    /// A change of the width by `distance` in the given mode.
    pub open spec fn resize_width(self, distance: nat, mode: Mode) -> Picture {
        match mode {
            Mode::Grow => self.grow(distance),
            Mode::Shrink => self.shrink(distance),
        }
    }

    /// The picture resized by `distance` along the axis of `orientation`.
    pub open spec fn resize(self, distance: nat, orientation: Orientation, mode: Mode) -> Picture {
        self.oriented(orientation).resize_width(distance, mode).oriented(orientation)
    }

    /// The points that such a resize records as removed: the seams of a
    /// shrink, in the coordinates of the oriented picture; none for a grow.
    pub open spec fn resize_points(self, distance: nat, orientation: Orientation, mode: Mode) -> Seq<
        (usize, usize),
    > {
        match mode {
            Mode::Grow => Seq::empty(),
            Mode::Shrink => self.oriented(orientation).shrink_points(distance),
        }
    }
}

/// `leftmost_min` gives an index of a least element with no element that
/// small before it.
pub proof fn lemma_leftmost_min(s: Seq<int>)
    requires
        s.len() >= 1,
    ensures
        0 <= leftmost_min(s) < s.len(),
        forall|k: int| 0 <= k < s.len() ==> s[leftmost_min(s)] <= #[trigger] s[k],
        forall|k: int| 0 <= k < leftmost_min(s) ==> s[leftmost_min(s)] < #[trigger] s[k],
    decreases s.len(),
{
    if s.len() > 1 {
        let front = s.drop_last();
        lemma_leftmost_min(front);
        let least = leftmost_min(s);
        assert(s[leftmost_min(front)] == front[leftmost_min(front)]);
        assert forall|k: int| 0 <= k < s.len() implies s[least] <= #[trigger] s[k] by {
            if k < front.len() {
                assert(front[k] == s[k]);
            }
        }
        assert forall|k: int| 0 <= k < least implies s[least] < #[trigger] s[k] by {
            if k < front.len() {
                assert(front[k] == s[k]);
            }
        }
    }
}

/// An index of a least element with no element that small before it is the
/// one that `leftmost_min` gives.
pub proof fn lemma_leftmost_min_unique(s: Seq<int>, index: int)
    requires
        0 <= index < s.len(),
        forall|k: int| 0 <= k < s.len() ==> s[index] <= #[trigger] s[k],
        forall|k: int| 0 <= k < index ==> s[index] < #[trigger] s[k],
    ensures
        index == leftmost_min(s),
{
    lemma_leftmost_min(s);
}

impl Picture {
    /// The energy of a position is at most `520200`.
    pub proof fn lemma_energy_bound(self, x: int, y: int)
        ensures
            0 <= self.energy(x, y) <= 520200,
    {
        let left = if x >= 1 { x - 1 } else { x };
        let right = if x + 1 < self.width { x + 1 } else { x };
        let up = if y >= 1 { y - 1 } else { y };
        let down = if y + 1 < self.height() { y + 1 } else { y };
        lemma_square_gradient_bound(self.at(left, y), self.at(right, y));
        lemma_square_gradient_bound(self.at(x, up), self.at(x, down));
    }

    /// The path cost of a position in row `y` is at most `520200` for each
    /// of the `y + 1` rows the path crosses.
    pub proof fn lemma_path_cost_bound(self, x: int, y: int)
        requires
            0 <= y,
        ensures
            0 <= self.path_cost(x, y) <= 520200 * (y + 1),
        decreases y,
    {
        self.lemma_energy_bound(x, y);
        if y > 0 {
            self.lemma_path_cost_bound(x - 1, y - 1);
            self.lemma_path_cost_bound(x, y - 1);
            self.lemma_path_cost_bound(x + 1, y - 1);
        }
    }

    /// The best parent of a column of the picture is a column of the
    /// picture, at most one to the left or right.
    pub proof fn lemma_best_parent_near(self, x: int, y: int)
        requires
            0 <= x < self.width,
        ensures
            0 <= self.best_parent(x, y) < self.width,
            x - 1 <= self.best_parent(x, y) <= x + 1,
    {
    }

    /// A path that starts in the picture stays in it, and each step moves
    /// by at most one column.
    pub proof fn lemma_ancestor_near(self, x: int, y: int, steps: nat)
        requires
            0 <= x < self.width,
        ensures
            0 <= self.ancestor(x, y, steps) < self.width,
            steps >= 1 ==> self.ancestor(x, y, (steps - 1) as nat) - 1 <= self.ancestor(x, y, steps)
                <= self.ancestor(x, y, (steps - 1) as nat) + 1,
        decreases steps,
    {
        if steps >= 1 {
            self.lemma_ancestor_near(x, y, (steps - 1) as nat);
            self.lemma_best_parent_near(self.ancestor(x, y, (steps - 1) as nat), y - (steps - 1));
        }
    }
    /// The start of the seam is a column of the picture.
    pub proof fn lemma_path_start_inside(self)
        requires
            self.width >= 1,
        ensures
            0 <= self.path_start() < self.width,
    {
        lemma_leftmost_min(self.row_costs(self.height() - 1));
    }

    /// The seam crosses each row in a column of the picture, and in
    /// neighbouring rows in columns that differ by at most one.
    pub proof fn lemma_seam_column_inside(self, y: int)
        requires
            self.width >= 1,
            0 <= y < self.height(),
        ensures
            0 <= self.seam_column(y) < self.width,
            y + 1 < self.height() ==> self.seam_column(y + 1) - 1 <= self.seam_column(y)
                <= self.seam_column(y + 1) + 1,
    {
        self.lemma_path_start_inside();
        self.lemma_ancestor_near(
            self.path_start(),
            self.height() - 1,
            (self.height() - 1 - y) as nat,
        );
    }

    /// The seam has one point in each row, listed from the bottom row up,
    /// each in the seam column of its row.
    pub proof fn lemma_seam_points(self)
        requires
            self.width >= 1,
            self.width <= usize::MAX,
            self.height() <= usize::MAX,
        ensures
            self.seam().len() == self.height(),
            forall|k: int|
                0 <= k < self.height() ==> (#[trigger] self.seam()[k]).1 == self.height() - 1 - k
                    && self.seam()[k].0 == self.seam_column(self.height() - 1 - k) && self.seam()[k].0
                    < self.width,
    {
        assert forall|k: int| 0 <= k < self.height() implies (#[trigger] self.seam()[k]).1
            == self.height() - 1 - k && self.seam()[k].0 == self.seam_column(self.height() - 1 - k)
            && self.seam()[k].0 < self.width by {
            self.lemma_seam_column_inside(self.height() - 1 - k);
        }
    }

    /// Without its seam a picture is one column narrower and as high as
    /// before.
    pub proof fn lemma_without_seam_shape(self)
        requires
            self.wf(),
            self.width >= 1,
        ensures
            self.without_seam().wf(),
            self.without_seam().width == self.width - 1,
            self.without_seam().height() == self.height(),
    {
        assert forall|y: int| 0 <= y < self.height() implies (
        #[trigger] self.without_seam().rows[y]).len() == self.width - 1 by {
            self.lemma_seam_column_inside(y);
        }
    }

    /// Shrinking by `distance` takes that many columns away and leaves the
    /// height as it is.
    pub proof fn lemma_shrink_shape(self, distance: nat)
        requires
            self.wf(),
            distance <= self.width,
        ensures
            self.shrink(distance).wf(),
            self.shrink(distance).width == self.width - distance,
            self.shrink(distance).height() == self.height(),
        decreases distance,
    {
        if distance > 0 {
            self.lemma_shrink_shape((distance - 1) as nat);
            self.shrink((distance - 1) as nat).lemma_without_seam_shape();
        }
    }

    /// After the shifts for the first `count` points of the seam, the rows
    /// of those points have lost their seam colour and repeat their last
    /// colour; the other rows are as they were.
    pub proof fn lemma_shift_left_seam_prefix(self, count: nat)
        requires
            self.wf(),
            self.width >= 1,
            self.width <= usize::MAX,
            self.height() <= usize::MAX,
            count <= self.height(),
        ensures
            self.shift_left_all(self.seam().take(count as int)).width == self.width,
            self.shift_left_all(self.seam().take(count as int)).rows == Seq::new(
                self.height(),
                |y: int|
                    if y >= self.height() - count {
                        self.rows[y].remove(self.seam_column(y)).push(self.rows[y].last())
                    } else {
                        self.rows[y]
                    },
            ),
        decreases count,
    {
        let points = self.seam().take(count as int);
        let shifted = self.shift_left_all(points);
        let expected = Seq::new(
            self.height(),
            |y: int|
                if y >= self.height() - count {
                    self.rows[y].remove(self.seam_column(y)).push(self.rows[y].last())
                } else {
                    self.rows[y]
                },
        );
        self.lemma_seam_points();
        if count == 0 {
            assert(shifted.rows =~= expected);
        } else {
            self.lemma_shift_left_seam_prefix((count - 1) as nat);
            assert(points.drop_last() =~= self.seam().take(count - 1));
            assert(points.last() == self.seam()[count - 1]);
            assert(shifted.rows =~= expected);
        }
    }

    /// Shifting each row left at its seam point and dropping the last
    /// column removes the seam.
    pub proof fn lemma_remove_seam(self)
        requires
            self.wf(),
            self.width >= 1,
            self.width <= usize::MAX,
            self.height() <= usize::MAX,
        ensures
            self.shift_left_all(self.seam()).drop_last_column() == self.without_seam(),
    {
        self.lemma_seam_points();
        self.lemma_shift_left_seam_prefix(self.height());
        assert(self.seam().take(self.height() as int) =~= self.seam());
        let dropped = self.shift_left_all(self.seam()).drop_last_column();
        assert forall|y: int| 0 <= y < self.height() implies #[trigger] dropped.rows[y]
            =~= self.without_seam().rows[y] by {
            self.lemma_seam_column_inside(y);
        }
        assert(dropped.rows =~= self.without_seam().rows);
    }
    /// The points that a shrink removes: as many as the distance times the
    /// height, each a position of the picture.
    pub proof fn lemma_shrink_points(self, distance: nat)
        requires
            self.wf(),
            distance <= self.width,
            self.width <= usize::MAX,
            self.height() <= usize::MAX,
        ensures
            self.shrink_points(distance).len() == distance * self.height(),
            forall|k: int|
                0 <= k < self.shrink_points(distance).len() ==> (
                #[trigger] self.shrink_points(distance)[k]).0 < self.width && self.shrink_points(
                    distance,
                )[k].1 < self.height(),
        decreases distance,
    {
        if distance > 0 {
            let before = (distance - 1) as nat;
            self.lemma_shrink_points(before);
            self.lemma_shrink_shape(before);
            self.shrink(before).lemma_seam_points();
            assert(distance * self.height() == before * self.height() + self.height())
                by (nonlinear_arith)
                requires
                    before == distance - 1,
            ;
        } else {
            assert(distance * self.height() == 0) by (nonlinear_arith)
                requires
                    distance == 0,
            ;
        }
    }

    /// A change of the width by `distance` changes the width by just that
    /// and leaves the height as it is.
    pub proof fn lemma_resize_width_shape(self, distance: nat, mode: Mode)
        requires
            self.wf(),
            distance <= self.width,
            self.width <= usize::MAX,
            self.height() <= usize::MAX,
        ensures
            self.resize_width(distance, mode).wf(),
            self.resize_width(distance, mode).height() == self.height(),
            self.resize_width(distance, mode).width == (match mode {
                Mode::Grow => (self.width + distance) as int,
                Mode::Shrink => self.width - distance,
            }),
    {
        self.lemma_shrink_shape(distance);
        self.lemma_grow_shape(distance);
    }

    /// Each point at which `grow` inserts is a position of the picture.
    pub proof fn lemma_grow_points_inside(self, distance: nat)
        requires
            self.wf(),
            distance <= self.width,
            self.width <= usize::MAX,
            self.height() <= usize::MAX,
        ensures
            forall|k: int|
                0 <= k < self.grow_points(distance).len() ==> (
                #[trigger] self.grow_points(distance)[k]).0 < self.width && self.grow_points(
                    distance,
                )[k].1 < self.height(),
    {
        let points = self.shrink_points(distance);
        self.lemma_shrink_points(distance);
        lemma_by_descending_column_members(points, self.width);
        assert forall|k: int| 0 <= k < self.grow_points(distance).len() implies (
        #[trigger] self.grow_points(distance)[k]).0 < self.width && self.grow_points(distance)[k].1
            < self.height() by {
            let point = self.grow_points(distance)[k];
            assert(points.contains(point));
            let at = choose|at: int| 0 <= at < points.len() && points[at] == point;
            assert(points[at].1 < self.height());
        }
    }

    /// A grow by nothing inserts nowhere.
    pub proof fn lemma_grow_points_none(self)
        ensures
            self.grow_points(0).len() == 0,
    {
        lemma_by_descending_column_members(self.shrink_points(0), self.width);
        if self.grow_points(0).len() > 0 {
            assert(self.shrink_points(0).contains(self.grow_points(0)[0]));
        }
    }

    /// Widening keeps a picture well-formed.
    pub proof fn lemma_widen_shape(self, count: nat)
        requires
            self.wf(),
        ensures
            self.widen(count).wf(),
            self.widen(count).width == self.width + count,
            self.widen(count).height() == self.height(),
    {
    }

    /// An insertion inside a picture leaves its size as it is.
    pub proof fn lemma_insert_pixel_shape(self, x: int, y: int, pixel: Pixel)
        requires
            self.wf(),
            0 <= x,
            x + 1 < self.width,
            0 <= y < self.height(),
        ensures
            self.insert_pixel(x, y, pixel).wf(),
            self.insert_pixel(x, y, pixel).width == self.width,
            self.insert_pixel(x, y, pixel).height() == self.height(),
    {
    }

    /// Insertions at points that leave a column to their right leave the
    /// size of the picture as it is.
    pub proof fn lemma_insert_all_shape(self, points: Seq<(usize, usize)>)
        requires
            self.wf(),
            forall|k: int|
                0 <= k < points.len() ==> (#[trigger] points[k]).0 + 1 < self.width && points[k].1
                    < self.height(),
        ensures
            self.insert_all(points).wf(),
            self.insert_all(points).width == self.width,
            self.insert_all(points).height() == self.height(),
        decreases points.len(),
    {
        if points.len() > 0 {
            let front = points.drop_last();
            assert forall|k: int| 0 <= k < front.len() implies (#[trigger] front[k]).0 + 1
                < self.width && front[k].1 < self.height() by {
                assert(front[k] == points[k]);
            }
            self.lemma_insert_all_shape(front);
            let last = points.last();
            assert(last == points[points.len() - 1]);
            let before = self.insert_all(front);
            before.lemma_insert_pixel_shape(
                last.0 as int,
                last.1 as int,
                pixel_average(
                    before.at(last.0 as int, last.1 as int),
                    before.at(last.0 + 1, last.1 as int),
                ),
            );
        }
    }

    /// Growing by `distance` adds that many columns and leaves the height
    /// as it is.
    pub proof fn lemma_grow_shape(self, distance: nat)
        requires
            self.wf(),
            distance <= self.width,
            self.width <= usize::MAX,
            self.height() <= usize::MAX,
        ensures
            self.grow(distance).wf(),
            self.grow(distance).width == self.width + distance,
            self.grow(distance).height() == self.height(),
    {
        self.lemma_widen_shape(distance);
        self.lemma_grow_points_inside(distance);
        if distance == 0 {
            self.lemma_grow_points_none();
        }
        self.widen(distance).lemma_insert_all_shape(self.grow_points(distance));
    }
}

/// Every point of `by_descending_column(points, bound)` is one of `points`
/// and lies in a column below `bound`.
pub proof fn lemma_by_descending_column_members(points: Seq<(usize, usize)>, bound: nat)
    ensures
        forall|k: int|
            0 <= k < by_descending_column(points, bound).len() ==> points.contains(
                #[trigger] by_descending_column(points, bound)[k],
            ) && by_descending_column(points, bound)[k].0 < bound,
    decreases bound,
{
    if bound > 0 {
        let head = in_column(points, bound - 1);
        let tail = by_descending_column(points, (bound - 1) as nat);
        lemma_by_descending_column_members(points, (bound - 1) as nat);
        assert forall|k: int| 0 <= k < by_descending_column(points, bound).len() implies points.contains(
            #[trigger] by_descending_column(points, bound)[k],
        ) && by_descending_column(points, bound)[k].0 < bound by {
            if k < head.len() {
                assert(by_descending_column(points, bound)[k] == head[k]);
                points.lemma_filter_pred(column_is(bound - 1), k);
                assert(head.contains(head[k]));
                points.lemma_filter_contains_rev(column_is(bound - 1), head[k]);
            } else {
                assert(by_descending_column(points, bound)[k] == tail[k - head.len()]);
            }
        }
    }
}

} // verus!
