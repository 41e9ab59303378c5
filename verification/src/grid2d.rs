//! The mathematical model of a two-dimensional array: rows of cells.

use vstd::prelude::*;
use crate::extent::{wrap, wraps_into, lemma_wrap_periodic};

verus! {

/// `(x, y)` lies in the box `[x1, x2)` by `[y1, y2)`.
pub open spec fn in_box(x1: int, y1: int, x2: int, y2: int, x: int, y: int) -> bool {
    x1 <= x < x2 && y1 <= y < y2
}

/// `(x, y)` is reached before `(sx, sy)` in a walk row by row.
pub open spec fn row_major_before(x: int, y: int, sx: int, sy: int) -> bool {
    y < sy || (y == sy && x < sx)
}

/// What a two-dimensional array holds, without regard to how it is stored: its
/// size and its rows. The cell at `(x, y)` is `rows[y][x]`.
pub struct Grid2D<T> {
    pub width: nat,
    pub height: nat,
    pub rows: Seq<Seq<T>>,
}

impl<T> Grid2D<T> {
    /// There are `height` rows of `width` cells each.
    pub open spec fn wf(self) -> bool {
        &&& self.rows.len() == self.height
        &&& forall|y: int| 0 <= y < self.height ==> (#[trigger] self.rows[y]).len() == self.width
    }

    /// `(x, y)` is the coordinate of a cell.
    pub open spec fn contains(self, x: int, y: int) -> bool {
        0 <= x < self.width && 0 <= y < self.height
    }

    /// The cell at `(x, y)`.
    pub open spec fn at(self, x: int, y: int) -> T
        recommends
            self.contains(x, y),
    {
        self.rows[y][x]
    }

    /// The array with the cell at `(x, y)` replaced by `v`.
    pub open spec fn put(self, x: int, y: int, v: T) -> Self
        recommends
            self.contains(x, y),
    {
        Grid2D { rows: self.rows.update(y, self.rows[y].update(x, v)), ..self }
    }

    /// The array of the given size with `v` in every cell.
    pub open spec fn filled(width: nat, height: nat, v: T) -> Self {
        Grid2D { width, height, rows: Seq::new(height, |y: int| Seq::new(width, |x: int| v)) }
    }

    /// The array with `v` in every cell of the box `[x1, x2)` by `[y1, y2)`, as far as
    /// the box lies inside the array.
    pub open spec fn fill_box(self, x1: int, y1: int, x2: int, y2: int, v: T) -> Self {
        Grid2D {
            rows: Seq::new(
                self.height,
                |y: int|
                    Seq::new(
                        self.width,
                        |x: int|
                            if in_box(x1, y1, x2, y2, x, y) {
                                v
                            } else {
                                self.rows[y][x]
                            },
                    ),
            ),
            ..self
        }
    }

    /// The array with `v` in those cells of the box `[x1, x2)` by `[y1, y2)` that
    /// come before `(sx, sy)` when the box is walked row by row.
    pub open spec fn fill_box_before(
        self,
        x1: int,
        y1: int,
        x2: int,
        y2: int,
        sx: int,
        sy: int,
        v: T,
    ) -> Self {
        Grid2D {
            rows: Seq::new(
                self.height,
                |y: int|
                    Seq::new(
                        self.width,
                        |x: int|
                            if in_box(x1, y1, x2, y2, x, y) && row_major_before(x, y, sx, sy) {
                                v
                            } else {
                                self.rows[y][x]
                            },
                    ),
            ),
            ..self
        }
    }

    /// The first coordinate that lies outside the array when the box `[x1, x2)` by
    /// `[y1, y2)` is walked row by row, if there is one.
    pub open spec fn first_outside(self, x1: int, y1: int, x2: int, y2: int) -> Option<(int, int)> {
        if x1 >= x2 || y1 >= y2 {
            None
        } else if !self.contains(x1, y1) {
            Some((x1, y1))
        } else if x2 > self.width {
            Some((self.width as int, y1))
        } else if y2 > self.height {
            Some((x1, self.height as int))
        } else {
            None
        }
    }

    /// The array with `v` in every cell that a coordinate of the box `[x1, x2)` by
    /// `[y1, y2)` wraps to.
    pub open spec fn wrapped_fill_box(self, x1: int, y1: int, x2: int, y2: int, v: T) -> Self {
        Grid2D {
            rows: Seq::new(
                self.height,
                |y: int|
                    Seq::new(
                        self.width,
                        |x: int|
                            if wraps_into(x1, x2, self.width as int, x) && wraps_into(
                                y1,
                                y2,
                                self.height as int,
                                y,
                            ) {
                                v
                            } else {
                                self.rows[y][x]
                            },
                    ),
            ),
            ..self
        }
    }

    /// The array while the box is being filled with wrapping: the rows before `sy`
    /// are done and, of row `sy`, the coordinates before `sx`.
    pub open spec fn wrapped_fill_before(
        self,
        x1: int,
        y1: int,
        x2: int,
        sx: int,
        sy: int,
        v: T,
    ) -> Self {
        Grid2D {
            rows: Seq::new(
                self.height,
                |y: int|
                    Seq::new(
                        self.width,
                        |x: int|
                            if (wraps_into(x1, x2, self.width as int, x) && wraps_into(
                                y1,
                                sy,
                                self.height as int,
                                y,
                            )) || (wraps_into(x1, sx, self.width as int, x) && wrap(
                                sy,
                                self.height as int,
                            ) == y) {
                                v
                            } else {
                                self.rows[y][x]
                            },
                    ),
            ),
            ..self
        }
    }

    /// Storing a value changes the cell it is stored in, and no other: what is
    /// read afterwards at any coordinate is what an array of rows would give.
    pub proof fn lemma_put_at(self, x: int, y: int, v: T, cx: int, cy: int)
        requires
            self.wf(),
            self.contains(x, y),
            self.contains(cx, cy),
        ensures
            self.put(x, y, v).wf(),
            self.put(x, y, v).width == self.width,
            self.put(x, y, v).height == self.height,
            self.put(x, y, v).at(cx, cy) == if cx == x && cy == y {
                v
            } else {
                self.at(cx, cy)
            },
    {
    }

    /// A coordinate moved by whole widths and heights, forward or back, wraps to
    /// the same cell.
    pub proof fn lemma_wrapped_cell_periodic(self, x: int, y: int, kx: int, ky: int)
        requires
            self.width > 0,
            self.height > 0,
        ensures
            self.contains(wrap(x, self.width as int), wrap(y, self.height as int)),
            wrap(x + kx * self.width, self.width as int) == wrap(x, self.width as int),
            wrap(y + ky * self.height, self.height as int) == wrap(y, self.height as int),
            self.at(
                wrap(x + kx * self.width, self.width as int),
                wrap(y + ky * self.height, self.height as int),
            ) == self.at(wrap(x, self.width as int), wrap(y, self.height as int)),
    {
        lemma_wrap_periodic(x, self.width as int, kx);
        lemma_wrap_periodic(y, self.height as int, ky);
    }

    /// Filling a box sets exactly the cells of the box and leaves all others as
    /// they were.
    pub proof fn lemma_fill_box_at(self, x1: int, y1: int, x2: int, y2: int, v: T, cx: int, cy: int)
        requires
            self.wf(),
            self.contains(cx, cy),
        ensures
            self.fill_box(x1, y1, x2, y2, v).wf(),
            self.fill_box(x1, y1, x2, y2, v).width == self.width,
            self.fill_box(x1, y1, x2, y2, v).height == self.height,
            self.fill_box(x1, y1, x2, y2, v).at(cx, cy) == if x1 <= cx < x2 && y1 <= cy < y2 {
                v
            } else {
                self.at(cx, cy)
            },
    {
    }

    /// Where a walk of the box row by row first leaves the array: that coordinate
    /// lies in the box and outside the array, and every coordinate of the box
    /// before it lies inside the array. There is no such coordinate if and only
    /// if the whole box lies inside the array.
    pub proof fn lemma_first_outside(self, x1: int, y1: int, x2: int, y2: int)
        requires
            0 <= x1,
            0 <= y1,
        ensures
            match self.first_outside(x1, y1, x2, y2) {
                Some(c) => {
                    &&& in_box(x1, y1, x2, y2, c.0, c.1)
                    &&& !self.contains(c.0, c.1)
                    &&& forall|x: int, y: int|
                        in_box(x1, y1, x2, y2, x, y) && row_major_before(x, y, c.0, c.1)
                            ==> self.contains(x, y)
                },
                None => forall|x: int, y: int|
                    in_box(x1, y1, x2, y2, x, y) ==> self.contains(x, y),
            },
    {
    }
}

} // verus!
