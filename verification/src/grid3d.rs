//! The mathematical model of a three-dimensional array: layers of rows of cells.

use vstd::prelude::*;
use crate::extent::{wrap, wraps_into, lemma_wrap_periodic};

verus! {

/// `(x, y, z)` lies in the box `[x1, x2)` by `[y1, y2)` by `[z1, z2)`.
pub open spec fn in_box(
    x1: int,
    y1: int,
    z1: int,
    x2: int,
    y2: int,
    z2: int,
    x: int,
    y: int,
    z: int,
) -> bool {
    x1 <= x < x2 && y1 <= y < y2 && z1 <= z < z2
}

/// `(x, y, z)` is reached before `(sx, sy, sz)` in a walk layer by layer, and row
/// by row inside a layer.
pub open spec fn layer_major_before(x: int, y: int, z: int, sx: int, sy: int, sz: int) -> bool {
    z < sz || (z == sz && (y < sy || (y == sy && x < sx)))
}

/// What a three-dimensional array holds, without regard to how it is stored: its
/// size and its layers of rows. The cell at `(x, y, z)` is `layers[z][y][x]`.
pub struct Grid3D<T> {
    pub width: nat,
    pub height: nat,
    pub depth: nat,
    pub layers: Seq<Seq<Seq<T>>>,
}

impl<T> Grid3D<T> {
    /// There are `depth` layers of `height` rows of `width` cells each.
    pub open spec fn wf(self) -> bool {
        &&& self.layers.len() == self.depth
        &&& forall|z: int| 0 <= z < self.depth ==> (#[trigger] self.layers[z]).len() == self.height
        &&& forall|z: int, y: int|
            0 <= z < self.depth && 0 <= y < self.height ==> (#[trigger] self.layers[z][y]).len()
                == self.width
    }

    /// `(x, y, z)` is the coordinate of a cell.
    pub open spec fn contains(self, x: int, y: int, z: int) -> bool {
        0 <= x < self.width && 0 <= y < self.height && 0 <= z < self.depth
    }

    /// The cell at `(x, y, z)`.
    pub open spec fn at(self, x: int, y: int, z: int) -> T
        recommends
            self.contains(x, y, z),
    {
        self.layers[z][y][x]
    }

    /// The array made of the given cells.
    pub open spec fn of_cells(
        width: nat,
        height: nat,
        depth: nat,
        cell: spec_fn(int, int, int) -> T,
    ) -> Self {
        Grid3D {
            width,
            height,
            depth,
            layers: Seq::new(
                depth,
                |z: int| Seq::new(height, |y: int| Seq::new(width, |x: int| cell(x, y, z))),
            ),
        }
    }

    /// The array with the cell at `(x, y, z)` replaced by `v`.
    pub open spec fn put(self, x: int, y: int, z: int, v: T) -> Self
        recommends
            self.contains(x, y, z),
    {
        Grid3D {
            layers: self.layers.update(z, self.layers[z].update(y, self.layers[z][y].update(x, v))),
            ..self
        }
    }

    /// The array of the given size with `v` in every cell.
    pub open spec fn filled(width: nat, height: nat, depth: nat, v: T) -> Self {
        Self::of_cells(width, height, depth, |x: int, y: int, z: int| v)
    }

    /// The array with `v` in every cell of the box `[x1, x2)` by `[y1, y2)` by
    /// `[z1, z2)`, as far as the box lies inside the array.
    pub open spec fn fill_box(
        self,
        x1: int,
        y1: int,
        z1: int,
        x2: int,
        y2: int,
        z2: int,
        v: T,
    ) -> Self {
        Self::of_cells(
            self.width,
            self.height,
            self.depth,
            |x: int, y: int, z: int|
                if in_box(x1, y1, z1, x2, y2, z2, x, y, z) {
                    v
                } else {
                    self.layers[z][y][x]
                },
        )
    }

    /// The array with `v` in those cells of the box `[x1, x2)` by `[y1, y2)` by
    /// `[z1, z2)` that come before `(sx, sy, sz)` when the box is walked layer by
    /// layer, and row by row inside a layer.
    pub open spec fn fill_box_before(
        self,
        x1: int,
        y1: int,
        z1: int,
        x2: int,
        y2: int,
        z2: int,
        sx: int,
        sy: int,
        sz: int,
        v: T,
    ) -> Self {
        Self::of_cells(
            self.width,
            self.height,
            self.depth,
            |x: int, y: int, z: int|
                if in_box(x1, y1, z1, x2, y2, z2, x, y, z) && layer_major_before(
                    x,
                    y,
                    z,
                    sx,
                    sy,
                    sz,
                ) {
                    v
                } else {
                    self.layers[z][y][x]
                },
        )
    }

    /// The first coordinate that lies outside the array when the box `[x1, x2)` by
    /// `[y1, y2)` by `[z1, z2)` is walked layer by layer, and row by row inside a
    /// layer, if there is one.
    pub open spec fn first_outside(
        self,
        x1: int,
        y1: int,
        z1: int,
        x2: int,
        y2: int,
        z2: int,
    ) -> Option<(int, int, int)> {
        if x1 >= x2 || y1 >= y2 || z1 >= z2 {
            None
        } else if !self.contains(x1, y1, z1) {
            Some((x1, y1, z1))
        } else if x2 > self.width {
            Some((self.width as int, y1, z1))
        } else if y2 > self.height {
            Some((x1, self.height as int, z1))
        } else if z2 > self.depth {
            Some((x1, y1, self.depth as int))
        } else {
            None
        }
    }

    /// The array with `v` in every cell that a coordinate of the box `[x1, x2)` by
    /// `[y1, y2)` by `[z1, z2)` wraps to.
    pub open spec fn wrapped_fill_box(
        self,
        x1: int,
        y1: int,
        z1: int,
        x2: int,
        y2: int,
        z2: int,
        v: T,
    ) -> Self {
        Self::of_cells(
            self.width,
            self.height,
            self.depth,
            |x: int, y: int, z: int|
                if wraps_into(x1, x2, self.width as int, x) && wraps_into(
                    y1,
                    y2,
                    self.height as int,
                    y,
                ) && wraps_into(z1, z2, self.depth as int, z) {
                    v
                } else {
                    self.layers[z][y][x]
                },
        )
    }

    /// The array while the box is being filled with wrapping: the layers before
    /// `sz` are done, of layer `sz` the rows before `sy`, and of row `sy` the
    /// coordinates before `sx`.
    pub open spec fn wrapped_fill_before(
        self,
        x1: int,
        y1: int,
        z1: int,
        x2: int,
        y2: int,
        sx: int,
        sy: int,
        sz: int,
        v: T,
    ) -> Self {
        let w = self.width as int;
        let h = self.height as int;
        let d = self.depth as int;
        Self::of_cells(
            self.width,
            self.height,
            self.depth,
            |x: int, y: int, z: int|
                if (wraps_into(x1, x2, w, x) && wraps_into(y1, y2, h, y) && wraps_into(
                    z1,
                    sz,
                    d,
                    z,
                ))
                    || (wraps_into(x1, x2, w, x) && wraps_into(y1, sy, h, y) && wrap(sz, d) == z)
                    || (wraps_into(x1, sx, w, x) && wrap(sy, h) == y && wrap(sz, d) == z) {
                    v
                } else {
                    self.layers[z][y][x]
                },
        )
    }

    /// Storing a value changes the cell it is stored in, and no other: what is
    /// read afterwards at any coordinate is what an array of layers of rows would
    /// give.
    pub proof fn lemma_put_at(self, x: int, y: int, z: int, v: T, cx: int, cy: int, cz: int)
        requires
            self.wf(),
            self.contains(x, y, z),
            self.contains(cx, cy, cz),
        ensures
            self.put(x, y, z, v).wf(),
            self.put(x, y, z, v).width == self.width,
            self.put(x, y, z, v).height == self.height,
            self.put(x, y, z, v).depth == self.depth,
            self.put(x, y, z, v).at(cx, cy, cz) == if cx == x && cy == y && cz == z {
                v
            } else {
                self.at(cx, cy, cz)
            },
    {
    }

    /// A coordinate moved by whole widths, heights and depths, forward or back,
    /// wraps to the same cell.
    pub proof fn lemma_wrapped_cell_periodic(
        self,
        x: int,
        y: int,
        z: int,
        kx: int,
        ky: int,
        kz: int,
    )
        requires
            self.width > 0,
            self.height > 0,
            self.depth > 0,
        ensures
            self.contains(
                wrap(x, self.width as int),
                wrap(y, self.height as int),
                wrap(z, self.depth as int),
            ),
            wrap(x + kx * self.width, self.width as int) == wrap(x, self.width as int),
            wrap(y + ky * self.height, self.height as int) == wrap(y, self.height as int),
            wrap(z + kz * self.depth, self.depth as int) == wrap(z, self.depth as int),
            self.at(
                wrap(x + kx * self.width, self.width as int),
                wrap(y + ky * self.height, self.height as int),
                wrap(z + kz * self.depth, self.depth as int),
            ) == self.at(
                wrap(x, self.width as int),
                wrap(y, self.height as int),
                wrap(z, self.depth as int),
            ),
    {
        lemma_wrap_periodic(x, self.width as int, kx);
        lemma_wrap_periodic(y, self.height as int, ky);
        lemma_wrap_periodic(z, self.depth as int, kz);
    }

    /// Filling a box sets exactly the cells of the box and leaves all others as
    /// they were.
    pub proof fn lemma_fill_box_at(
        self,
        x1: int,
        y1: int,
        z1: int,
        x2: int,
        y2: int,
        z2: int,
        v: T,
        cx: int,
        cy: int,
        cz: int,
    )
        requires
            self.wf(),
            self.contains(cx, cy, cz),
        ensures
            self.fill_box(x1, y1, z1, x2, y2, z2, v).wf(),
            self.fill_box(x1, y1, z1, x2, y2, z2, v).width == self.width,
            self.fill_box(x1, y1, z1, x2, y2, z2, v).height == self.height,
            self.fill_box(x1, y1, z1, x2, y2, z2, v).depth == self.depth,
            self.fill_box(x1, y1, z1, x2, y2, z2, v).at(cx, cy, cz) == if x1 <= cx < x2 && y1 <= cy
                < y2 && z1 <= cz < z2 {
                v
            } else {
                self.at(cx, cy, cz)
            },
    {
    }

    /// Where a walk of the box, layer by layer and row by row, first leaves the
    /// array: that coordinate lies in the box and outside the array, and every
    /// coordinate of the box before it lies inside the array. There is no such
    /// coordinate if and only if the whole box lies inside the array.
    pub proof fn lemma_first_outside(self, x1: int, y1: int, z1: int, x2: int, y2: int, z2: int)
        requires
            0 <= x1,
            0 <= y1,
            0 <= z1,
        ensures
            match self.first_outside(x1, y1, z1, x2, y2, z2) {
                Some(c) => {
                    &&& in_box(x1, y1, z1, x2, y2, z2, c.0, c.1, c.2)
                    &&& !self.contains(c.0, c.1, c.2)
                    &&& forall|x: int, y: int, z: int|
                        in_box(x1, y1, z1, x2, y2, z2, x, y, z) && layer_major_before(
                            x,
                            y,
                            z,
                            c.0,
                            c.1,
                            c.2,
                        ) ==> self.contains(x, y, z)
                },
                None => forall|x: int, y: int, z: int|
                    in_box(x1, y1, z1, x2, y2, z2, x, y, z) ==> self.contains(x, y, z),
            },
    {
    }
}

} // verus!
