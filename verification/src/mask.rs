//! A set of cells of a grid, kept as one mark for each cell.

use vstd::prelude::*;
use crate::geometry::Vec2D;
use crate::ppm::{lemma_offset, offset};

verus! {

/// A set of cells of a `width` by `height` grid.
pub struct CellMask {
    width: i32,
    height: i32,
    marks: Vec<bool>,
}

impl CellMask {
    /// The width of the grid.
    pub closed spec fn spec_width(&self) -> int {
        self.width as int
    }

    /// The height of the grid.
    pub closed spec fn spec_height(&self) -> int {
        self.height as int
    }

    /// There is one mark for each cell.
    pub closed spec fn wf(&self) -> bool {
        &&& self.width > 0
        &&& self.height > 0
        &&& self.width * self.height <= i32::MAX
        &&& self.marks@.len() == self.width * self.height
    }

    /// Whether `(x, y)` is a cell of the grid.
    pub open spec fn inside(&self, x: int, y: int) -> bool {
        0 <= x < self.spec_width() && 0 <= y < self.spec_height()
    }

    /// Whether the cell `(x, y)` is in the set.
    pub closed spec fn marked(&self, x: int, y: int) -> bool {
        0 <= x < self.width && 0 <= y < self.height && self.marks@[offset(self.width as int, x, y)]
    }

    /// The empty set of cells of a `width` by `height` grid.
    pub fn new(width: i32, height: i32) -> (mask: Self)
        requires
            width > 0,
            height > 0,
            width * height <= i32::MAX,
        ensures
            mask.wf(),
            mask.spec_width() == width,
            mask.spec_height() == height,
            forall|x: int, y: int| !#[trigger] mask.marked(x, y),
    {
        assert(0 < width * height) by (nonlinear_arith)
            requires
                0 < width,
                0 < height,
        ;
        let count = (width * height) as usize;
        let mut marks: Vec<bool> = Vec::new();
        let mut k: usize = 0;
        while k < count
            invariant
                k <= count,
                marks@.len() == k,
                forall|n: int| 0 <= n < k ==> !marks@[n],
            decreases count - k,
        {
            marks.push(false);
            k += 1;
        }
        let mask = CellMask { width, height, marks };
        proof {
            assert forall|x: int, y: int| !#[trigger] mask.marked(x, y) by {
                if 0 <= x < width && 0 <= y < height {
                    lemma_offset(width as int, height as int, x, y);
                }
            }
        }
        mask
    }

    /// Puts the cell `v` into the set.
    pub fn mark(&mut self, v: Vec2D)
        requires
            old(self).wf(),
            old(self).inside(v.0 as int, v.1 as int),
        ensures
            final(self).wf(),
            final(self).spec_width() == old(self).spec_width(),
            final(self).spec_height() == old(self).spec_height(),
            forall|x: int, y: int| #[trigger]
                final(self).marked(x, y) == (old(self).marked(x, y) || (x == v.0 && y == v.1)),
    {
        let Vec2D(i, j) = v;
        proof {
            lemma_offset(self.width as int, self.height as int, i as int, j as int);
        }
        self.marks.set((j * self.width + i) as usize, true);
        proof {
            assert forall|x: int, y: int| #[trigger]
                self.marked(x, y) == (old(self).marked(x, y) || (x == i && y == j)) by {
                if 0 <= x < self.width && 0 <= y < self.height {
                    lemma_offset(self.width as int, self.height as int, x, y);
                }
            }
        }
    }

    /// Whether the cell `v` is in the set.
    pub fn is_marked(&self, v: Vec2D) -> (marked: bool)
        requires
            self.wf(),
            self.inside(v.0 as int, v.1 as int),
        ensures
            marked == self.marked(v.0 as int, v.1 as int),
    {
        let Vec2D(i, j) = v;
        proof {
            lemma_offset(self.width as int, self.height as int, i as int, j as int);
        }
        self.marks[(j * self.width + i) as usize]
    }
}

} // verus!
