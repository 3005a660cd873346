//! A rectangular grid of labels: the sample input and the generated output.

use vstd::prelude::*;

use crate::enums::Tile;

verus! {

/// Flat cells are addressed column by column: cell `(x, y)` lives at `x * h + y`.
pub proof fn lemma_grid_index(w: int, h: int, x: int, y: int)
    requires
        0 <= x < w,
        0 <= y < h,
    ensures
        0 <= x * h + y < w * h,
{
    assert(0 <= x * h + y < w * h) by (nonlinear_arith)
        requires
            0 <= x < w,
            0 <= y < h,
    ;
}

/// Distinct in-bounds coordinates have distinct flat indices.
pub proof fn lemma_grid_index_injective(h: int, x1: int, y1: int, x2: int, y2: int)
    requires
        0 <= y1 < h,
        0 <= y2 < h,
        0 <= x1,
        0 <= x2,
        x1 * h + y1 == x2 * h + y2,
    ensures
        x1 == x2,
        y1 == y2,
{
    assert(x1 == x2 && y1 == y2) by (nonlinear_arith)
        requires
            0 <= y1 < h,
            0 <= y2 < h,
            0 <= x1,
            0 <= x2,
            x1 * h + y1 == x2 * h + y2,
    ;
}

/// A `width` x `height` grid bearing one label per cell, addressed by
/// `(x, y)` with `(0, 0)` at a corner.
pub struct TileGrid {
    pub width: usize,
    pub height: usize,
    pub cells: Vec<Tile>,
}

impl TileGrid {
    pub open spec fn wf(self) -> bool {
        self.cells@.len() == self.width * self.height
    }

    pub open spec fn in_bounds(self, x: int, y: int) -> bool {
        0 <= x < self.width && 0 <= y < self.height
    }

    pub open spec fn spec_cell(self, x: int, y: int) -> Tile {
        self.cells@[x * self.height + y]
    }

    /// A fresh grid with every cell bearing `fill`.
    pub fn new(width: usize, height: usize, fill: Tile) -> (g: TileGrid)
        requires
            width * height <= usize::MAX,
        ensures
            g.wf(),
            g.width == width,
            g.height == height,
            forall|x: int, y: int| g.in_bounds(x, y) ==> #[trigger] g.spec_cell(x, y) == fill,
    {
        let total = width * height;
        let mut cells: Vec<Tile> = Vec::new();
        let mut i: usize = 0;
        while i < total
            invariant
                i <= total,
                cells@.len() == i,
                forall|j: int| 0 <= j < i ==> cells@[j] == fill,
            decreases total - i,
        {
            cells.push(fill);
            i = i + 1;
        }
        let g = TileGrid { width, height, cells };
        proof {
            assert forall|x: int, y: int| g.in_bounds(x, y) implies #[trigger] g.spec_cell(x, y)
                == fill by {
                lemma_grid_index(width as int, height as int, x, y);
            }
        }
        g
    }

    /// The label at cell `(x, y)`.
    pub fn get(&self, x: usize, y: usize) -> (t: Tile)
        requires
            self.wf(),
            self.in_bounds(x as int, y as int),
        ensures
            t == self.spec_cell(x as int, y as int),
    {
        let n = self.cells.len();
        proof {
            lemma_grid_index(self.width as int, self.height as int, x as int, y as int);
        }
        self.cells[x * self.height + y]
    }

    /// Replaces the label at cell `(x, y)`; every other cell keeps its label.
    pub fn set(&mut self, x: usize, y: usize, t: Tile)
        requires
            old(self).wf(),
            old(self).in_bounds(x as int, y as int),
        ensures
            final(self).wf(),
            final(self).width == old(self).width,
            final(self).height == old(self).height,
            final(self).spec_cell(x as int, y as int) == t,
            forall|x2: int, y2: int|
                final(self).in_bounds(x2, y2) && !(x2 == x && y2 == y)
                    ==> final(self).spec_cell(x2, y2) == old(self).spec_cell(x2, y2),
    {
        let n = self.cells.len();
        proof {
            lemma_grid_index(self.width as int, self.height as int, x as int, y as int);
        }
        let i = x * self.height + y;
        self.cells[i] = t;
        proof {
            assert forall|x2: int, y2: int|
                self.in_bounds(x2, y2) && !(x2 == x && y2 == y) implies self.spec_cell(x2, y2)
                == old(self).spec_cell(x2, y2) by {
                lemma_grid_index(self.width as int, self.height as int, x2, y2);
                if x2 * self.height as int + y2 == x as int * self.height as int + y as int {
                    lemma_grid_index_injective(self.height as int, x2, y2, x as int, y as int);
                }
            }
        }
    }
}

} // verus!
