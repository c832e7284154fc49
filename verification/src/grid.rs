//! The cell grid: a row-major array of cells, each holding the identifiers
//! of the units whose current position maps into it.

use vstd::prelude::*;
use vstd::seq_lib::group_seq_properties;

verus! {

broadcast use group_seq_properties;

/// A `rows x cols` grid of cells of unit identifiers.
pub struct Grid {
    rows: usize,
    cols: usize,
    cells: Vec<Vec<u32>>,
}

/// Row-major cell indices stay inside the grid and are injective.
proof fn lemma_row_major(rows: int, cols: int, r: int, c: int)
    requires
        0 <= r < rows,
        0 <= c < cols,
    ensures
        0 <= r * cols + c < rows * cols,
        forall|r2: int, c2: int|
            0 <= r2 < rows && 0 <= c2 < cols && !(r2 == r && c2 == c) ==> #[trigger] (r2 * cols
                + c2) != r * cols + c,
{
    assert(0 <= r * cols + c < rows * cols) by (nonlinear_arith)
        requires
            0 <= r < rows,
            0 <= c < cols,
    ;
    assert forall|r2: int, c2: int|
        0 <= r2 < rows && 0 <= c2 < cols && !(r2 == r && c2 == c) implies #[trigger] (r2 * cols
        + c2) != r * cols + c by {
        assert(r2 * cols + c2 != r * cols + c) by (nonlinear_arith)
            requires
                0 <= r < rows,
                0 <= c < cols,
                0 <= r2 < rows,
                0 <= c2 < cols,
                !(r2 == r && c2 == c),
        ;
    }
}

impl Grid {
    /// Number of cell rows.
    pub closed spec fn spec_rows(self) -> int {
        self.rows as int
    }

    /// Number of cell columns.
    pub closed spec fn spec_cols(self) -> int {
        self.cols as int
    }

    /// The identifiers held by cell `(r, c)`.
    pub closed spec fn cell(self, r: int, c: int) -> Seq<u32>
        recommends
            0 <= r < self.spec_rows(),
            0 <= c < self.spec_cols(),
    {
        self.cells@[r * self.spec_cols() + c]@
    }

    /// Whether cell `(r, c)` holds `id`.
    pub open spec fn cell_has(self, r: int, c: int, id: u32) -> bool {
        self.cell(r, c).contains(id)
    }

    /// Structural soundness: one vector per cell, none with duplicates.
    pub closed spec fn wf(self) -> bool {
        &&& self.cells@.len() == self.spec_rows() * self.spec_cols()
        &&& forall|i: int| 0 <= i < self.cells@.len() ==> (#[trigger] self.cells@[i])@.no_duplicates()
    }

    /// A grid of `rows x cols` empty cells.
    pub fn new(rows: usize, cols: usize) -> (g: Grid)
        requires
            rows >= 1,
            cols >= 1,
            rows * cols <= usize::MAX,
        ensures
            g.wf(),
            g.spec_rows() == rows,
            g.spec_cols() == cols,
            forall|r: int, c: int|
                0 <= r < rows && 0 <= c < cols ==> #[trigger] g.cell(r, c) == Seq::<u32>::empty(),
    {
        proof {
            assert(rows * cols >= 0) by (nonlinear_arith)
                requires
                    rows >= 1,
                    cols >= 1,
            ;
        }
        let n: usize = rows * cols;
        let mut cells: Vec<Vec<u32>> = Vec::new();
        let mut i: usize = 0;
        while i < n
            invariant
                0 <= i <= n,
                cells@.len() == i,
                forall|j: int| 0 <= j < i ==> (#[trigger] cells@[j])@ == Seq::<u32>::empty(),
            decreases n - i,
        {
            cells.push(Vec::new());
            i += 1;
        }
        let g = Grid { rows, cols, cells };
        proof {
            assert forall|r: int, c: int| 0 <= r < rows && 0 <= c < cols implies #[trigger] g.cell(
                r,
                c,
            ) == Seq::<u32>::empty() by {
                lemma_row_major(rows as int, cols as int, r, c);
            }
        }
        g
    }

    /// Number of cell rows.
    pub fn rows(&self) -> (r: usize)
        ensures
            r == self.spec_rows(),
    {
        self.rows
    }

    /// Number of cell columns.
    pub fn cols(&self) -> (r: usize)
        ensures
            r == self.spec_cols(),
    {
        self.cols
    }

    /// A copy of the identifiers in cell `(r, c)`.
    pub fn ids_at(&self, r: usize, c: usize) -> (ids: Vec<u32>)
        requires
            self.wf(),
            r < self.spec_rows(),
            c < self.spec_cols(),
        ensures
            ids@ == self.cell(r as int, c as int),
    {
        let n_cells: usize = self.cells.len();
        proof {
            lemma_row_major(self.spec_rows(), self.spec_cols(), r as int, c as int);
        }
        let idx: usize = r * self.cols + c;
        self.cells[idx].clone()
    }

    /// Inserts `id` into cell `(r, c)`; a no-op when already present.
    pub(crate) fn add(&mut self, r: usize, c: usize, id: u32)
        requires
            old(self).wf(),
            r < old(self).spec_rows(),
            c < old(self).spec_cols(),
        ensures
            final(self).wf(),
            final(self).spec_rows() == old(self).spec_rows(),
            final(self).spec_cols() == old(self).spec_cols(),
            forall|x: u32|
                final(self).cell_has(r as int, c as int, x) <==> (old(self).cell_has(
                    r as int,
                    c as int,
                    x,
                ) || x == id),
            forall|r2: int, c2: int|
                0 <= r2 < old(self).spec_rows() && 0 <= c2 < old(self).spec_cols() && !(r2 == r
                    && c2 == c) ==> #[trigger] final(self).cell(r2, c2) == old(self).cell(r2, c2),
    {
        let n_cells: usize = self.cells.len();
        proof {
            lemma_row_major(self.spec_rows(), self.spec_cols(), r as int, c as int);
        }
        let idx: usize = r * self.cols + c;
        if !crate::seqs::holds_id(&self.cells[idx], id) {
            let cell = &mut self.cells[idx];
            cell.push(id);
        }
        proof {
            assert forall|r2: int, c2: int|
                0 <= r2 < old(self).spec_rows() && 0 <= c2 < old(self).spec_cols() && !(r2
                    == r as int && c2 == c as int) implies #[trigger] final(self).cell(r2, c2) == old(
                self,
            ).cell(r2, c2) by {
                lemma_row_major(self.spec_rows(), self.spec_cols(), r2, c2);
            }
        }
    }

    /// Removes `id` from cell `(r, c)`; a no-op when absent.
    pub(crate) fn remove(&mut self, r: usize, c: usize, id: u32)
        requires
            old(self).wf(),
            r < old(self).spec_rows(),
            c < old(self).spec_cols(),
        ensures
            final(self).wf(),
            final(self).spec_rows() == old(self).spec_rows(),
            final(self).spec_cols() == old(self).spec_cols(),
            forall|x: u32|
                final(self).cell_has(r as int, c as int, x) <==> (old(self).cell_has(
                    r as int,
                    c as int,
                    x,
                ) && x != id),
            forall|r2: int, c2: int|
                0 <= r2 < old(self).spec_rows() && 0 <= c2 < old(self).spec_cols() && !(r2 == r
                    && c2 == c) ==> #[trigger] final(self).cell(r2, c2) == old(self).cell(r2, c2),
    {
        let n_cells: usize = self.cells.len();
        proof {
            lemma_row_major(self.spec_rows(), self.spec_cols(), r as int, c as int);
        }
        let idx: usize = r * self.cols + c;
        match crate::seqs::find_id(&self.cells[idx], id) {
            Some(pos) => {
                let ghost entry: Seq<u32> = self.cells@[idx as int]@;
                let cell = &mut self.cells[idx];
                cell.remove(pos);
                proof {
                    crate::seqs::lemma_remove_unique(entry, pos as int);
                }
            },
            None => {},
        }
        proof {
            assert forall|r2: int, c2: int|
                0 <= r2 < old(self).spec_rows() && 0 <= c2 < old(self).spec_cols() && !(r2
                    == r as int && c2 == c as int) implies #[trigger] final(self).cell(r2, c2) == old(
                self,
            ).cell(r2, c2) by {
                lemma_row_major(self.spec_rows(), self.spec_cols(), r2, c2);
            }
        }
    }
}

} // verus!
