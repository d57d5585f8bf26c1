use crate::csf::particle::Particle;
use vstd::prelude::*;

verus! {

/// Most cells that a grid may hold.
pub const MAX_GRID_CELLS: usize = 0x100_0000;

/// A rectangular array of cloth nodes, stored in an `ndarray::Array2`. The
/// array is reached only through the functions below, whose contracts state
/// what ndarray's documentation and source say of the calls they make.
#[verifier::external_body]
pub struct Grid {
    cells: ndarray::Array2<Particle>,
}

/// The rows of the array, first row first, each row from its first column.
pub uninterp spec fn grid_rows(grid: Grid) -> Seq<Seq<Particle>>;

impl View for Grid {
    type V = Seq<Seq<Particle>>;

    open spec fn view(&self) -> Seq<Seq<Particle>> {
        grid_rows(*self)
    }
}

impl Grid {
    /// `ndarray::Array2::default` with the shape `(rows, cols)`: every cell
    /// holds `Particle::default()`. The cap on the cell count keeps the
    /// array's allocation below the size at which ndarray or `Vec` panic.
    #[verifier::external_body]
    pub(crate) fn new(rows: usize, cols: usize) -> (grid: Grid)
        requires
            rows >= 1,
            cols >= 1,
            rows * cols <= MAX_GRID_CELLS,
        ensures
            grid_rows(grid).len() == rows,
            forall|i: int| 0 <= i < rows ==> (#[trigger] grid_rows(grid)[i]).len() == cols,
            forall|i: int, j: int|
                0 <= i < rows && 0 <= j < cols ==> #[trigger] grid_rows(grid)[i][j] == Particle::blank(),
    {
        Grid { cells: ndarray::Array2::default((rows, cols)) }
    }

    /// `ArrayBase::nrows`: the length of the first axis.
    #[verifier::external_body]
    pub(crate) fn nrows(&self) -> (rows: usize)
        ensures
            rows == grid_rows(*self).len(),
    {
        self.cells.nrows()
    }

    /// `ArrayBase::ncols`: the length of the second axis, which is the length
    /// of every row.
    #[verifier::external_body]
    pub(crate) fn ncols(&self) -> (cols: usize)
        ensures
            forall|i: int| 0 <= i < grid_rows(*self).len() ==> (#[trigger] grid_rows(*self)[i]).len() == cols,
    {
        self.cells.ncols()
    }

    /// Indexing an array by `[row, col]` (`Index::index`), which panics
    /// outside the array; the cell is copied out.
    #[verifier::external_body]
    pub(crate) fn get(&self, row: usize, col: usize) -> (cell: Particle)
        requires
            row < grid_rows(*self).len(),
            col < grid_rows(*self)[row as int].len(),
        ensures
            cell == grid_rows(*self)[row as int][col as int],
    {
        self.cells[[row, col]]
    }

    /// Assigning through an index `[row, col]` (`IndexMut::index_mut`), which
    /// panics outside the array: that cell is replaced, no other changes.
    #[verifier::external_body]
    pub(crate) fn set(&mut self, row: usize, col: usize, cell: Particle)
        requires
            row < grid_rows(*old(self)).len(),
            col < grid_rows(*old(self))[row as int].len(),
        ensures
            grid_rows(*final(self)) == grid_rows(*old(self)).update(
                row as int,
                grid_rows(*old(self))[row as int].update(col as int, cell),
            ),
    {
        self.cells[[row, col]] = cell;
    }
}

} // verus!
