use crate::csf::grid::{Grid, MAX_GRID_CELLS};
use crate::csf::model::{
    buildable, grid_cols_for, grid_rows_for, planar_gap, row_major_before, SurfaceModel,
    DEFAULT_MAX_ITERATIONS, DISPLACEMENT,
};
use crate::csf::particle::Particle;
use crate::point::Point;
use crate::units::{ceil_div_exec, floor_div_exec, lemma_ceil_div_bounds, COORD_LIMIT, UNIT};
use vstd::prelude::*;

verus! {

/// A cloth of nodes that rises from below the terrain until the elevations
/// of the source points hold it back. Once simulated, the cloth approximates
/// the ground.
pub struct ClothSurface {
    particles: Grid,
    /// A simulation stops after the first sweep in which no node moved this
    /// far.
    simulation_threshold: i64,
    /// A point counts as ground when it is closer than this to the cloth.
    classification_threshold: i64,
    /// Share of half a height difference that neighbours exchange, in per
    /// mille.
    rigidness: i64,
    /// Rise of a moveable node in one sweep.
    displacement: i64,
    /// A simulation stops after this many sweeps at the latest.
    max_iterations: usize,
    bounds: ((i64, i64), (i64, i64)),
    cell_resolution: i64,
}

/// How a simulation ended.
#[derive(Clone, Copy, Debug, PartialEq, Eq)]
pub struct SimulationReport {
    /// Number of sweeps made.
    pub sweeps: usize,
    /// Whether the last sweep moved no node as far as the simulation
    /// threshold. False where the simulation used up its sweeps before the
    /// cloth came to rest, and where no sweep was made.
    pub still: bool,
}

impl View for ClothSurface {
    type V = SurfaceModel;

    closed spec fn view(&self) -> SurfaceModel {
        SurfaceModel {
            cells: self.particles@,
            simulation_threshold: self.simulation_threshold,
            classification_threshold: self.classification_threshold,
            rigidness: self.rigidness,
            displacement: self.displacement,
            max_iterations: self.max_iterations,
            bounds: self.bounds,
            cell_resolution: self.cell_resolution,
        }
    }
}

impl ClothSurface {
    /// Tests whether `initialize` accepts the box, the resolution and the
    /// rigidness.
    pub fn can_initialize(
        lower_left: (i64, i64),
        upper_right: (i64, i64),
        cell_resolution: i64,
        rigidness: i64,
    ) -> (ok: bool)
        ensures
            ok == buildable(lower_left, upper_right, cell_resolution, rigidness),
    {
        if cell_resolution < 1 || cell_resolution > COORD_LIMIT || rigidness < 0 || rigidness
            > UNIT {
            return false;
        }
        if lower_left.0 < -COORD_LIMIT || lower_left.0 >= upper_right.0 || upper_right.0
            > COORD_LIMIT {
            return false;
        }
        if lower_left.1 < -COORD_LIMIT || lower_left.1 >= upper_right.1 || upper_right.1
            > COORD_LIMIT {
            return false;
        }
        let rows: i128 = ceil_div_exec(
            upper_right.1 as i128 - lower_left.1 as i128,
            cell_resolution as i128,
        );
        let cols: i128 = ceil_div_exec(
            upper_right.0 as i128 - lower_left.0 as i128,
            cell_resolution as i128,
        );
        proof {
            lemma_grid_dims(lower_left, upper_right, cell_resolution);
            assert(rows * cols <= 0x200_0000_0000 * 0x200_0000_0000) by (nonlinear_arith)
                requires
                    1 <= rows <= 0x200_0000_0000,
                    1 <= cols <= 0x200_0000_0000,
            ;
        }
        rows * cols <= MAX_GRID_CELLS as i128
    }

    /// Lays out a flat cloth at height `top_z` over the box from `lower_left`
    /// to `upper_right`, one node every `cell_resolution`. The recorded upper
    /// right corner is the position of the last node, not the corner asked
    /// for.
    pub fn initialize(
        lower_left: (i64, i64),
        upper_right: (i64, i64),
        cell_resolution: i64,
        simulation_threshold: i64,
        classification_threshold: i64,
        rigidness: i64,
        top_z: i64,
    ) -> (surface: ClothSurface)
        requires
            buildable(lower_left, upper_right, cell_resolution, rigidness),
        ensures
            surface@ == SurfaceModel::fresh(
                lower_left,
                upper_right,
                cell_resolution,
                simulation_threshold,
                classification_threshold,
                rigidness,
                top_z,
            ),
            surface@.wf(),
            surface@.all_free(),
            surface@.rows() == grid_rows_for(lower_left, upper_right, cell_resolution),
            surface@.cols() == grid_cols_for(lower_left, upper_right, cell_resolution),
    {
        let ghost target = SurfaceModel::fresh(
            lower_left,
            upper_right,
            cell_resolution,
            simulation_threshold,
            classification_threshold,
            rigidness,
            top_z,
        );
        let rows_wide: i128 = ceil_div_exec(
            upper_right.1 as i128 - lower_left.1 as i128,
            cell_resolution as i128,
        );
        let cols_wide: i128 = ceil_div_exec(
            upper_right.0 as i128 - lower_left.0 as i128,
            cell_resolution as i128,
        );
        proof {
            lemma_grid_dims(lower_left, upper_right, cell_resolution);
            assert(rows_wide <= rows_wide * cols_wide && cols_wide <= rows_wide * cols_wide)
                by (nonlinear_arith)
                requires
                    rows_wide >= 1,
                    cols_wide >= 1,
            ;
        }
        let rows: usize = rows_wide as usize;
        let cols: usize = cols_wide as usize;
        let mut particles = Grid::new(rows, cols);
        let mut i: usize = 0;
        while i < rows
            invariant
                i <= rows,
                rows == grid_rows_for(lower_left, upper_right, cell_resolution),
                cols == grid_cols_for(lower_left, upper_right, cell_resolution),
                buildable(lower_left, upper_right, cell_resolution, rigidness),
                rows >= 1,
                cols >= 1,
                target == SurfaceModel::fresh(
                    lower_left,
                    upper_right,
                    cell_resolution,
                    simulation_threshold,
                    classification_threshold,
                    rigidness,
                    top_z,
                ),
                particles@.len() == rows,
                forall|a: int| 0 <= a < rows ==> (#[trigger] particles@[a]).len() == cols,
                forall|a: int, b: int|
                    0 <= a < i && 0 <= b < cols ==> #[trigger] particles@[a][b]
                        == target.cells[a][b],
            decreases rows - i,
        {
            let mut j: usize = 0;
            while j < cols
                invariant
                    i < rows,
                    j <= cols,
                    rows == grid_rows_for(lower_left, upper_right, cell_resolution),
                    cols == grid_cols_for(lower_left, upper_right, cell_resolution),
                    buildable(lower_left, upper_right, cell_resolution, rigidness),
                    rows >= 1,
                    cols >= 1,
                    target == SurfaceModel::fresh(
                        lower_left,
                        upper_right,
                        cell_resolution,
                        simulation_threshold,
                        classification_threshold,
                        rigidness,
                        top_z,
                    ),
                    particles@.len() == rows,
                    forall|a: int| 0 <= a < rows ==> (#[trigger] particles@[a]).len() == cols,
                    forall|a: int, b: int|
                        0 <= a < i && 0 <= b < cols ==> #[trigger] particles@[a][b]
                            == target.cells[a][b],
                    forall|b: int|
                        0 <= b < j ==> #[trigger] particles@[i as int][b] == target.cells[i as int][b],
                decreases cols - j,
            {
                proof {
                    lemma_grid_dims(lower_left, upper_right, cell_resolution);
                    lemma_lattice_in_range(cell_resolution as int, j as int, cols as int);
                    lemma_lattice_in_range(cell_resolution as int, i as int, rows as int);
                }
                let x: i64 = lower_left.0 + cell_resolution * (j as i64);
                let y: i64 = lower_left.1 + cell_resolution * (i as i64);
                let cell = Particle {
                    x,
                    y,
                    z: top_z,
                    prev_z: top_z,
                    max_z: 0,
                    is_moveable: true,
                    closest_pt_distance: u128::MAX,
                };
                particles.set(i, j, cell);
                j += 1;
            }
            i += 1;
        }
        proof {
            lemma_grid_dims(lower_left, upper_right, cell_resolution);
            lemma_lattice_in_range(cell_resolution as int, cols - 1, cols as int);
            lemma_lattice_in_range(cell_resolution as int, rows - 1, rows as int);
        }
        let upper_right_corrected: (i64, i64) = (
            lower_left.0 + cell_resolution * ((cols - 1) as i64),
            lower_left.1 + cell_resolution * ((rows - 1) as i64),
        );
        let surface = ClothSurface {
            particles,
            simulation_threshold,
            classification_threshold,
            rigidness,
            displacement: DISPLACEMENT,
            max_iterations: DEFAULT_MAX_ITERATIONS,
            bounds: (lower_left, upper_right_corrected),
            cell_resolution,
        };
        proof {
            assert(surface@.cells =~~= target.cells);
            SurfaceModel::lemma_fresh_wf(
                lower_left,
                upper_right,
                cell_resolution,
                simulation_threshold,
                classification_threshold,
                rigidness,
                top_z,
            );
        }
        surface
    }

    /// Number of rows of the grid.
    pub fn nrows(&self) -> (rows: usize)
        ensures
            rows == self@.rows(),
    {
        self.particles.nrows()
    }

    /// Number of columns of the grid.
    pub fn ncols(&self) -> (cols: usize)
        requires
            self@.rectangular(),
        ensures
            cols == self@.cols(),
    {
        self.particles.ncols()
    }

    /// The node at `(row, col)`.
    pub fn particle(&self, row: usize, col: usize) -> (cell: Particle)
        requires
            self@.rectangular(),
            self@.in_grid(row as int, col as int),
        ensures
            cell == self@.cells[row as int][col as int],
    {
        self.particles.get(row, col)
    }

    /// A simulation stops after the first sweep in which no node moved this
    /// far.
    pub fn simulation_threshold(&self) -> (threshold: i64)
        ensures
            threshold == self@.simulation_threshold,
    {
        self.simulation_threshold
    }

    /// A point counts as ground when it is closer than this to the cloth.
    pub fn classification_threshold(&self) -> (threshold: i64)
        ensures
            threshold == self@.classification_threshold,
    {
        self.classification_threshold
    }

    /// Share of half a height difference that neighbours exchange, in per
    /// mille.
    pub fn rigidness(&self) -> (rigidness: i64)
        ensures
            rigidness == self@.rigidness,
    {
        self.rigidness
    }

    /// Rise of a moveable node in one sweep.
    pub fn displacement(&self) -> (displacement: i64)
        ensures
            displacement == self@.displacement,
    {
        self.displacement
    }

    /// A simulation stops after this many sweeps at the latest.
    pub fn max_iterations(&self) -> (cap: usize)
        ensures
            cap == self@.max_iterations,
    {
        self.max_iterations
    }

    /// Sets the distance below which a sweep counts as still.
    pub fn set_simulation_threshold(&mut self, threshold: i64)
        ensures
            final(self)@ == (SurfaceModel { simulation_threshold: threshold, ..old(self)@ }),
    {
        self.simulation_threshold = threshold;
    }

    /// Sets the distance below which a point counts as ground.
    pub fn set_classification_threshold(&mut self, threshold: i64)
        ensures
            final(self)@ == (SurfaceModel { classification_threshold: threshold, ..old(self)@ }),
    {
        self.classification_threshold = threshold;
    }

    /// Sets the number of sweeps after which a simulation stops at the
    /// latest.
    pub fn set_max_iterations(&mut self, cap: usize)
        ensures
            final(self)@ == (SurfaceModel { max_iterations: cap, ..old(self)@ }),
    {
        self.max_iterations = cap;
    }

    /// Tells whether some cell has a ceiling other than zero, that is,
    /// whether a source point has constrained the cloth anywhere.
    pub fn has_source(&self) -> (found: bool)
        requires
            self@.rectangular(),
        ensures
            found == self@.has_source(),
    {
        let rows = self.particles.nrows();
        let cols = self.particles.ncols();
        let mut i: usize = 0;
        while i < rows
            invariant
                i <= rows,
                rows == self@.rows(),
                cols == self@.cols(),
                self@.rectangular(),
                forall|a: int, b: int|
                    0 <= a < i && 0 <= b < cols ==> (#[trigger] self@.cells[a][b]).max_z == 0,
            decreases rows - i,
        {
            let mut j: usize = 0;
            while j < cols
                invariant
                    i < rows,
                    j <= cols,
                    rows == self@.rows(),
                    cols == self@.cols(),
                    self@.rectangular(),
                    forall|a: int, b: int|
                        0 <= a < i && 0 <= b < cols ==> (#[trigger] self@.cells[a][b]).max_z == 0,
                    forall|b: int| 0 <= b < j ==> (#[trigger] self@.cells[i as int][b]).max_z == 0,
                decreases cols - j,
            {
                assert(self@.cells[i as int].len() == cols);
                if self.particles.get(i, j).max_z != 0 {
                    assert(self@.in_grid(i as int, j as int));
                    return true;
                }
                j += 1;
            }
            i += 1;
        }
        false
    }

    /// Position of the first node and of the last node, each as `(x, y)`.
    pub fn bounds(&self) -> (corners: ((i64, i64), (i64, i64)))
        ensures
            corners == self@.bounds,
    {
        self.bounds
    }

    /// Distance between neighbouring nodes.
    pub fn cell_resolution(&self) -> (resolution: i64)
        ensures
            resolution == self@.cell_resolution,
    {
        self.cell_resolution
    }

    /// Finds the cell that the point falls into, as `(row, column)`. A point
    /// beside the grid has none.
    pub fn get_closest_cell(&self, point: &Point) -> (cell: Option<(usize, usize)>)
        requires
            self@.wf(),
        ensures
            match cell {
                Some((row, col)) => self@.cell_of(*point) == Some((row as int, col as int)),
                None => self@.cell_of(*point) is None,
            },
    {
        let col: i128 = floor_div_exec(
            point.x as i128 - self.bounds.0.0 as i128,
            self.cell_resolution as i128,
        );
        let row: i128 = ceil_div_exec(
            self.bounds.1.1 as i128 - point.y as i128,
            self.cell_resolution as i128,
        );
        let rows = self.particles.nrows();
        let cols = self.particles.ncols();
        if row < 0 || col < 0 || row >= rows as i128 || col >= cols as i128 {
            return None;
        }
        Some((row as usize, col as usize))
    }

    /// Shows one source point to the surface: if the point falls into a cell
    /// and is nearer to the cell's node than every point shown before, the
    /// cell's ceiling becomes the point's elevation. A point beside the grid
    /// changes nothing.
    pub fn set_max_z_if_closest_to_particle(&mut self, point: &Point)
        requires
            old(self)@.wf(),
        ensures
            final(self)@ == old(self)@.draped(*point),
            final(self)@.wf(),
            old(self)@.all_free() ==> final(self)@.all_free(),
    {
        proof {
            self@.lemma_draped_wf(*point);
        }
        match self.get_closest_cell(point) {
            Some((row, col)) => {
                let mut cell = self.particles.get(row, col);
                proof {
                    self@.lemma_cell_of_bounds(*point);
                    self@.lemma_gap_to_bounded(row as int, col as int, *point);
                }
                let dx: i128 = cell.x as i128 - point.x as i128;
                let dy: i128 = cell.y as i128 - point.y as i128;
                assert(dx * dx <= 0x400_0000_0000 * 0x400_0000_0000) by (nonlinear_arith)
                    requires
                        -0x400_0000_0000 <= dx <= 0x400_0000_0000,
                ;
                assert(dy * dy <= 0x400_0000_0000 * 0x400_0000_0000) by (nonlinear_arith)
                    requires
                        -0x400_0000_0000 <= dy <= 0x400_0000_0000,
                ;
                assert(dx * dx >= 0) by (nonlinear_arith);
                assert(dy * dy >= 0) by (nonlinear_arith);
                let distance: u128 = (dx * dx + dy * dy) as u128;
                if distance < cell.closest_pt_distance {
                    cell.closest_pt_distance = distance;
                    cell.max_z = point.z;
                    self.particles.set(row, col, cell);
                }
            },
            None => {},
        }
    }

    /// Tells whether the point counts as ground: it falls into a cell and
    /// lies closer to the cloth there than the classification threshold. A
    /// point beside the grid is never ground.
    pub fn is_ground_point(&self, point: &Point) -> (ground: bool)
        requires
            self@.wf(),
        ensures
            ground == self@.is_ground(*point),
    {
        match self.get_closest_cell(point) {
            Some((row, col)) => {
                let cell = self.particles.get(row, col);
                let diff: i128 = point.z as i128 - cell.z as i128;
                let distance: i128 = if diff >= 0 {
                    diff
                } else {
                    -diff
                };
                distance < self.classification_threshold as i128
            },
            None => false,
        }
    }
}

/// Whether a point counts as ground depends on nothing but the state of the
/// surface and the point: two surfaces in the same state give the same
/// answer for the same point, however often they are asked.
pub proof fn lemma_ground_test_is_a_function(a: &ClothSurface, b: &ClothSurface, p: Point, q: Point)
    requires
        a@ == b@,
        p == q,
    ensures
        a@.is_ground(p) == b@.is_ground(q),
{
}

/// The cells named by a list of index pairs.
pub open spec fn as_places(pairs: Seq<(usize, usize)>) -> Seq<(int, int)> {
    Seq::new(pairs.len(), |k: int| (pairs[k].0 as int, pairs[k].1 as int))
}

impl ClothSurface {
    /// Lists the cells next to `(i, j)`: the one in the row before, the one
    /// in the row after, the one in the column before and the one in the
    /// column after, as far as the grid has them, in this order.
    pub fn get_neighbours(&self, i: usize, j: usize) -> (places: Vec<(usize, usize)>)
        requires
            self@.rectangular(),
            self@.in_grid(i as int, j as int),
        ensures
            as_places(places@) == self@.neighbour_cells(i as int, j as int),
    {
        let mut neighbours: Vec<(usize, usize)> = Vec::new();
        let rows = self.particles.nrows();
        let cols = self.particles.ncols();
        if i > 0 {
            neighbours.push((i - 1, j));
        }
        if i < rows - 1 {
            neighbours.push((i + 1, j));
        }
        if j > 0 {
            neighbours.push((i, j - 1));
        }
        if j < cols - 1 {
            neighbours.push((i, j + 1));
        }
        proof {
            assert(as_places(neighbours@) =~= self@.neighbour_cells(i as int, j as int));
        }
        neighbours
    }

    /// Applies the forces to the node at `(i, j)` and writes the node and its
    /// neighbours back.
    fn apply_force_at(&mut self, i: usize, j: usize)
        requires
            old(self)@.wf(),
            old(self)@.in_grid(i as int, j as int),
        ensures
            final(self)@ == old(self)@.force_at(i as int, j as int),
            final(self)@.wf(),
    {
        let ghost start = self@;
        let places = self.get_neighbours(i, j);
        let ghost spots = as_places(places@);
        proof {
            start.lemma_neighbours_in_grid(i as int, j as int);
        }
        let count = places.len();
        let mut others: Vec<Particle> = Vec::new();
        let mut k: usize = 0;
        while k < count
            invariant
                k <= count,
                count == places@.len(),
                spots == as_places(places@),
                self@ == start,
                start.rectangular(),
                forall|m: int|
                    0 <= m < spots.len() ==> start.in_grid((#[trigger] spots[m]).0, spots[m].1),
                others@.len() == k,
                forall|m: int|
                    0 <= m < k ==> #[trigger] others@[m] == start.cells[spots[m].0][spots[m].1],
            decreases count - k,
        {
            let (r, c) = places[k];
            assert(start.in_grid(spots[k as int].0, spots[k as int].1));
            assert(start.cells[r as int].len() == start.cols());
            others.push(self.particles.get(r, c));
            k += 1;
        }
        let ghost given = others@;
        assert(given =~= start.cells_at(spots));
        let mut node = self.particles.get(i, j);
        node.apply_force(self.rigidness, &mut others, self.displacement);
        let ghost moved = others@;
        proof {
            start.cells[i as int][j as int].lemma_forced_evolves(
                given,
                start.rigidness as int,
                start.displacement as int,
            );
        }
        k = 0;
        while k < count
            invariant
                k <= count,
                count == places@.len(),
                spots == as_places(places@),
                others@ == moved,
                moved.len() == count,
                start.rectangular(),
                forall|m: int|
                    0 <= m < spots.len() ==> start.in_grid((#[trigger] spots[m]).0, spots[m].1),
                self@ == start.with_cells(spots.take(k as int), moved.take(k as int)),
            decreases count - k,
        {
            let (r, c) = places[k];
            let value = others[k];
            proof {
                assert forall|m: int| 0 <= m < spots.take(k as int).len() implies start.in_grid(
                    (#[trigger] spots.take(k as int)[m]).0,
                    spots.take(k as int)[m].1,
                ) by {
                    assert(spots.take(k as int)[m] == spots[m]);
                }
                start.lemma_with_cells(spots.take(k as int), moved.take(k as int));
                assert(start.in_grid(spots[k as int].0, spots[k as int].1));
                assert(self@.cells[r as int].len() == self@.cols());
                assert(spots.take(k + 1).drop_last() =~= spots.take(k as int));
                assert(moved.take(k + 1).drop_last() =~= moved.take(k as int));
                assert(spots.take(k + 1).last() == (r as int, c as int));
                assert(moved.take(k + 1).last() == value);
            }
            self.particles.set(r, c, value);
            k += 1;
        }
        proof {
            assert(spots.take(count as int) =~= spots);
            assert(moved.take(count as int) =~= moved);
            start.lemma_with_cells(spots, moved);
            assert(self@.cells[i as int].len() == self@.cols());
        }
        self.particles.set(i, j, node);
        proof {
            start.lemma_force_at_evolves(i as int, j as int);
            start.lemma_evolves_wf(start.force_at(i as int, j as int));
        }
    }

    /// Makes one sweep over the grid: the forces are applied to every node
    /// once, in row-major order, each node seeing the heights that the nodes
    /// before it left. Returns the largest distance by which a node's height
    /// differs from its height after the previous sweep.
    pub fn iterate(&mut self) -> (moved: i128)
        requires
            old(self)@.wf(),
        ensures
            final(self)@ == old(self)@.swept().recorded(),
            moved == old(self)@.swept().max_move(),
            final(self)@.wf(),
            old(self)@.evolves_to(final(self)@),
            old(self)@.pins_on_ceiling(final(self)@),
            old(self)@.anchored() ==> final(self)@.anchored(),
    {
        let ghost start = self@;
        let rows = self.particles.nrows();
        let cols = self.particles.ncols();
        let mut i: usize = 0;
        while i < rows
            invariant
                i <= rows,
                rows == start.rows(),
                cols == start.cols(),
                start.wf(),
                self@ == start.rows_swept(i as int),
                self@.wf(),
                self@.rows() == rows,
                self@.cols() == cols,
            decreases rows - i,
        {
            let ghost row_start = self@;
            let mut j: usize = 0;
            while j < cols
                invariant
                    i < rows,
                    j <= cols,
                    rows == row_start.rows(),
                    cols == row_start.cols(),
                    row_start.wf(),
                    self@ == row_start.row_swept(i as int, j as int),
                    self@.wf(),
                    self@.rows() == rows,
                    self@.cols() == cols,
                decreases cols - j,
            {
                proof {
                    self@.lemma_force_at_evolves(i as int, j as int);
                }
                self.apply_force_at(i, j);
                j += 1;
            }
            i += 1;
        }
        let ghost mid = self@;
        proof {
            start.lemma_rows_swept_evolves(rows as int);
            mid.lemma_recorded_evolves();
            start.lemma_evolves_trans(mid, mid.recorded());
            mid.lemma_evolves_wf(mid.recorded());
        }
        let mut max_distance: i128 = 0;
        i = 0;
        while i < rows
            invariant
                i <= rows,
                rows == mid.rows(),
                cols == mid.cols(),
                mid.wf(),
                self@ == (SurfaceModel { cells: self@.cells, ..mid }),
                self@.cells.len() == rows,
                forall|a: int| 0 <= a < rows ==> (#[trigger] self@.cells[a]).len() == cols,
                forall|a: int, b: int|
                    0 <= a < i && 0 <= b < cols ==> #[trigger] self@.cells[a][b]
                        == mid.recorded().cells[a][b],
                forall|a: int, b: int|
                    i <= a < rows && 0 <= b < cols ==> #[trigger] self@.cells[a][b]
                        == mid.cells[a][b],
                max_distance == mid.rows_move(i as int),
                0 <= max_distance <= 0xffff_ffff_ffff_ffff,
            decreases rows - i,
        {
            let ghost before_row: int = max_distance as int;
            let mut j: usize = 0;
            while j < cols
                invariant
                    i < rows,
                    j <= cols,
                    rows == mid.rows(),
                    cols == mid.cols(),
                    mid.wf(),
                    self@ == (SurfaceModel { cells: self@.cells, ..mid }),
                    self@.cells.len() == rows,
                    forall|a: int| 0 <= a < rows ==> (#[trigger] self@.cells[a]).len() == cols,
                    forall|a: int, b: int|
                        0 <= a < i && 0 <= b < cols ==> #[trigger] self@.cells[a][b]
                            == mid.recorded().cells[a][b],
                    forall|a: int, b: int|
                        i < a < rows && 0 <= b < cols ==> #[trigger] self@.cells[a][b]
                            == mid.cells[a][b],
                    forall|b: int|
                        0 <= b < j ==> #[trigger] self@.cells[i as int][b] == mid.recorded().cells[i as int][b],
                    forall|b: int|
                        j <= b < cols ==> #[trigger] self@.cells[i as int][b] == mid.cells[i as int][b],
                    before_row == mid.rows_move(i as int),
                    max_distance == (if mid.row_move(i as int, j as int) > before_row {
                        mid.row_move(i as int, j as int)
                    } else {
                        before_row
                    }),
                    0 <= max_distance <= 0xffff_ffff_ffff_ffff,
                decreases cols - j,
            {
                let mut cell = self.particles.get(i, j);
                assert(cell == mid.cells[i as int][j as int]);
                assert(mid.cells[i as int].len() == cols);
                let diff: i128 = cell.z as i128 - cell.prev_z as i128;
                let distance: i128 = if diff >= 0 {
                    diff
                } else {
                    -diff
                };
                assert(distance == mid.cell_move(i as int, j as int));
                if distance > max_distance {
                    max_distance = distance;
                }
                cell.prev_z = cell.z;
                self.particles.set(i, j, cell);
                j += 1;
            }
            i += 1;
        }
        proof {
            assert(self@.cells =~~= mid.recorded().cells);
            if start.anchored() {
                start.lemma_swept_anchored();
            }
            start.lemma_evolved_pins_on_ceiling(mid.recorded());
        }
        max_distance
    }

    /// Runs the simulation: sweeps follow one another until one moves no
    /// node as far as `simulation_threshold`, or `max_iterations` sweeps have
    /// been made. Reports the number of sweeps made and whether the last of
    /// them was below the threshold, that is, whether the cloth has come to
    /// rest.
    pub fn simulate(&mut self) -> (report: SimulationReport)
        requires
            old(self)@.wf(),
        ensures
            final(self)@ == old(self)@.simulated(old(self)@.max_iterations as nat),
            report.sweeps == old(self)@.sweeps(old(self)@.max_iterations as nat),
            report.still == old(self)@.stilled(old(self)@.max_iterations as nat),
            report.sweeps <= old(self)@.max_iterations,
            report.sweeps < old(self)@.max_iterations ==> report.still,
            final(self)@.wf(),
            old(self)@.evolves_to(final(self)@),
            old(self)@.pins_on_ceiling(final(self)@),
            old(self)@.anchored() ==> final(self)@.anchored(),
    {
        let ghost start = self@;
        let cap = self.max_iterations;
        let threshold = self.simulation_threshold;
        let mut iteration: usize = 0;
        let mut done = false;
        while iteration < cap && !done
            invariant
                iteration <= cap,
                self@.wf(),
                cap == start.max_iterations,
                threshold == start.simulation_threshold,
                self@.simulation_threshold == threshold,
                !done ==> start.simulated(cap as nat) == self@.simulated((cap - iteration) as nat),
                !done ==> start.sweeps(cap as nat) == iteration + self@.sweeps(
                    (cap - iteration) as nat,
                ),
                done ==> start.simulated(cap as nat) == self@,
                done ==> start.sweeps(cap as nat) == iteration,
                !done ==> start.stilled(cap as nat) == self@.stilled((cap - iteration) as nat),
                done ==> start.stilled(cap as nat),
            decreases cap - iteration,
        {
            let moved = self.iterate();
            iteration += 1;
            if moved < threshold as i128 {
                done = true;
            }
        }
        proof {
            start.lemma_simulated_evolves(cap as nat);
            start.lemma_evolves_wf(start.simulated(cap as nat));
            if start.anchored() {
                start.lemma_simulated_anchored(cap as nat);
            }
            start.lemma_evolved_pins_on_ceiling(start.simulated(cap as nat));
        }
        SimulationReport { sweeps: iteration, still: done }
    }
}

/// Squared planar distance between two nodes.
pub open spec fn particle_gap(a: Particle, b: Particle) -> int {
    planar_gap(a.x as int, a.y as int, b.x as int, b.y as int)
}

/// Whether a node stands within the area that a well-formed surface covers.
pub open spec fn in_covered_range(p: Particle) -> bool {
    &&& -COORD_LIMIT <= p.x <= 2 * COORD_LIMIT
    &&& -COORD_LIMIT <= p.y <= 2 * COORD_LIMIT
}

/// Computes the squared planar distance between two nodes.
fn gap_between(a: &Particle, b: &Particle) -> (gap: i128)
    requires
        in_covered_range(*a),
        in_covered_range(*b),
    ensures
        gap == particle_gap(*a, *b),
        gap >= 0,
{
    let dx: i128 = a.x as i128 - b.x as i128;
    let dy: i128 = a.y as i128 - b.y as i128;
    assert(0 <= dx * dx <= 0x400_0000_0000 * 0x400_0000_0000) by (nonlinear_arith)
        requires
            -0x400_0000_0000 <= dx <= 0x400_0000_0000,
    ;
    assert(0 <= dy * dy <= 0x400_0000_0000 * 0x400_0000_0000) by (nonlinear_arith)
        requires
            -0x400_0000_0000 <= dy <= 0x400_0000_0000,
    ;
    dx * dx + dy * dy
}

/// Finds, in a list of nodes, the first of those nearest to `cell`.
fn nearest_among(cell: &Particle, sources: &Vec<Particle>) -> (best: usize)
    requires
        sources@.len() > 0,
        in_covered_range(*cell),
        forall|m: int| 0 <= m < sources@.len() ==> in_covered_range(#[trigger] sources@[m]),
    ensures
        best < sources@.len(),
        forall|m: int|
            0 <= m < sources@.len() ==> particle_gap(*cell, sources@[best as int]) <= particle_gap(
                *cell,
                #[trigger] sources@[m],
            ),
        forall|m: int|
            0 <= m < best ==> particle_gap(*cell, sources@[best as int]) < particle_gap(
                *cell,
                #[trigger] sources@[m],
            ),
{
    let mut best: usize = 0;
    let mut best_gap: i128 = gap_between(cell, &sources[0]);
    let mut t: usize = 1;
    while t < sources.len()
        invariant
            1 <= t <= sources@.len(),
            best < t,
            in_covered_range(*cell),
            forall|m: int| 0 <= m < sources@.len() ==> in_covered_range(#[trigger] sources@[m]),
            best_gap == particle_gap(*cell, sources@[best as int]),
            forall|m: int|
                0 <= m < t ==> best_gap <= particle_gap(*cell, #[trigger] sources@[m]),
            forall|m: int|
                0 <= m < best ==> best_gap < particle_gap(*cell, #[trigger] sources@[m]),
        decreases sources@.len() - t,
    {
        let gap: i128 = gap_between(cell, &sources[t]);
        if gap < best_gap {
            best = t;
            best_gap = gap;
        }
        t += 1;
    }
    best
}

impl ClothSurface {
    /// Fills the gaps that the source points left: every cell whose ceiling
    /// is zero takes the ceiling of the nearest cell whose ceiling is not,
    /// by squared planar distance between the nodes, the first in row-major
    /// order among equally near ones. Where every ceiling is zero, nothing
    /// changes.
    pub fn fix_zero_max_heights(&mut self)
        requires
            old(self)@.wf(),
        ensures
            final(self)@ == old(self)@.gap_filled(),
            final(self)@.wf(),
            old(self)@.has_source() ==> forall|i: int, j: int|
                final(self)@.in_grid(i, j) ==> (#[trigger] final(self)@.cells[i][j]).max_z != 0,
            !old(self)@.has_source() ==> final(self)@ == old(self)@,
            old(self)@.all_free() ==> final(self)@.all_free(),
    {
        let ghost start = self@;
        let rows = self.particles.nrows();
        let cols = self.particles.ncols();
        let mut sources: Vec<Particle> = Vec::new();
        let ghost mut spots: Seq<(int, int)> = Seq::empty();
        let mut i: usize = 0;
        while i < rows
            invariant
                i <= rows,
                rows == start.rows(),
                cols == start.cols(),
                start.wf(),
                self@ == start,
                sources@.len() == spots.len(),
                forall|t: int|
                    0 <= t < spots.len() ==> {
                        &&& start.in_grid((#[trigger] spots[t]).0, spots[t].1)
                        &&& spots[t].0 < i
                        &&& sources@[t] == start.cells[spots[t].0][spots[t].1]
                        &&& sources@[t].max_z != 0
                    },
                forall|t1: int, t2: int|
                    0 <= t1 < t2 < spots.len() ==> row_major_before(
                        (#[trigger] spots[t1]).0,
                        spots[t1].1,
                        (#[trigger] spots[t2]).0,
                        spots[t2].1,
                    ),
                forall|k: int, l: int|
                    start.in_grid(k, l) && k < i && (#[trigger] start.cells[k][l]).max_z != 0
                        ==> exists|t: int| 0 <= t < spots.len() && #[trigger] spots[t] == (k, l),
            decreases rows - i,
        {
            let mut j: usize = 0;
            while j < cols
                invariant
                    i < rows,
                    j <= cols,
                    rows == start.rows(),
                    cols == start.cols(),
                    start.wf(),
                    self@ == start,
                    sources@.len() == spots.len(),
                    forall|t: int|
                        0 <= t < spots.len() ==> {
                            &&& start.in_grid((#[trigger] spots[t]).0, spots[t].1)
                            &&& row_major_before(spots[t].0, spots[t].1, i as int, j as int)
                            &&& sources@[t] == start.cells[spots[t].0][spots[t].1]
                            &&& sources@[t].max_z != 0
                        },
                    forall|t1: int, t2: int|
                        0 <= t1 < t2 < spots.len() ==> row_major_before(
                            (#[trigger] spots[t1]).0,
                            spots[t1].1,
                            (#[trigger] spots[t2]).0,
                            spots[t2].1,
                        ),
                    forall|k: int, l: int|
                        start.in_grid(k, l) && row_major_before(k, l, i as int, j as int) && (
                        #[trigger] start.cells[k][l]).max_z != 0 ==> exists|t: int|
                            0 <= t < spots.len() && #[trigger] spots[t] == (k, l),
                decreases cols - j,
            {
                assert(start.cells[i as int].len() == cols);
                let cell = self.particles.get(i, j);
                if cell.max_z != 0 {
                    let ghost earlier = spots;
                    sources.push(cell);
                    proof {
                        spots = spots.push((i as int, j as int));
                        assert forall|k: int, l: int|
                            start.in_grid(k, l) && row_major_before(k, l, i as int, j + 1) && (
                            #[trigger] start.cells[k][l]).max_z != 0 implies exists|t: int|
                            0 <= t < spots.len() && #[trigger] spots[t] == (k, l) by {
                            if k == i && l == j {
                                assert(spots[earlier.len() as int] == (k, l));
                            } else {
                                let t = choose|t: int|
                                    0 <= t < earlier.len() && #[trigger] earlier[t] == (k, l);
                                assert(spots[t] == (k, l));
                            }
                        }
                    }
                }
                j += 1;
            }
            i += 1;
        }
        proof {
            start.lemma_gap_filled();
            if spots.len() > 0 {
                assert(start.in_grid(spots[0].0, spots[0].1));
                assert(start.cells[spots[0].0][spots[0].1].max_z != 0);
            }
            if start.has_source() {
                let (a, b) = choose|a: int, b: int|
                    start.in_grid(a, b) && (#[trigger] start.cells[a][b]).max_z != 0;
                assert(exists|t: int| 0 <= t < spots.len() && #[trigger] spots[t] == (a, b));
            }
            assert(start.has_source() == (spots.len() > 0));
        }
        if sources.len() == 0 {
            return ;
        }
        proof {
            assert forall|m: int| 0 <= m < sources@.len() implies in_covered_range(
                #[trigger] sources@[m],
            ) by {
                assert(start.in_grid(spots[m].0, spots[m].1));
                start.lemma_node_in_range(spots[m].0, spots[m].1);
            }
        }
        let ghost goal = start.gap_filled();
        i = 0;
        while i < rows
            invariant
                i <= rows,
                rows == start.rows(),
                cols == start.cols(),
                start.wf(),
                start.has_source(),
                goal == start.gap_filled(),
                self@ == (SurfaceModel { cells: self@.cells, ..start }),
                self@.cells.len() == rows,
                forall|a: int| 0 <= a < rows ==> (#[trigger] self@.cells[a]).len() == cols,
                forall|a: int, b: int|
                    0 <= a < i && 0 <= b < cols ==> #[trigger] self@.cells[a][b] == goal.cells[a][b],
                forall|a: int, b: int|
                    i <= a < rows && 0 <= b < cols ==> #[trigger] self@.cells[a][b]
                        == start.cells[a][b],
                sources@.len() == spots.len(),
                sources@.len() > 0,
                forall|m: int| 0 <= m < sources@.len() ==> in_covered_range(#[trigger] sources@[m]),
                forall|t: int|
                    0 <= t < spots.len() ==> {
                        &&& start.in_grid((#[trigger] spots[t]).0, spots[t].1)
                        &&& sources@[t] == start.cells[spots[t].0][spots[t].1]
                        &&& sources@[t].max_z != 0
                    },
                forall|t1: int, t2: int|
                    0 <= t1 < t2 < spots.len() ==> row_major_before(
                        (#[trigger] spots[t1]).0,
                        spots[t1].1,
                        (#[trigger] spots[t2]).0,
                        spots[t2].1,
                    ),
                forall|k: int, l: int|
                    start.in_grid(k, l) && (#[trigger] start.cells[k][l]).max_z != 0 ==> exists|
                        t: int,
                    | 0 <= t < spots.len() && #[trigger] spots[t] == (k, l),
            decreases rows - i,
        {
            let mut j: usize = 0;
            while j < cols
                invariant
                    i < rows,
                    j <= cols,
                    rows == start.rows(),
                    cols == start.cols(),
                    start.wf(),
                    start.has_source(),
                    goal == start.gap_filled(),
                    self@ == (SurfaceModel { cells: self@.cells, ..start }),
                    self@.cells.len() == rows,
                    forall|a: int| 0 <= a < rows ==> (#[trigger] self@.cells[a]).len() == cols,
                    forall|a: int, b: int|
                        0 <= a < i && 0 <= b < cols ==> #[trigger] self@.cells[a][b]
                            == goal.cells[a][b],
                    forall|a: int, b: int|
                        i < a < rows && 0 <= b < cols ==> #[trigger] self@.cells[a][b]
                            == start.cells[a][b],
                    forall|b: int|
                        0 <= b < j ==> #[trigger] self@.cells[i as int][b] == goal.cells[i as int][b],
                    forall|b: int|
                        j <= b < cols ==> #[trigger] self@.cells[i as int][b] == start.cells[i as int][b],
                    sources@.len() == spots.len(),
                    sources@.len() > 0,
                    forall|m: int|
                        0 <= m < sources@.len() ==> in_covered_range(#[trigger] sources@[m]),
                    forall|t: int|
                        0 <= t < spots.len() ==> {
                            &&& start.in_grid((#[trigger] spots[t]).0, spots[t].1)
                            &&& sources@[t] == start.cells[spots[t].0][spots[t].1]
                            &&& sources@[t].max_z != 0
                        },
                    forall|t1: int, t2: int|
                        0 <= t1 < t2 < spots.len() ==> row_major_before(
                            (#[trigger] spots[t1]).0,
                            spots[t1].1,
                            (#[trigger] spots[t2]).0,
                            spots[t2].1,
                        ),
                    forall|k: int, l: int|
                        start.in_grid(k, l) && (#[trigger] start.cells[k][l]).max_z != 0
                            ==> exists|t: int| 0 <= t < spots.len() && #[trigger] spots[t] == (k, l),
                decreases cols - j,
            {
                assert(start.cells[i as int].len() == cols);
                let mut cell = self.particles.get(i, j);
                assert(cell == start.cells[i as int][j as int]);
                if cell.max_z == 0 {
                    proof {
                        start.lemma_node_in_range(i as int, j as int);
                    }
                    let best = nearest_among(&cell, &sources);
                    proof {
                        let found = spots[best as int];
                        assert(start.in_grid(found.0, found.1));
                        assert forall|k2: int, l2: int|
                            start.in_grid(k2, l2) && (#[trigger] start.cells[k2][l2]).max_z
                                != 0 implies {
                            &&& start.node_gap(i as int, j as int, found.0, found.1)
                                <= start.node_gap(i as int, j as int, k2, l2)
                            &&& row_major_before(k2, l2, found.0, found.1) ==> start.node_gap(
                                i as int,
                                j as int,
                                found.0,
                                found.1,
                            ) < start.node_gap(i as int, j as int, k2, l2)
                        } by {
                            let t = choose|t: int|
                                0 <= t < spots.len() && #[trigger] spots[t] == (k2, l2);
                            assert(sources@[t] == start.cells[k2][l2]);
                            assert(particle_gap(cell, sources@[best as int]) <= particle_gap(
                                cell,
                                sources@[t],
                            ));
                            if row_major_before(k2, l2, found.0, found.1) {
                                if t > best {
                                    assert(row_major_before(
                                        spots[best as int].0,
                                        spots[best as int].1,
                                        spots[t].0,
                                        spots[t].1,
                                    ));
                                }
                                assert(t < best);
                            }
                        }
                        assert(start.is_source_for(i as int, j as int, found.0, found.1));
                        start.lemma_source_exists(i as int, j as int);
                        start.lemma_source_unique(
                            i as int,
                            j as int,
                            found,
                            start.source_of(i as int, j as int),
                        );
                    }
                    cell.max_z = sources[best].max_z;
                    self.particles.set(i, j, cell);
                }
                j += 1;
            }
            i += 1;
        }
        proof {
            assert(self@.cells =~~= goal.cells);
        }
    }
}

/// A buildable box gives a grid of at least one row and one column whose
/// last cell starts inside the box.
pub proof fn lemma_grid_dims(lower_left: (i64, i64), upper_right: (i64, i64), resolution: i64)
    requires
        1 <= resolution <= COORD_LIMIT,
        -COORD_LIMIT <= lower_left.0 < upper_right.0 <= COORD_LIMIT,
        -COORD_LIMIT <= lower_left.1 < upper_right.1 <= COORD_LIMIT,
    ensures
        ({
            let rows = grid_rows_for(lower_left, upper_right, resolution);
            let cols = grid_cols_for(lower_left, upper_right, resolution);
            &&& 1 <= rows <= 2 * COORD_LIMIT
            &&& 1 <= cols <= 2 * COORD_LIMIT
            &&& (rows - 1) * resolution < upper_right.1 - lower_left.1 <= rows * resolution
            &&& (cols - 1) * resolution < upper_right.0 - lower_left.0 <= cols * resolution
        }),
{
    let rows = grid_rows_for(lower_left, upper_right, resolution);
    let cols = grid_cols_for(lower_left, upper_right, resolution);
    let h: int = upper_right.1 - lower_left.1;
    let w: int = upper_right.0 - lower_left.0;
    let r: int = resolution as int;
    lemma_ceil_div_bounds(h, r);
    lemma_ceil_div_bounds(w, r);
    assert(rows >= 1) by (nonlinear_arith)
        requires
            h <= rows * r,
            h >= 1,
            r >= 1,
    ;
    assert(cols >= 1) by (nonlinear_arith)
        requires
            w <= cols * r,
            w >= 1,
            r >= 1,
    ;
    assert(rows - 1 < h) by (nonlinear_arith)
        requires
            (rows - 1) * r < h,
            r >= 1,
            rows >= 1,
    ;
    assert(cols - 1 < w) by (nonlinear_arith)
        requires
            (cols - 1) * r < w,
            r >= 1,
            cols >= 1,
    ;
}

/// The offset of lattice index `k` grows with `k` and stays below the offset
/// of the index `count`.
pub proof fn lemma_lattice_in_range(resolution: int, k: int, count: int)
    requires
        resolution >= 1,
        0 <= k < count,
    ensures
        0 <= resolution * k <= resolution * (count - 1),
        resolution * (count - 1) == (count - 1) * resolution,
        resolution * count == resolution * (count - 1) + resolution,
{
    assert(0 <= resolution * k <= resolution * (count - 1)) by (nonlinear_arith)
        requires
            resolution >= 1,
            0 <= k <= count - 1,
    ;
    assert(resolution * (count - 1) == (count - 1) * resolution) by (nonlinear_arith);
    assert(resolution * count == resolution * (count - 1) + resolution) by (nonlinear_arith);
}

} // verus!
