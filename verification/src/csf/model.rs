use crate::csf::grid::MAX_GRID_CELLS;
use crate::csf::particle::Particle;
use crate::point::Point;
use crate::units::{ceil_div, floor_div, COORD_LIMIT, UNIT};
use vstd::prelude::*;

verus! {

/// Rise of a moveable node in one sweep, in millimetres.
pub const DISPLACEMENT: i64 = 50;

/// Number of sweeps that a simulation may make unless told otherwise: as
/// many as the machine can count, so that a simulation ends when the cloth
/// has come to rest.
pub const DEFAULT_MAX_ITERATIONS: usize = usize::MAX;

/// The mathematical content of a cloth surface: the grid of nodes, row by
/// row, and the parameters of the simulation.
pub struct SurfaceModel {
    pub cells: Seq<Seq<Particle>>,
    pub simulation_threshold: i64,
    pub classification_threshold: i64,
    pub rigidness: i64,
    pub displacement: i64,
    pub max_iterations: usize,
    /// Position of the node in row 0, column 0, and of the node in the last
    /// row and last column, each as `(x, y)`.
    pub bounds: ((i64, i64), (i64, i64)),
    pub cell_resolution: i64,
}

/// Squared planar distance between two positions.
pub open spec fn planar_gap(ax: int, ay: int, bx: int, by: int) -> int {
    (ax - bx) * (ax - bx) + (ay - by) * (ay - by)
}

/// Whether cell `(k2, l2)` comes before cell `(k, l)` in row-major order.
pub open spec fn row_major_before(k2: int, l2: int, k: int, l: int) -> bool {
    k2 < k || (k2 == k && l2 < l)
}

pub open spec fn abs_int(a: int) -> int {
    if a >= 0 {
        a
    } else {
        -a
    }
}

/// Number of rows of the grid that covers `lower_left` to `upper_right`.
pub open spec fn grid_rows_for(lower_left: (i64, i64), upper_right: (i64, i64), resolution: i64) -> int {
    ceil_div(upper_right.1 - lower_left.1, resolution as int)
}

/// Number of columns of the grid that covers `lower_left` to `upper_right`.
pub open spec fn grid_cols_for(lower_left: (i64, i64), upper_right: (i64, i64), resolution: i64) -> int {
    ceil_div(upper_right.0 - lower_left.0, resolution as int)
}

/// Whether a surface can be laid out over the box from `lower_left` to
/// `upper_right`: the box has an interior, it lies within the coordinate
/// limit, the resolution is positive, the grid is not larger than a grid may
/// be, and the rigidness is a ratio.
pub open spec fn buildable(
    lower_left: (i64, i64),
    upper_right: (i64, i64),
    resolution: i64,
    rigidness: i64,
) -> bool {
    &&& 1 <= resolution <= COORD_LIMIT
    &&& 0 <= rigidness <= UNIT
    &&& -COORD_LIMIT <= lower_left.0 < upper_right.0 <= COORD_LIMIT
    &&& -COORD_LIMIT <= lower_left.1 < upper_right.1 <= COORD_LIMIT
    &&& grid_rows_for(lower_left, upper_right, resolution) * grid_cols_for(
        lower_left,
        upper_right,
        resolution,
    ) <= MAX_GRID_CELLS
}

impl SurfaceModel {
    pub open spec fn rows(self) -> int {
        self.cells.len() as int
    }

    pub open spec fn cols(self) -> int {
        if self.cells.len() == 0 {
            0
        } else {
            self.cells[0].len() as int
        }
    }

    pub open spec fn in_grid(self, row: int, col: int) -> bool {
        0 <= row < self.rows() && 0 <= col < self.cols()
    }

    pub open spec fn lower_left(self) -> (i64, i64) {
        self.bounds.0
    }

    /// Whether the grid is a rectangle with at least one cell.
    pub open spec fn rectangular(self) -> bool {
        &&& self.rows() >= 1
        &&& self.cols() >= 1
        &&& forall|i: int| 0 <= i < self.rows() ==> (#[trigger] self.cells[i]).len() == self.cols()
    }

    /// Well-formedness: the grid is a rectangle, its nodes stand on the
    /// lattice that starts at the lower left corner, the recorded upper right
    /// corner is the position of the last node, the covered area lies within
    /// the coordinate limit, and the parameters are in range.
    pub open spec fn wf(self) -> bool {
        &&& self.rectangular()
        &&& self.rows() * self.cols() <= MAX_GRID_CELLS
        &&& 1 <= self.cell_resolution <= COORD_LIMIT
        &&& 0 <= self.rigidness <= UNIT
        &&& 0 <= self.displacement
        &&& -COORD_LIMIT <= self.bounds.0.0
        &&& -COORD_LIMIT <= self.bounds.0.1
        &&& self.bounds.0.0 + self.cell_resolution * self.cols() <= 2 * COORD_LIMIT
        &&& self.bounds.0.1 + self.cell_resolution * self.rows() <= 2 * COORD_LIMIT
        &&& self.bounds.1.0 == self.bounds.0.0 + self.cell_resolution * (self.cols() - 1)
        &&& self.bounds.1.1 == self.bounds.0.1 + self.cell_resolution * (self.rows() - 1)
        &&& forall|i: int, j: int|
            0 <= i < self.rows() && 0 <= j < self.cols() ==> {
                &&& (#[trigger] self.cells[i][j]).x == self.bounds.0.0 + self.cell_resolution * j
                &&& self.cells[i][j].y == self.bounds.0.1 + self.cell_resolution * i
            }
    }

    /// The surface as `initialize` lays it out: a flat cloth at height
    /// `top_z`, one node per `resolution` in each direction, enough rows and
    /// columns to cover the requested box, every ceiling still unset.
    pub open spec fn fresh(
        lower_left: (i64, i64),
        upper_right: (i64, i64),
        resolution: i64,
        simulation_threshold: i64,
        classification_threshold: i64,
        rigidness: i64,
        top_z: i64,
    ) -> SurfaceModel {
        let rows = grid_rows_for(lower_left, upper_right, resolution);
        let cols = grid_cols_for(lower_left, upper_right, resolution);
        SurfaceModel {
            cells: Seq::new(
                rows as nat,
                |i: int|
                    Seq::new(
                        cols as nat,
                        |j: int|
                            Particle {
                                x: (lower_left.0 + resolution * j) as i64,
                                y: (lower_left.1 + resolution * i) as i64,
                                z: top_z,
                                prev_z: top_z,
                                ..Particle::blank()
                            },
                    ),
            ),
            simulation_threshold,
            classification_threshold,
            rigidness,
            displacement: DISPLACEMENT,
            max_iterations: DEFAULT_MAX_ITERATIONS,
            bounds: (
                lower_left,
                (
                    (lower_left.0 + resolution * (cols - 1)) as i64,
                    (lower_left.1 + resolution * (rows - 1)) as i64,
                ),
            ),
            cell_resolution: resolution,
        }
    }

    /// The same surface with one cell replaced.
    pub open spec fn with_cell(self, row: int, col: int, cell: Particle) -> SurfaceModel {
        SurfaceModel { cells: self.cells.update(row, self.cells[row].update(col, cell)), ..self }
    }

    /// Column of the cell that a point at `x` falls into, counted from the
    /// lower left corner; outside `0..cols` for a point beside the grid.
    pub open spec fn col_of(self, x: int) -> int {
        floor_div(x - self.bounds.0.0, self.cell_resolution as int)
    }

    /// Row of the cell that a point at `y` falls into, counted downward from
    /// the recorded upper edge; outside `0..rows` for a point above or below
    /// the grid.
    pub open spec fn row_of(self, y: int) -> int {
        ceil_div(self.bounds.1.1 - y, self.cell_resolution as int)
    }

    /// The cell that a point falls into, as `(row, column)`, if the grid has
    /// one for it.
    pub open spec fn cell_of(self, point: Point) -> Option<(int, int)> {
        let row = self.row_of(point.y as int);
        let col = self.col_of(point.x as int);
        if self.in_grid(row, col) {
            Some((row, col))
        } else {
            None
        }
    }

    /// Squared planar distance from the node at `(row, col)` to the point.
    pub open spec fn gap_to(self, row: int, col: int, point: Point) -> int {
        planar_gap(
            self.cells[row][col].x as int,
            self.cells[row][col].y as int,
            point.x as int,
            point.y as int,
        )
    }

    /// The surface after one source point has been shown to it: if the point
    /// falls into a cell and is nearer to that cell's node than every point
    /// shown before, the cell's ceiling becomes the point's elevation.
    pub open spec fn draped(self, point: Point) -> SurfaceModel {
        match self.cell_of(point) {
            Some((row, col)) => {
                if self.gap_to(row, col, point) < self.cells[row][col].closest_pt_distance {
                    self.with_cell(
                        row,
                        col,
                        Particle {
                            closest_pt_distance: self.gap_to(row, col, point) as u128,
                            max_z: point.z,
                            ..self.cells[row][col]
                        },
                    )
                } else {
                    self
                }
            },
            None => self,
        }
    }

    /// The surface after a sequence of source points has been shown to it,
    /// first point first.
    pub open spec fn draped_all(self, points: Seq<Point>) -> SurfaceModel
        decreases points.len(),
    {
        if points.len() == 0 {
            self
        } else {
            self.draped_all(points.drop_last()).draped(points.last())
        }
    }

    /// Whether the point counts as ground: it falls into a cell and its
    /// elevation is within the classification threshold of the cloth there.
    pub open spec fn is_ground(self, point: Point) -> bool {
        match self.cell_of(point) {
            Some((row, col)) => abs_int(point.z - self.cells[row][col].z)
                < self.classification_threshold,
            None => false,
        }
    }

    /// Whether `later` can be this surface at a later time: same shape and
    /// parameters, and every node evolved from the node in the same cell.
    pub open spec fn evolves_to(self, later: SurfaceModel) -> bool {
        &&& later.rows() == self.rows()
        &&& later.cols() == self.cols()
        &&& later.rectangular() == self.rectangular()
        &&& later.simulation_threshold == self.simulation_threshold
        &&& later.classification_threshold == self.classification_threshold
        &&& later.rigidness == self.rigidness
        &&& later.displacement == self.displacement
        &&& later.max_iterations == self.max_iterations
        &&& later.bounds == self.bounds
        &&& later.cell_resolution == self.cell_resolution
        &&& forall|i: int, j: int|
            0 <= i < self.rows() && 0 <= j < self.cols() ==> (#[trigger] self.cells[i][j]).evolves_to(
                later.cells[i][j],
            )
    }

    /// A freshly laid out surface over a buildable box is well-formed.
    pub proof fn lemma_fresh_wf(
        lower_left: (i64, i64),
        upper_right: (i64, i64),
        resolution: i64,
        simulation_threshold: i64,
        classification_threshold: i64,
        rigidness: i64,
        top_z: i64,
    )
        requires
            buildable(lower_left, upper_right, resolution, rigidness),
        ensures
            SurfaceModel::fresh(
                lower_left,
                upper_right,
                resolution,
                simulation_threshold,
                classification_threshold,
                rigidness,
                top_z,
            ).wf(),
            SurfaceModel::fresh(
                lower_left,
                upper_right,
                resolution,
                simulation_threshold,
                classification_threshold,
                rigidness,
                top_z,
            ).rows() == grid_rows_for(lower_left, upper_right, resolution),
            SurfaceModel::fresh(
                lower_left,
                upper_right,
                resolution,
                simulation_threshold,
                classification_threshold,
                rigidness,
                top_z,
            ).cols() == grid_cols_for(lower_left, upper_right, resolution),
    {
        let s = SurfaceModel::fresh(
            lower_left,
            upper_right,
            resolution,
            simulation_threshold,
            classification_threshold,
            rigidness,
            top_z,
        );
        let rows = grid_rows_for(lower_left, upper_right, resolution);
        let cols = grid_cols_for(lower_left, upper_right, resolution);
        let r = resolution as int;
        crate::units::lemma_ceil_div_bounds(upper_right.1 - lower_left.1, r);
        crate::units::lemma_ceil_div_bounds(upper_right.0 - lower_left.0, r);
        assert(rows >= 1) by (nonlinear_arith)
            requires
                upper_right.1 - lower_left.1 <= rows * r,
                upper_right.1 - lower_left.1 >= 1,
                r >= 1,
        ;
        assert(cols >= 1) by (nonlinear_arith)
            requires
                upper_right.0 - lower_left.0 <= cols * r,
                upper_right.0 - lower_left.0 >= 1,
                r >= 1,
        ;
        assert(s.rows() == rows);
        assert(s.cells[0].len() == cols);
        assert(s.cols() == cols);
        assert(r * (cols - 1) == (cols - 1) * r) by (nonlinear_arith);
        assert(r * (rows - 1) == (rows - 1) * r) by (nonlinear_arith);
        assert(r * cols == (cols - 1) * r + r) by (nonlinear_arith);
        assert(r * rows == (rows - 1) * r + r) by (nonlinear_arith);
        assert forall|i: int, j: int| 0 <= i < s.rows() && 0 <= j < s.cols() implies {
            &&& (#[trigger] s.cells[i][j]).x == s.bounds.0.0 + s.cell_resolution * j
            &&& s.cells[i][j].y == s.bounds.0.1 + s.cell_resolution * i
        } by {
            assert(0 <= r * j <= r * (cols - 1)) by (nonlinear_arith)
                requires
                    r >= 1,
                    0 <= j <= cols - 1,
            ;
            assert(0 <= r * i <= r * (rows - 1)) by (nonlinear_arith)
                requires
                    r >= 1,
                    0 <= i <= rows - 1,
            ;
        }
    }

    /// Within a well-formed surface, a point that falls into a cell is less
    /// than three coordinate limits away from every node, in each direction.
    pub proof fn lemma_gap_to_bounded(self, row: int, col: int, point: Point)
        requires
            self.wf(),
            self.cell_of(point) is Some,
            self.in_grid(row, col),
        ensures
            -3 * COORD_LIMIT <= self.cells[row][col].x - point.x <= 3 * COORD_LIMIT,
            -3 * COORD_LIMIT <= self.cells[row][col].y - point.y <= 3 * COORD_LIMIT,
            0 <= self.gap_to(row, col, point) <= 18 * COORD_LIMIT * COORD_LIMIT,
    {
        self.lemma_cell_of_bounds(point);
        self.lemma_node_in_range(row, col);
        let (prow, pcol) = self.cell_of(point)->Some_0;
        let r = self.cell_resolution as int;
        assert(0 <= pcol * r && (pcol + 1) * r <= r * self.cols()) by (nonlinear_arith)
            requires
                0 <= pcol < self.cols(),
                r >= 1,
        ;
        assert(prow * r <= r * (self.rows() - 1) && (prow - 1) * r >= -r) by (nonlinear_arith)
            requires
                0 <= prow < self.rows(),
                r >= 1,
        ;
        assert(r * self.rows() == r * (self.rows() - 1) + r) by (nonlinear_arith);
        let dx: int = self.cells[row][col].x - point.x;
        let dy: int = self.cells[row][col].y - point.y;
        assert(0 <= dx * dx <= 9 * COORD_LIMIT * COORD_LIMIT) by (nonlinear_arith)
            requires
                -3 * COORD_LIMIT <= dx <= 3 * COORD_LIMIT,
        ;
        assert(0 <= dy * dy <= 9 * COORD_LIMIT * COORD_LIMIT) by (nonlinear_arith)
            requires
                -3 * COORD_LIMIT <= dy <= 3 * COORD_LIMIT,
        ;
    }

    /// Every node of a well-formed surface stands within the covered area.
    pub proof fn lemma_node_in_range(self, row: int, col: int)
        requires
            self.wf(),
            self.in_grid(row, col),
        ensures
            -COORD_LIMIT <= self.cells[row][col].x <= 2 * COORD_LIMIT,
            -COORD_LIMIT <= self.cells[row][col].y <= 2 * COORD_LIMIT,
            self.bounds.0.0 <= self.cells[row][col].x <= self.bounds.1.0,
            self.bounds.0.1 <= self.cells[row][col].y <= self.bounds.1.1,
    {
        let r = self.cell_resolution as int;
        assert(0 <= r * col <= r * (self.cols() - 1) && r * (self.cols() - 1) <= r * self.cols())
            by (nonlinear_arith)
            requires
                r >= 1,
                0 <= col <= self.cols() - 1,
        ;
        assert(0 <= r * row <= r * (self.rows() - 1) && r * (self.rows() - 1) <= r * self.rows())
            by (nonlinear_arith)
            requires
                r >= 1,
                0 <= row <= self.rows() - 1,
        ;
    }

    /// Replacing a cell by a node at the same position keeps a surface
    /// well-formed.
    pub proof fn lemma_with_cell_wf(self, row: int, col: int, cell: Particle)
        requires
            self.wf(),
            self.in_grid(row, col),
            cell.x == self.cells[row][col].x,
            cell.y == self.cells[row][col].y,
        ensures
            self.with_cell(row, col, cell).wf(),
            self.with_cell(row, col, cell).rows() == self.rows(),
            self.with_cell(row, col, cell).cols() == self.cols(),
            self.with_cell(row, col, cell).cells[row][col] == cell,
            forall|i: int, j: int|
                self.in_grid(i, j) && !(i == row && j == col) ==> #[trigger] self.with_cell(
                    row,
                    col,
                    cell,
                ).cells[i][j] == self.cells[i][j],
    {
        let t = self.with_cell(row, col, cell);
        assert(t.cells.len() == self.cells.len());
        assert(t.cells[0].len() == self.cells[0].len());
        assert forall|i: int| 0 <= i < t.rows() implies (#[trigger] t.cells[i]).len()
            == t.cols() by {
            assert(self.cells[i].len() == self.cols());
        }
        assert forall|i: int, j: int| 0 <= i < t.rows() && 0 <= j < t.cols() implies {
            &&& (#[trigger] t.cells[i][j]).x == t.bounds.0.0 + t.cell_resolution * j
            &&& t.cells[i][j].y == t.bounds.0.1 + t.cell_resolution * i
        } by {
            assert(self.cells[i][j].x == self.bounds.0.0 + self.cell_resolution * j);
        }
    }

    /// Showing a point to a well-formed surface leaves it well-formed, and
    /// changes no node's position, height or freedom to move.
    pub proof fn lemma_draped_wf(self, point: Point)
        requires
            self.wf(),
        ensures
            self.draped(point).wf(),
            self.draped(point).rows() == self.rows(),
            self.draped(point).cols() == self.cols(),
    {
        match self.cell_of(point) {
            Some((row, col)) => {
                self.lemma_gap_to_bounded(row, col, point);
                let cell = Particle {
                    closest_pt_distance: self.gap_to(row, col, point) as u128,
                    max_z: point.z,
                    ..self.cells[row][col]
                };
                self.lemma_with_cell_wf(row, col, cell);
            },
            None => {},
        }
    }

    /// The cells next to `(row, col)`: the one in the row before, the one in
    /// the row after, the one in the column before and the one in the column
    /// after, as far as the grid has them, in this order.
    pub open spec fn neighbour_cells(self, row: int, col: int) -> Seq<(int, int)> {
        let before: Seq<(int, int)> = if row > 0 {
            seq![(row - 1, col)]
        } else {
            Seq::empty()
        };
        let after: Seq<(int, int)> = if row < self.rows() - 1 {
            seq![(row + 1, col)]
        } else {
            Seq::empty()
        };
        let left: Seq<(int, int)> = if col > 0 {
            seq![(row, col - 1)]
        } else {
            Seq::empty()
        };
        let right: Seq<(int, int)> = if col < self.cols() - 1 {
            seq![(row, col + 1)]
        } else {
            Seq::empty()
        };
        before + after + left + right
    }

    /// The nodes in the given cells.
    pub open spec fn cells_at(self, places: Seq<(int, int)>) -> Seq<Particle> {
        Seq::new(places.len(), |k: int| self.cells[places[k].0][places[k].1])
    }

    /// The surface after `values[k]` has been written to the cell
    /// `places[k]`, for each `k` in turn.
    pub open spec fn with_cells(self, places: Seq<(int, int)>, values: Seq<Particle>) -> SurfaceModel
        decreases places.len(),
    {
        if places.len() == 0 {
            self
        } else {
            self.with_cells(places.drop_last(), values.drop_last()).with_cell(
                places.last().0,
                places.last().1,
                values.last(),
            )
        }
    }

    /// The surface after the forces have been applied to the node at
    /// `(row, col)`: the internal force between it and each neighbour, which
    /// moves both, then the external force and the ceiling on the node itself.
    pub open spec fn force_at(self, row: int, col: int) -> SurfaceModel {
        let places = self.neighbour_cells(row, col);
        let (node, others) = self.cells[row][col].forced(
            self.cells_at(places),
            self.rigidness as int,
            self.displacement as int,
        );
        self.with_cells(places, others).with_cell(row, col, node)
    }

    /// The surface after the forces have been applied to the first `upto`
    /// nodes of one row, from the first column on.
    pub open spec fn row_swept(self, row: int, upto: int) -> SurfaceModel
        decreases upto,
    {
        if upto <= 0 {
            self
        } else {
            self.row_swept(row, upto - 1).force_at(row, upto - 1)
        }
    }

    /// The surface after the forces have been applied to every node of the
    /// first `upto` rows, row after row.
    pub open spec fn rows_swept(self, upto: int) -> SurfaceModel
        decreases upto,
    {
        if upto <= 0 {
            self
        } else {
            self.rows_swept(upto - 1).row_swept(upto - 1, self.cols())
        }
    }

    /// The surface after one sweep: the forces applied to every node once, in
    /// row-major order, each node seeing the heights its predecessors left.
    pub open spec fn swept(self) -> SurfaceModel {
        self.rows_swept(self.rows())
    }

    /// How far the node at `(row, col)` is from its height at the end of the
    /// previous sweep.
    pub open spec fn cell_move(self, row: int, col: int) -> int {
        abs_int(self.cells[row][col].z - self.cells[row][col].prev_z)
    }

    /// Largest `cell_move` among the first `upto` nodes of a row; 0 for none.
    pub open spec fn row_move(self, row: int, upto: int) -> int
        decreases upto,
    {
        if upto <= 0 {
            0
        } else {
            let rest = self.row_move(row, upto - 1);
            if self.cell_move(row, upto - 1) > rest {
                self.cell_move(row, upto - 1)
            } else {
                rest
            }
        }
    }

    /// Largest `cell_move` among the nodes of the first `upto` rows; 0 for
    /// none.
    pub open spec fn rows_move(self, upto: int) -> int
        decreases upto,
    {
        if upto <= 0 {
            0
        } else {
            let rest = self.rows_move(upto - 1);
            if self.row_move(upto - 1, self.cols()) > rest {
                self.row_move(upto - 1, self.cols())
            } else {
                rest
            }
        }
    }

    /// Largest distance of any node from its height at the end of the
    /// previous sweep.
    pub open spec fn max_move(self) -> int {
        self.rows_move(self.rows())
    }

    /// The surface with every node's current height recorded as its height
    /// at the end of the sweep.
    pub open spec fn recorded(self) -> SurfaceModel {
        SurfaceModel {
            cells: Seq::new(
                self.cells.len(),
                |i: int|
                    Seq::new(
                        self.cells[i].len(),
                        |j: int| Particle { prev_z: self.cells[i][j].z, ..self.cells[i][j] },
                    ),
            ),
            ..self
        }
    }

    /// The surface after a simulation of at most `budget` sweeps: sweeps
    /// follow one another until one moves no node as far as the simulation
    /// threshold, or the budget is used up.
    pub open spec fn simulated(self, budget: nat) -> SurfaceModel
        decreases budget,
    {
        if budget == 0 {
            self
        } else if self.swept().max_move() < self.simulation_threshold {
            self.swept().recorded()
        } else {
            self.swept().recorded().simulated((budget - 1) as nat)
        }
    }

    /// Number of sweeps that a simulation of at most `budget` sweeps makes.
    pub open spec fn sweeps(self, budget: nat) -> nat
        decreases budget,
    {
        if budget == 0 {
            0
        } else if self.swept().max_move() < self.simulation_threshold {
            1
        } else {
            1 + self.swept().recorded().sweeps((budget - 1) as nat)
        }
    }

    /// Whether a simulation of at most `budget` sweeps ends with a sweep
    /// that moves no node as far as the simulation threshold, rather than by
    /// using up its budget.
    pub open spec fn stilled(self, budget: nat) -> bool
        decreases budget,
    {
        if budget == 0 {
            false
        } else if self.swept().max_move() < self.simulation_threshold {
            true
        } else {
            self.swept().recorded().stilled((budget - 1) as nat)
        }
    }

    /// A simulation that makes fewer sweeps than its budget allows has ended
    /// with a sweep that moved no node as far as the simulation threshold.
    pub proof fn lemma_early_stop_is_still(self, budget: nat)
        requires
            self.sweeps(budget) < budget,
        ensures
            self.stilled(budget),
        decreases budget,
    {
        if budget > 0 && !(self.swept().max_move() < self.simulation_threshold) {
            self.swept().recorded().lemma_early_stop_is_still((budget - 1) as nat);
        }
    }

    /// Every cell next to a cell of the grid is a cell of the grid.
    pub proof fn lemma_neighbours_in_grid(self, row: int, col: int)
        requires
            self.in_grid(row, col),
        ensures
            self.neighbour_cells(row, col).len() <= 4,
            forall|k: int|
                0 <= k < self.neighbour_cells(row, col).len() ==> self.in_grid(
                    (#[trigger] self.neighbour_cells(row, col)[k]).0,
                    self.neighbour_cells(row, col)[k].1,
                ),
    {
    }

    /// Evolution is transitive.
    pub proof fn lemma_evolves_trans(self, mid: SurfaceModel, later: SurfaceModel)
        requires
            self.evolves_to(mid),
            mid.evolves_to(later),
        ensures
            self.evolves_to(later),
    {
        assert forall|i: int, j: int| 0 <= i < self.rows() && 0 <= j < self.cols() implies (
        #[trigger] self.cells[i][j]).evolves_to(later.cells[i][j]) by {
            assert(self.cells[i][j].evolves_to(mid.cells[i][j]));
            assert(mid.cells[i][j].evolves_to(later.cells[i][j]));
        }
    }

    /// Evolution keeps a surface well-formed.
    pub proof fn lemma_evolves_wf(self, later: SurfaceModel)
        requires
            self.wf(),
            self.evolves_to(later),
        ensures
            later.wf(),
    {
        assert forall|i: int, j: int| 0 <= i < later.rows() && 0 <= j < later.cols() implies {
            &&& (#[trigger] later.cells[i][j]).x == later.bounds.0.0 + later.cell_resolution * j
            &&& later.cells[i][j].y == later.bounds.0.1 + later.cell_resolution * i
        } by {
            assert(self.cells[i][j].evolves_to(later.cells[i][j]));
        }
    }

    /// Writing to cells of a rectangular grid keeps its shape, and leaves in
    /// every cell either what it held or one of the values written to it.
    pub proof fn lemma_with_cells(self, places: Seq<(int, int)>, values: Seq<Particle>)
        requires
            self.rectangular(),
            places.len() == values.len(),
            forall|k: int| 0 <= k < places.len() ==> self.in_grid((#[trigger] places[k]).0, places[k].1),
        ensures
            self.with_cells(places, values).rectangular(),
            self.with_cells(places, values).rows() == self.rows(),
            self.with_cells(places, values).cols() == self.cols(),
            self.with_cells(places, values) == (SurfaceModel {
                cells: self.with_cells(places, values).cells,
                ..self
            }),
            forall|i: int, j: int|
                self.in_grid(i, j) ==> {
                    ||| #[trigger] self.with_cells(places, values).cells[i][j] == self.cells[i][j]
                    ||| exists|k: int|
                        0 <= k < places.len() && #[trigger] places[k] == (i, j) && self.with_cells(
                            places,
                            values,
                        ).cells[i][j] == values[k]
                },
        decreases places.len(),
    {
        if places.len() > 0 {
            let head = self.with_cells(places.drop_last(), values.drop_last());
            assert forall|k: int| 0 <= k < places.drop_last().len() implies self.in_grid(
                (#[trigger] places.drop_last()[k]).0,
                places.drop_last()[k].1,
            ) by {
                assert(places.drop_last()[k] == places[k]);
            }
            self.lemma_with_cells(places.drop_last(), values.drop_last());
            let last = places.len() - 1;
            let (r, c) = places.last();
            assert(self.in_grid(places[last].0, places[last].1));
            let t = head.with_cell(r, c, values.last());
            assert(t.cells.len() == head.cells.len());
            assert(t.cells[0].len() == head.cells[0].len());
            assert forall|i: int| 0 <= i < t.rows() implies (#[trigger] t.cells[i]).len()
                == t.cols() by {
                assert(head.cells[i].len() == head.cols());
            }
            assert forall|i: int, j: int| self.in_grid(i, j) implies {
                ||| #[trigger] t.cells[i][j] == self.cells[i][j]
                ||| exists|k: int|
                    0 <= k < places.len() && #[trigger] places[k] == (i, j) && t.cells[i][j]
                        == values[k]
            } by {
                assert(head.cells[i].len() == head.cols());
                if i == r && j == c {
                    assert(places[last] == (i, j) && t.cells[i][j] == values[last]);
                } else {
                    assert(t.cells[i][j] == head.cells[i][j]);
                    if head.cells[i][j] != self.cells[i][j] {
                        let k = choose|k: int|
                            0 <= k < places.drop_last().len() && #[trigger] places.drop_last()[k]
                                == (i, j) && head.cells[i][j] == values.drop_last()[k];
                        assert(places[k] == (i, j) && t.cells[i][j] == values[k]);
                    }
                }
            }
        }
    }

    /// Applying the forces at one node lets the surface evolve.
    pub proof fn lemma_force_at_evolves(self, row: int, col: int)
        requires
            self.rectangular(),
            self.in_grid(row, col),
            self.displacement >= 0,
        ensures
            self.evolves_to(self.force_at(row, col)),
            self.force_at(row, col).rectangular(),
    {
        let places = self.neighbour_cells(row, col);
        let given = self.cells_at(places);
        let (node, others) = self.cells[row][col].forced(
            given,
            self.rigidness as int,
            self.displacement as int,
        );
        self.cells[row][col].lemma_forced_evolves(
            given,
            self.rigidness as int,
            self.displacement as int,
        );
        self.lemma_neighbours_in_grid(row, col);
        self.lemma_with_cells(places, others);
        let mid = self.with_cells(places, others);
        let t = mid.with_cell(row, col, node);
        assert(t == self.force_at(row, col));
        assert(t.cells.len() == mid.cells.len());
        assert(mid.cells[row].len() == mid.cols());
        assert(t.cells[0].len() == mid.cells[0].len());
        assert forall|i: int| 0 <= i < t.rows() implies (#[trigger] t.cells[i]).len()
            == t.cols() by {
            assert(mid.cells[i].len() == mid.cols());
        }
        assert forall|i: int, j: int| 0 <= i < self.rows() && 0 <= j < self.cols() implies (
        #[trigger] self.cells[i][j]).evolves_to(t.cells[i][j]) by {
            assert(mid.cells[i].len() == mid.cols());
            if i == row && j == col {
                assert(t.cells[i][j] == node);
            } else {
                assert(t.cells[i][j] == mid.cells[i][j]);
                if mid.cells[i][j] != self.cells[i][j] {
                    let k = choose|k: int|
                        0 <= k < places.len() && #[trigger] places[k] == (i, j) && mid.cells[i][j]
                            == others[k];
                    assert(given[k] == self.cells[i][j]);
                    assert(given[k].evolves_to(others[k]));
                }
            }
        }
    }

    /// Sweeping part of a row lets the surface evolve.
    pub proof fn lemma_row_swept_evolves(self, row: int, upto: int)
        requires
            self.rectangular(),
            0 <= row < self.rows(),
            0 <= upto <= self.cols(),
            self.displacement >= 0,
        ensures
            self.evolves_to(self.row_swept(row, upto)),
            self.row_swept(row, upto).rectangular(),
        decreases upto,
    {
        if upto > 0 {
            self.lemma_row_swept_evolves(row, upto - 1);
            let mid = self.row_swept(row, upto - 1);
            mid.lemma_force_at_evolves(row, upto - 1);
            self.lemma_evolves_trans(mid, mid.force_at(row, upto - 1));
        }
    }

    /// Sweeping the first rows lets the surface evolve.
    pub proof fn lemma_rows_swept_evolves(self, upto: int)
        requires
            self.rectangular(),
            0 <= upto <= self.rows(),
            self.displacement >= 0,
        ensures
            self.evolves_to(self.rows_swept(upto)),
            self.rows_swept(upto).rectangular(),
        decreases upto,
    {
        if upto > 0 {
            self.lemma_rows_swept_evolves(upto - 1);
            let mid = self.rows_swept(upto - 1);
            mid.lemma_row_swept_evolves(upto - 1, self.cols());
            self.lemma_evolves_trans(mid, mid.row_swept(upto - 1, self.cols()));
        }
    }

    /// Recording the heights lets the surface evolve.
    pub proof fn lemma_recorded_evolves(self)
        requires
            self.rectangular(),
        ensures
            self.evolves_to(self.recorded()),
            self.recorded().rectangular(),
    {
        let t = self.recorded();
        assert(t.cells[0].len() == self.cells[0].len());
        assert forall|i: int| 0 <= i < t.rows() implies (#[trigger] t.cells[i]).len()
            == t.cols() by {
            assert(self.cells[i].len() == self.cols());
        }
        assert forall|i: int, j: int| 0 <= i < self.rows() && 0 <= j < self.cols() implies (
        #[trigger] self.cells[i][j]).evolves_to(t.cells[i][j]) by {
            assert(self.cells[i].len() == self.cols());
        }
    }

    /// A simulation lets the surface evolve: no node changes position or
    /// ceiling, no pinned node is freed, and a well-formed surface stays
    /// well-formed.
    pub proof fn lemma_simulated_evolves(self, budget: nat)
        requires
            self.rectangular(),
            self.displacement >= 0,
        ensures
            self.evolves_to(self.simulated(budget)),
            self.simulated(budget).rectangular(),
            self.sweeps(budget) <= budget,
        decreases budget,
    {
        if budget > 0 {
            self.lemma_rows_swept_evolves(self.rows());
            let mid = self.swept();
            mid.lemma_recorded_evolves();
            self.lemma_evolves_trans(mid, mid.recorded());
            if !(mid.max_move() < self.simulation_threshold) {
                mid.recorded().lemma_simulated_evolves((budget - 1) as nat);
                self.lemma_evolves_trans(
                    mid.recorded(),
                    mid.recorded().simulated((budget - 1) as nat),
                );
            }
        }
    }

    /// Whether some cell has a ceiling other than zero.
    pub open spec fn has_source(self) -> bool {
        exists|i: int, j: int| self.in_grid(i, j) && (#[trigger] self.cells[i][j]).max_z != 0
    }

    /// Squared planar distance between the nodes of two cells.
    pub open spec fn node_gap(self, i: int, j: int, k: int, l: int) -> int {
        planar_gap(
            self.cells[i][j].x as int,
            self.cells[i][j].y as int,
            self.cells[k][l].x as int,
            self.cells[k][l].y as int,
        )
    }

    /// Whether `(k, l)` is the cell whose ceiling fills the gap at `(i, j)`:
    /// its ceiling is not zero, no cell with a ceiling other than zero is
    /// nearer to `(i, j)`, and among those equally near it is the first in
    /// row-major order.
    pub open spec fn is_source_for(self, i: int, j: int, k: int, l: int) -> bool {
        &&& self.in_grid(k, l)
        &&& self.cells[k][l].max_z != 0
        &&& forall|k2: int, l2: int|
            self.in_grid(k2, l2) && (#[trigger] self.cells[k2][l2]).max_z != 0 ==> {
                &&& self.node_gap(i, j, k, l) <= self.node_gap(i, j, k2, l2)
                &&& row_major_before(k2, l2, k, l) ==> self.node_gap(i, j, k, l) < self.node_gap(
                    i,
                    j,
                    k2,
                    l2,
                )
            }
    }

    /// The cell whose ceiling fills the gap at `(i, j)`.
    pub open spec fn source_of(self, i: int, j: int) -> (int, int) {
        choose|place: (int, int)| self.is_source_for(i, j, place.0, place.1)
    }

    /// The surface after its gaps have been filled: every cell whose ceiling
    /// is zero takes the ceiling of the nearest cell whose ceiling is not.
    /// Where no cell has a ceiling other than zero, nothing changes.
    pub open spec fn gap_filled(self) -> SurfaceModel {
        SurfaceModel {
            cells: Seq::new(
                self.cells.len(),
                |i: int|
                    Seq::new(
                        self.cells[i].len(),
                        |j: int|
                            if self.cells[i][j].max_z == 0 && self.has_source() {
                                Particle {
                                    max_z: self.cells[self.source_of(i, j).0][self.source_of(
                                        i,
                                        j,
                                    ).1].max_z,
                                    ..self.cells[i][j]
                                }
                            } else {
                                self.cells[i][j]
                            },
                    ),
            ),
            ..self
        }
    }

    /// At most one cell fills the gap at `(i, j)`.
    pub proof fn lemma_source_unique(self, i: int, j: int, a: (int, int), b: (int, int))
        requires
            self.is_source_for(i, j, a.0, a.1),
            self.is_source_for(i, j, b.0, b.1),
        ensures
            a == b,
    {
        assert(self.cells[a.0][a.1].max_z != 0);
        assert(self.cells[b.0][b.1].max_z != 0);
        if a != b {
            if row_major_before(a.0, a.1, b.0, b.1) {
                assert(self.node_gap(i, j, b.0, b.1) < self.node_gap(i, j, a.0, a.1));
                assert(self.node_gap(i, j, a.0, a.1) <= self.node_gap(i, j, b.0, b.1));
            } else {
                assert(row_major_before(b.0, b.1, a.0, a.1));
                assert(self.node_gap(i, j, a.0, a.1) < self.node_gap(i, j, b.0, b.1));
                assert(self.node_gap(i, j, b.0, b.1) <= self.node_gap(i, j, a.0, a.1));
            }
        }
    }

    /// Filling the gaps of a well-formed surface leaves it well-formed.
    /// Where some ceiling was not zero before, none is zero afterwards.
    pub proof fn lemma_gap_filled(self)
        requires
            self.wf(),
        ensures
            self.gap_filled().wf(),
            self.gap_filled().rows() == self.rows(),
            self.gap_filled().cols() == self.cols(),
            !self.has_source() ==> self.gap_filled() == self,
            self.has_source() ==> forall|i: int, j: int|
                self.in_grid(i, j) ==> (#[trigger] self.gap_filled().cells[i][j]).max_z != 0,
            forall|i: int, j: int|
                self.in_grid(i, j) && self.cells[i][j].max_z != 0
                    ==> #[trigger] self.gap_filled().cells[i][j] == self.cells[i][j],
    {
        let t = self.gap_filled();
        assert(t.cells.len() == self.cells.len());
        assert(t.cells[0].len() == self.cells[0].len());
        assert forall|i: int| 0 <= i < t.rows() implies (#[trigger] t.cells[i]).len()
            == t.cols() by {
            assert(self.cells[i].len() == self.cols());
        }
        assert forall|i: int, j: int| 0 <= i < t.rows() && 0 <= j < t.cols() implies {
            &&& (#[trigger] t.cells[i][j]).x == t.bounds.0.0 + t.cell_resolution * j
            &&& t.cells[i][j].y == t.bounds.0.1 + t.cell_resolution * i
        } by {
            assert(self.cells[i].len() == self.cols());
            assert(self.cells[i][j].x == self.bounds.0.0 + self.cell_resolution * j);
        }
        if !self.has_source() {
            assert forall|i: int, j: int|
                0 <= i < self.rows() && 0 <= j < self.cells[i].len() implies t.cells[i][j]
                == self.cells[i][j] by {}
            assert(t.cells =~~= self.cells);
        } else {
            assert forall|i: int, j: int| self.in_grid(i, j) implies (#[trigger] t.cells[i][j]).max_z
                != 0 by {
                assert(self.cells[i].len() == self.cols());
                if self.cells[i][j].max_z == 0 {
                    self.lemma_source_exists(i, j);
                }
            }
        }
        assert forall|i: int, j: int|
            self.in_grid(i, j) && self.cells[i][j].max_z != 0 implies #[trigger] t.cells[i][j]
            == self.cells[i][j] by {
            assert(self.cells[i].len() == self.cols());
        }
    }

    /// Where some ceiling is not zero, every gap has a cell that fills it.
    pub proof fn lemma_source_exists(self, i: int, j: int)
        requires
            self.rectangular(),
            self.has_source(),
        ensures
            self.is_source_for(i, j, self.source_of(i, j).0, self.source_of(i, j).1),
    {
        let place = self.first_nearest(i, j, self.rows() * self.cols());
        self.lemma_first_nearest(i, j, self.rows() * self.cols());
        let (a, b) = choose|a: int, b: int|
            self.in_grid(a, b) && (#[trigger] self.cells[a][b]).max_z != 0;
        self.lemma_flat_index(a, b);
        assert(place is Some);
        let found = place->Some_0;
        assert forall|k2: int, l2: int|
            self.in_grid(k2, l2) && (#[trigger] self.cells[k2][l2]).max_z != 0 implies {
            &&& self.node_gap(i, j, found.0, found.1) <= self.node_gap(i, j, k2, l2)
            &&& row_major_before(k2, l2, found.0, found.1) ==> self.node_gap(
                i,
                j,
                found.0,
                found.1,
            ) < self.node_gap(i, j, k2, l2)
        } by {
            self.lemma_flat_index(k2, l2);
            self.lemma_flat_index(found.0, found.1);
            if row_major_before(k2, l2, found.0, found.1) {
                assert(k2 * self.cols() + l2 < found.0 * self.cols() + found.1) by (nonlinear_arith)
                    requires
                        row_major_before(k2, l2, found.0, found.1),
                        0 <= l2 < self.cols(),
                        0 <= found.1 < self.cols(),
                ;
            }
        }
        assert(self.is_source_for(i, j, found.0, found.1));
    }

    /// A cell's place in row-major order, and the way back.
    pub proof fn lemma_flat_index(self, k: int, l: int)
        requires
            self.in_grid(k, l),
        ensures
            0 <= k * self.cols() + l < self.rows() * self.cols(),
            (k * self.cols() + l) / self.cols() == k,
            (k * self.cols() + l) % self.cols() == l,
    {
        let c = self.cols();
        assert(0 <= k * c + l < self.rows() * c) by (nonlinear_arith)
            requires
                0 <= k < self.rows(),
                0 <= l < c,
        ;
        vstd::arithmetic::div_mod::lemma_fundamental_div_mod_converse(k * c + l, c, k, l);
    }

    /// Among the first `count` cells in row-major order, the first of those
    /// nearest to `(i, j)` whose ceiling is not zero, if there is one.
    pub open spec fn first_nearest(self, i: int, j: int, count: int) -> Option<(int, int)>
        decreases count,
    {
        if count <= 0 {
            None
        } else {
            let k = (count - 1) / self.cols();
            let l = (count - 1) % self.cols();
            match self.first_nearest(i, j, count - 1) {
                Some(best) => {
                    if self.cells[k][l].max_z != 0 && self.node_gap(i, j, k, l) < self.node_gap(
                        i,
                        j,
                        best.0,
                        best.1,
                    ) {
                        Some((k, l))
                    } else {
                        Some(best)
                    }
                },
                None => {
                    if self.cells[k][l].max_z != 0 {
                        Some((k, l))
                    } else {
                        None
                    }
                },
            }
        }
    }

    /// What `first_nearest` finds is in the grid, has a ceiling other than
    /// zero, and is the first of the nearest such cells among those searched.
    pub proof fn lemma_first_nearest(self, i: int, j: int, count: int)
        requires
            self.rectangular(),
            0 <= count <= self.rows() * self.cols(),
        ensures
            match self.first_nearest(i, j, count) {
                Some(best) => {
                    &&& self.in_grid(best.0, best.1)
                    &&& best.0 * self.cols() + best.1 < count
                    &&& self.cells[best.0][best.1].max_z != 0
                    &&& forall|n: int|
                        0 <= n < count && (#[trigger] self.cells[n / self.cols()][n
                            % self.cols()]).max_z != 0 ==> {
                            &&& self.node_gap(i, j, best.0, best.1) <= self.node_gap(
                                i,
                                j,
                                n / self.cols(),
                                n % self.cols(),
                            )
                            &&& n < best.0 * self.cols() + best.1 ==> self.node_gap(
                                i,
                                j,
                                best.0,
                                best.1,
                            ) < self.node_gap(i, j, n / self.cols(), n % self.cols())
                        }
                },
                None => forall|n: int|
                    0 <= n < count ==> (#[trigger] self.cells[n / self.cols()][n
                        % self.cols()]).max_z == 0,
            },
        decreases count,
    {
        if count > 0 {
            self.lemma_first_nearest(i, j, count - 1);
            let c = self.cols();
            let k = (count - 1) / c;
            let l = (count - 1) % c;
            vstd::arithmetic::div_mod::lemma_fundamental_div_mod(count - 1, c);
            vstd::arithmetic::div_mod::lemma_mod_bound(count - 1, c);
            vstd::arithmetic::div_mod::lemma_div_pos_is_pos(count - 1, c);
            assert(c * k == k * c) by (nonlinear_arith);
            assert(k < self.rows()) by (nonlinear_arith)
                requires
                    k * c + l == count - 1,
                    count - 1 < self.rows() * c,
                    0 <= l,
                    c >= 1,
            ;
            assert(self.in_grid(k, l));
        }
    }

    /// The surface made ready for classification: its gaps filled, then
    /// simulated for at most `max_iterations` sweeps.
    pub open spec fn settled(self) -> SurfaceModel {
        self.gap_filled().simulated(self.max_iterations as nat)
    }

    /// Showing points to a well-formed surface leaves it well-formed.
    pub proof fn lemma_draped_all_wf(self, points: Seq<Point>)
        requires
            self.wf(),
        ensures
            self.draped_all(points).wf(),
            self.draped_all(points).rows() == self.rows(),
            self.draped_all(points).cols() == self.cols(),
        decreases points.len(),
    {
        if points.len() > 0 {
            self.lemma_draped_all_wf(points.drop_last());
            self.draped_all(points.drop_last()).lemma_draped_wf(points.last());
        }
    }

    /// Whether every node's height and ceiling lie between `low` and `high`,
    /// and every pinned node sits on its ceiling.
    pub open spec fn within(self, low: int, high: int) -> bool {
        forall|i: int, j: int|
            0 <= i < self.rows() && 0 <= j < self.cols() ==> (#[trigger] self.cells[i][j]).within(
                low,
                high,
            )
    }

    /// Applying the forces at one node keeps all nodes between their bounds.
    pub proof fn lemma_force_at_within(self, row: int, col: int, low: int, high: int)
        requires
            self.rectangular(),
            self.in_grid(row, col),
            0 <= self.rigidness <= UNIT,
            self.displacement >= 0,
            self.within(low, high),
        ensures
            self.force_at(row, col).within(low, high),
    {
        let places = self.neighbour_cells(row, col);
        let given = self.cells_at(places);
        let (node, others) = self.cells[row][col].forced(
            given,
            self.rigidness as int,
            self.displacement as int,
        );
        self.lemma_neighbours_in_grid(row, col);
        assert forall|k: int| 0 <= k < given.len() implies (#[trigger] given[k]).within(
            low,
            high,
        ) by {
            assert(self.in_grid(places[k].0, places[k].1));
            assert(self.cells[places[k].0][places[k].1].within(low, high));
        }
        self.cells[row][col].lemma_forced_within(
            given,
            self.rigidness as int,
            self.displacement as int,
            low,
            high,
        );
        self.cells[row][col].lemma_forced_evolves(
            given,
            self.rigidness as int,
            self.displacement as int,
        );
        self.lemma_with_cells(places, others);
        self.lemma_force_at_evolves(row, col);
        let mid = self.with_cells(places, others);
        let t = self.force_at(row, col);
        assert forall|i: int, j: int| 0 <= i < t.rows() && 0 <= j < t.cols() implies (
        #[trigger] t.cells[i][j]).within(low, high) by {
            assert(mid.cells[i].len() == mid.cols());
            assert(mid.cells[row].len() == mid.cols());
            if i == row && j == col {
                assert(t.cells[i][j] == node);
            } else {
                assert(t.cells[i][j] == mid.cells[i][j]);
                assert(self.cells[i][j].within(low, high));
                if mid.cells[i][j] != self.cells[i][j] {
                    let k = choose|k: int|
                        0 <= k < places.len() && #[trigger] places[k] == (i, j) && mid.cells[i][j]
                            == others[k];
                    assert(others[k].within(low, high));
                }
            }
        }
    }

    /// Sweeping part of a row keeps all nodes between their bounds.
    pub proof fn lemma_row_swept_within(self, row: int, upto: int, low: int, high: int)
        requires
            self.rectangular(),
            0 <= row < self.rows(),
            0 <= upto <= self.cols(),
            0 <= self.rigidness <= UNIT,
            self.displacement >= 0,
            self.within(low, high),
        ensures
            self.row_swept(row, upto).within(low, high),
        decreases upto,
    {
        if upto > 0 {
            self.lemma_row_swept_within(row, upto - 1, low, high);
            self.lemma_row_swept_evolves(row, upto - 1);
            self.row_swept(row, upto - 1).lemma_force_at_within(row, upto - 1, low, high);
        }
    }

    /// Sweeping the first rows keeps all nodes between their bounds.
    pub proof fn lemma_rows_swept_within(self, upto: int, low: int, high: int)
        requires
            self.rectangular(),
            0 <= upto <= self.rows(),
            0 <= self.rigidness <= UNIT,
            self.displacement >= 0,
            self.within(low, high),
        ensures
            self.rows_swept(upto).within(low, high),
        decreases upto,
    {
        if upto > 0 {
            self.lemma_rows_swept_within(upto - 1, low, high);
            self.lemma_rows_swept_evolves(upto - 1);
            self.rows_swept(upto - 1).lemma_row_swept_within(upto - 1, self.cols(), low, high);
        }
    }

    /// A simulation keeps the cloth between the lowest height it started
    /// from and the highest ceiling: where every height and ceiling lies
    /// between `low` and `high` and every pinned node sits on its ceiling,
    /// the same holds after any number of sweeps. Over flat input, where
    /// every ceiling is `high`, no node ends above the input, and every
    /// pinned node ends exactly on it.
    pub proof fn lemma_simulated_within(self, budget: nat, low: int, high: int)
        requires
            self.rectangular(),
            0 <= self.rigidness <= UNIT,
            self.displacement >= 0,
            self.within(low, high),
        ensures
            self.simulated(budget).within(low, high),
        decreases budget,
    {
        if budget > 0 {
            self.lemma_rows_swept_within(self.rows(), low, high);
            self.lemma_rows_swept_evolves(self.rows());
            let mid = self.swept();
            mid.lemma_recorded_evolves();
            let next = mid.recorded();
            assert forall|i: int, j: int| 0 <= i < next.rows() && 0 <= j < next.cols() implies (
            #[trigger] next.cells[i][j]).within(low, high) by {
                assert(mid.cells[i].len() == mid.cols());
                assert(mid.cells[i][j].within(low, high));
            }
            if !(mid.max_move() < self.simulation_threshold) {
                next.lemma_simulated_within((budget - 1) as nat, low, high);
            }
        }
    }

    /// No node is farther from its height at the end of the previous sweep
    /// than `max_move` says.
    pub proof fn lemma_max_move_bounds(self, row: int, col: int)
        requires
            self.in_grid(row, col),
        ensures
            0 <= self.cell_move(row, col) <= self.max_move(),
    {
        self.lemma_row_move_bounds(row, self.cols(), col);
        self.lemma_rows_move_bounds(self.rows(), row);
    }

    /// `row_move` is at least the move of each node it covers.
    pub proof fn lemma_row_move_bounds(self, row: int, upto: int, col: int)
        requires
            0 <= col < upto,
        ensures
            self.cell_move(row, col) <= self.row_move(row, upto),
        decreases upto,
    {
        if col < upto - 1 {
            self.lemma_row_move_bounds(row, upto - 1, col);
        }
    }

    /// `rows_move` is at least the `row_move` of each row it covers.
    pub proof fn lemma_rows_move_bounds(self, upto: int, row: int)
        requires
            0 <= row < upto,
        ensures
            self.row_move(row, self.cols()) <= self.rows_move(upto),
        decreases upto,
    {
        if row < upto - 1 {
            self.lemma_rows_move_bounds(upto - 1, row);
        }
    }

    /// A freshly laid out surface has no ceiling yet.
    pub proof fn lemma_fresh_has_no_source(
        lower_left: (i64, i64),
        upper_right: (i64, i64),
        resolution: i64,
        simulation_threshold: i64,
        classification_threshold: i64,
        rigidness: i64,
        top_z: i64,
    )
        requires
            buildable(lower_left, upper_right, resolution, rigidness),
        ensures
            !SurfaceModel::fresh(
                lower_left,
                upper_right,
                resolution,
                simulation_threshold,
                classification_threshold,
                rigidness,
                top_z,
            ).has_source(),
    {
        let s = SurfaceModel::fresh(
            lower_left,
            upper_right,
            resolution,
            simulation_threshold,
            classification_threshold,
            rigidness,
            top_z,
        );
        SurfaceModel::lemma_fresh_wf(
            lower_left,
            upper_right,
            resolution,
            simulation_threshold,
            classification_threshold,
            rigidness,
            top_z,
        );
        if s.has_source() {
            let (i, j) = choose|i: int, j: int|
                s.in_grid(i, j) && (#[trigger] s.cells[i][j]).max_z != 0;
            assert(s.cells[i].len() == s.cols());
            assert(s.cells[i][j].max_z == 0);
        }
    }

    /// The order in which two points are shown to a surface does not matter,
    /// unless both fall into the same cell at the same distance from its
    /// node: then the one shown first sets the ceiling.
    pub proof fn lemma_draped_commutes(self, first: Point, second: Point)
        requires
            self.wf(),
            self.cell_of(first) is Some && self.cell_of(first) == self.cell_of(second) ==> ({
                let (row, col) = self.cell_of(first)->Some_0;
                self.gap_to(row, col, first) != self.gap_to(row, col, second)
            }),
        ensures
            self.draped(first).draped(second) == self.draped(second).draped(first),
    {
        self.lemma_draped_wf(first);
        self.lemma_draped_wf(second);
        let one = self.draped(first);
        let other = self.draped(second);
        assert(one.cell_of(second) == self.cell_of(second));
        assert(other.cell_of(first) == self.cell_of(first));
        match self.cell_of(first) {
            Some((row, col)) => {
                self.lemma_gap_to_bounded(row, col, first);
                assert(self.cells[row].len() == self.cols());
            },
            None => {},
        }
        match self.cell_of(second) {
            Some((row, col)) => {
                self.lemma_gap_to_bounded(row, col, second);
                assert(self.cells[row].len() == self.cols());
            },
            None => {},
        }
        assert(one.draped(second).cells =~~= other.draped(first).cells);
    }

    /// Whether every node that is free in this surface and pinned in
    /// `later` sits on its ceiling there.
    pub open spec fn pins_on_ceiling(self, later: SurfaceModel) -> bool {
        forall|i: int, j: int|
            0 <= i < self.rows() && 0 <= j < self.cols() && (#[trigger] self.cells[i][j]).is_moveable
                && !later.cells[i][j].is_moveable ==> later.cells[i][j].z
                == later.cells[i][j].max_z
    }

    /// A surface that evolved from this one holds on its ceiling every node
    /// that was pinned on the way.
    pub proof fn lemma_evolved_pins_on_ceiling(self, later: SurfaceModel)
        requires
            self.evolves_to(later),
        ensures
            self.pins_on_ceiling(later),
    {
        assert forall|i: int, j: int|
            0 <= i < self.rows() && 0 <= j < self.cols() && (#[trigger] self.cells[i][j]).is_moveable
                && !later.cells[i][j].is_moveable implies later.cells[i][j].z
            == later.cells[i][j].max_z by {
            assert(self.cells[i][j].evolves_to(later.cells[i][j]));
        }
    }

    /// Whether every pinned node sits on its ceiling.
    pub open spec fn anchored(self) -> bool {
        forall|i: int, j: int|
            0 <= i < self.rows() && 0 <= j < self.cols() ==> (!(
            #[trigger] self.cells[i][j]).is_moveable ==> self.cells[i][j].z
                == self.cells[i][j].max_z)
    }

    /// Whether every node can move, as in a cloth that has not been
    /// simulated.
    pub open spec fn all_free(self) -> bool {
        forall|i: int, j: int|
            0 <= i < self.rows() && 0 <= j < self.cols() ==> (
            #[trigger] self.cells[i][j]).is_moveable
    }

    /// Whether the simulation that follows the gap filling comes to rest
    /// within the surface's number of sweeps.
    pub open spec fn comes_to_rest(self) -> bool {
        self.gap_filled().stilled(self.max_iterations as nat)
    }

    /// In a cloth whose nodes can all move, every pinned node sits on its
    /// ceiling, there being none.
    pub proof fn lemma_all_free_is_anchored(self)
        requires
            self.all_free(),
        ensures
            self.anchored(),
    {
    }

    /// Showing a point to a surface and filling its gaps pin and free no
    /// node.
    pub proof fn lemma_draped_keeps_free(self, point: Point)
        requires
            self.wf(),
            self.all_free(),
        ensures
            self.draped(point).all_free(),
            self.gap_filled().all_free(),
    {
        self.lemma_draped_wf(point);
        self.lemma_gap_filled();
        let t = self.draped(point);
        assert forall|i: int, j: int| 0 <= i < t.rows() && 0 <= j < t.cols() implies (
        #[trigger] t.cells[i][j]).is_moveable by {
            assert(self.cells[i].len() == self.cols());
            assert(self.cells[i][j].is_moveable);
        }
        let g = self.gap_filled();
        assert forall|i: int, j: int| 0 <= i < g.rows() && 0 <= j < g.cols() implies (
        #[trigger] g.cells[i][j]).is_moveable by {
            assert(self.cells[i].len() == self.cols());
            assert(self.cells[i][j].is_moveable);
        }
    }

    /// Showing points to a surface pins and frees no node.
    pub proof fn lemma_draped_all_keeps_free(self, points: Seq<Point>)
        requires
            self.wf(),
            self.all_free(),
        ensures
            self.draped_all(points).all_free(),
        decreases points.len(),
    {
        if points.len() > 0 {
            self.lemma_draped_all_keeps_free(points.drop_last());
            self.lemma_draped_all_wf(points.drop_last());
            self.draped_all(points.drop_last()).lemma_draped_keeps_free(points.last());
        }
    }

    /// A sweep keeps every pinned node on its ceiling, and puts there every
    /// node that it pins.
    pub proof fn lemma_swept_anchored(self)
        requires
            self.wf(),
            self.anchored(),
        ensures
            self.swept().anchored(),
            self.swept().recorded().anchored(),
    {
        assert(self.within(i64::MIN as int, i64::MAX as int)) by {
            assert forall|i: int, j: int|
                0 <= i < self.rows() && 0 <= j < self.cols() implies (
            #[trigger] self.cells[i][j]).within(i64::MIN as int, i64::MAX as int) by {}
        }
        self.lemma_rows_swept_within(self.rows(), i64::MIN as int, i64::MAX as int);
        self.lemma_rows_swept_evolves(self.rows());
        let mid = self.swept();
        mid.lemma_recorded_evolves();
        assert forall|i: int, j: int| 0 <= i < mid.rows() && 0 <= j < mid.cols() implies (!(
        #[trigger] mid.cells[i][j]).is_moveable ==> mid.cells[i][j].z == mid.cells[i][j].max_z) by {
            assert(mid.cells[i][j].within(i64::MIN as int, i64::MAX as int));
        }
        let next = mid.recorded();
        assert forall|i: int, j: int| 0 <= i < next.rows() && 0 <= j < next.cols() implies (!(
        #[trigger] next.cells[i][j]).is_moveable ==> next.cells[i][j].z
            == next.cells[i][j].max_z) by {
            assert(mid.cells[i].len() == mid.cols());
            assert(mid.cells[i][j].within(i64::MIN as int, i64::MAX as int));
        }
    }

    /// A simulation keeps every pinned node on its ceiling, and puts there
    /// every node that it pins.
    pub proof fn lemma_simulated_anchored(self, budget: nat)
        requires
            self.wf(),
            self.anchored(),
        ensures
            self.simulated(budget).anchored(),
        decreases budget,
    {
        if budget > 0 {
            self.lemma_swept_anchored();
            self.lemma_rows_swept_evolves(self.rows());
            let mid = self.swept();
            mid.lemma_recorded_evolves();
            self.lemma_evolves_trans(mid, mid.recorded());
            self.lemma_evolves_wf(mid.recorded());
            if !(mid.max_move() < self.simulation_threshold) {
                mid.recorded().lemma_simulated_anchored((budget - 1) as nat);
            }
        }
    }

    /// A point that falls into a cell lies in the strip of that cell's
    /// column and row.
    pub proof fn lemma_cell_of_bounds(self, point: Point)
        requires
            self.wf(),
            self.cell_of(point) is Some,
        ensures
            ({
                let (row, col) = self.cell_of(point)->Some_0;
                &&& self.in_grid(row, col)
                &&& self.bounds.0.0 + col * self.cell_resolution <= point.x < self.bounds.0.0 + (col
                    + 1) * self.cell_resolution
                &&& self.bounds.1.1 - row * self.cell_resolution <= point.y < self.bounds.1.1 - (row
                    - 1) * self.cell_resolution
            }),
    {
        crate::units::lemma_floor_div_bounds(
            point.x - self.bounds.0.0,
            self.cell_resolution as int,
        );
        crate::units::lemma_ceil_div_bounds(
            self.bounds.1.1 - point.y,
            self.cell_resolution as int,
        );
    }
}

} // verus!
