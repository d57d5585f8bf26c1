use crate::csf::model::SurfaceModel;
use crate::csf::particle::Particle;
use crate::point::Point;
use crate::units::UNIT;
use vstd::prelude::*;

verus! {

/// Whether the cell `(row, col)` is next to the cell `(a, b)`: in the same
/// row one column apart, or in the same column one row apart.
pub open spec fn next_to(row: int, col: int, a: int, b: int) -> bool {
    (row == a && (col == b + 1 || col == b - 1)) || (col == b && (row == a + 1 || row == a - 1))
}

/// The rise that one sweep is sure to give the lowest node of a cloth under
/// a flat ceiling, unless the node reaches the ceiling: the displacement,
/// halved and rounded up once for each of the two neighbours that are swept
/// after the node.
pub open spec fn sure_rise(displacement: int) -> int {
    ((displacement + 1) / 2 + 1) / 2
}

impl SurfaceModel {
    /// Lowest height among the first `upto` nodes of a row.
    pub open spec fn row_low(self, row: int, upto: int) -> int
        decreases upto,
    {
        if upto <= 1 {
            self.cells[row][0].z as int
        } else {
            let rest = self.row_low(row, upto - 1);
            if self.cells[row][upto - 1].z < rest {
                self.cells[row][upto - 1].z as int
            } else {
                rest
            }
        }
    }

    /// Lowest height among the nodes of the first `upto` rows.
    pub open spec fn rows_low(self, upto: int) -> int
        decreases upto,
    {
        if upto <= 1 {
            self.row_low(0, self.cols())
        } else {
            let rest = self.rows_low(upto - 1);
            if self.row_low(upto - 1, self.cols()) < rest {
                self.row_low(upto - 1, self.cols())
            } else {
                rest
            }
        }
    }

    /// Lowest height of the cloth.
    pub open spec fn lowest(self) -> int {
        self.rows_low(self.rows())
    }

    /// Whether the cloth lies under a flat ceiling at `level` and nowhere
    /// below `floor`, with every pinned node on the ceiling.
    pub open spec fn under_flat(self, floor: int, level: int) -> bool {
        forall|i: int, j: int|
            0 <= i < self.rows() && 0 <= j < self.cols() ==> (#[trigger] self.cells[i][j]).under_flat(
                floor,
                level,
            )
    }

    /// Whether the cloth is at rest under a flat ceiling at `level`: every
    /// ceiling is `level`, no node is above it, every pinned node is on it,
    /// and every node's recorded height is its height.
    pub open spec fn rests_under(self, level: int) -> bool {
        forall|i: int, j: int|
            0 <= i < self.rows() && 0 <= j < self.cols() ==> {
                &&& (#[trigger] self.cells[i][j]).max_z == level
                &&& self.cells[i][j].z <= level
                &&& !self.cells[i][j].is_moveable ==> self.cells[i][j].z == level
                &&& self.cells[i][j].prev_z == self.cells[i][j].z
            }
    }

    /// Whether every node is at `level`.
    pub open spec fn level_at(self, level: int) -> bool {
        forall|i: int, j: int|
            0 <= i < self.rows() && 0 <= j < self.cols() ==> (#[trigger] self.cells[i][j]).z
                == level
    }

    /// The lowest height of part of a row is the height of one of its nodes
    /// and not above the height of any.
    pub proof fn lemma_row_low(self, row: int, upto: int)
        requires
            1 <= upto,
        ensures
            exists|j: int| 0 <= j < upto && (#[trigger] self.cells[row][j]).z == self.row_low(row, upto),
            forall|j: int| 0 <= j < upto ==> self.row_low(row, upto) <= (#[trigger] self.cells[row][j]).z,
        decreases upto,
    {
        if upto <= 1 {
            assert(self.cells[row][0].z == self.row_low(row, upto));
        } else {
            self.lemma_row_low(row, upto - 1);
            let j = choose|j: int|
                0 <= j < upto - 1 && (#[trigger] self.cells[row][j]).z == self.row_low(row, upto - 1);
            if self.cells[row][upto - 1].z < self.row_low(row, upto - 1) {
                assert(self.cells[row][upto - 1].z == self.row_low(row, upto));
            } else {
                assert(self.cells[row][j].z == self.row_low(row, upto));
            }
        }
    }

    /// The lowest height of the first rows is the height of one of their
    /// nodes and not above the height of any.
    pub proof fn lemma_rows_low(self, upto: int)
        requires
            1 <= upto,
            self.cols() >= 1,
        ensures
            exists|i: int, j: int|
                0 <= i < upto && 0 <= j < self.cols() && (#[trigger] self.cells[i][j]).z
                    == self.rows_low(upto),
            forall|i: int, j: int|
                0 <= i < upto && 0 <= j < self.cols() ==> self.rows_low(upto) <= (
                #[trigger] self.cells[i][j]).z,
        decreases upto,
    {
        if upto <= 1 {
            self.lemma_row_low(0, self.cols());
            let j = choose|j: int|
                0 <= j < self.cols() && (#[trigger] self.cells[0][j]).z == self.row_low(
                    0,
                    self.cols(),
                );
            assert(self.cells[0][j].z == self.rows_low(upto));
        } else {
            self.lemma_rows_low(upto - 1);
            self.lemma_row_low(upto - 1, self.cols());
            let (i, j) = choose|i: int, j: int|
                0 <= i < upto - 1 && 0 <= j < self.cols() && (#[trigger] self.cells[i][j]).z
                    == self.rows_low(upto - 1);
            let k = choose|k: int|
                0 <= k < self.cols() && (#[trigger] self.cells[upto - 1][k]).z == self.row_low(
                    upto - 1,
                    self.cols(),
                );
            if self.row_low(upto - 1, self.cols()) < self.rows_low(upto - 1) {
                assert(self.cells[upto - 1][k].z == self.rows_low(upto));
            } else {
                assert(self.cells[i][j].z == self.rows_low(upto));
            }
        }
    }

    /// Under a flat ceiling, applying the forces at one node lifts that node
    /// above the floor, lets no node that was above the floor sink to it, and
    /// changes no recorded height.
    pub proof fn lemma_force_at_under_flat(self, row: int, col: int, floor: int, level: int)
        requires
            self.rectangular(),
            self.in_grid(row, col),
            0 <= self.rigidness <= UNIT,
            self.displacement >= 1,
            floor < level,
            self.under_flat(floor, level),
        ensures
            self.force_at(row, col).under_flat(floor, level),
            self.force_at(row, col).cells[row][col].z > floor,
            forall|i: int, j: int|
                0 <= i < self.rows() && 0 <= j < self.cols() ==> {
                    &&& (#[trigger] self.force_at(row, col).cells[i][j]).prev_z
                        == self.cells[i][j].prev_z
                    &&& self.cells[i][j].z > floor ==> self.force_at(row, col).cells[i][j].z > floor
                },
    {
        let places = self.neighbour_cells(row, col);
        let given = self.cells_at(places);
        let (node, others) = self.cells[row][col].forced(
            given,
            self.rigidness as int,
            self.displacement as int,
        );
        self.lemma_neighbours_in_grid(row, col);
        assert forall|k: int| 0 <= k < given.len() implies (#[trigger] given[k]).under_flat(
            floor,
            level,
        ) by {
            assert(self.in_grid(places[k].0, places[k].1));
            assert(self.cells[places[k].0][places[k].1].under_flat(floor, level));
        }
        assert(self.cells[row][col].under_flat(floor, level));
        self.cells[row][col].lemma_forced_under_flat(
            given,
            self.rigidness as int,
            self.displacement as int,
            floor,
            level,
        );
        self.lemma_with_cells(places, others);
        self.lemma_force_at_evolves(row, col);
        let mid = self.with_cells(places, others);
        let t = self.force_at(row, col);
        assert(mid.cells[row].len() == mid.cols());
        assert(t.cells[row][col] == node);
        assert forall|i: int, j: int| 0 <= i < self.rows() && 0 <= j < self.cols() implies {
            &&& (#[trigger] t.cells[i][j]).under_flat(floor, level)
            &&& t.cells[i][j].prev_z == self.cells[i][j].prev_z
            &&& self.cells[i][j].z > floor ==> t.cells[i][j].z > floor
        } by {
            assert(mid.cells[i].len() == mid.cols());
            assert(self.cells[i][j].under_flat(floor, level));
            if i == row && j == col {
                assert(t.cells[i][j] == node);
            } else {
                assert(t.cells[i][j] == mid.cells[i][j]);
                if mid.cells[i][j] != self.cells[i][j] {
                    let k = choose|k: int|
                        0 <= k < places.len() && #[trigger] places[k] == (i, j) && mid.cells[i][j]
                            == others[k];
                    assert(given[k] == self.cells[i][j]);
                    assert(others[k].under_flat(floor, level));
                }
            }
        }
    }

    /// Under a flat ceiling, sweeping the first `upto` nodes of a row lifts
    /// each of them above the floor.
    pub proof fn lemma_row_swept_under_flat(
        self,
        row: int,
        upto: int,
        floor: int,
        level: int,
    )
        requires
            self.rectangular(),
            0 <= row < self.rows(),
            0 <= upto <= self.cols(),
            0 <= self.rigidness <= UNIT,
            self.displacement >= 1,
            floor < level,
            self.under_flat(floor, level),
        ensures
            self.row_swept(row, upto).under_flat(floor, level),
            forall|j: int| 0 <= j < upto ==> (#[trigger] self.row_swept(row, upto).cells[row][j]).z > floor,
            forall|i: int, j: int|
                0 <= i < self.rows() && 0 <= j < self.cols() ==> {
                    &&& (#[trigger] self.row_swept(row, upto).cells[i][j]).prev_z
                        == self.cells[i][j].prev_z
                    &&& self.cells[i][j].z > floor ==> self.row_swept(row, upto).cells[i][j].z
                        > floor
                },
        decreases upto,
    {
        if upto > 0 {
            self.lemma_row_swept_under_flat(row, upto - 1, floor, level);
            self.lemma_row_swept_evolves(row, upto - 1);
            let mid = self.row_swept(row, upto - 1);
            mid.lemma_force_at_under_flat(row, upto - 1, floor, level);
            let t = self.row_swept(row, upto);
            assert(t == mid.force_at(row, upto - 1));
            assert forall|j: int| 0 <= j < upto implies (#[trigger] t.cells[row][j]).z > floor by {
                if j < upto - 1 {
                    assert(mid.cells[row][j].z > floor);
                }
            }
            assert forall|i: int, j: int| 0 <= i < self.rows() && 0 <= j < self.cols() implies {
                &&& (#[trigger] t.cells[i][j]).prev_z == self.cells[i][j].prev_z
                &&& self.cells[i][j].z > floor ==> t.cells[i][j].z > floor
            } by {
                assert(mid.cells[i][j].prev_z == self.cells[i][j].prev_z);
            }
        }
    }

    /// Under a flat ceiling, sweeping the first `upto` rows lifts each of
    /// their nodes above the floor.
    pub proof fn lemma_rows_swept_under_flat(self, upto: int, floor: int, level: int)
        requires
            self.rectangular(),
            0 <= upto <= self.rows(),
            0 <= self.rigidness <= UNIT,
            self.displacement >= 1,
            floor < level,
            self.under_flat(floor, level),
        ensures
            self.rows_swept(upto).under_flat(floor, level),
            forall|i: int, j: int|
                0 <= i < upto && 0 <= j < self.cols() ==> (#[trigger] self.rows_swept(
                    upto,
                ).cells[i][j]).z > floor,
            forall|i: int, j: int|
                0 <= i < self.rows() && 0 <= j < self.cols() ==> (#[trigger] self.rows_swept(
                    upto,
                ).cells[i][j]).prev_z == self.cells[i][j].prev_z,
        decreases upto,
    {
        if upto > 0 {
            self.lemma_rows_swept_under_flat(upto - 1, floor, level);
            self.lemma_rows_swept_evolves(upto - 1);
            let mid = self.rows_swept(upto - 1);
            mid.lemma_row_swept_under_flat(upto - 1, self.cols(), floor, level);
            let t = self.rows_swept(upto);
            assert(t == mid.row_swept(upto - 1, self.cols()));
            assert forall|i: int, j: int| 0 <= i < upto && 0 <= j < self.cols() implies (
            #[trigger] t.cells[i][j]).z > floor by {
                if i < upto - 1 {
                    assert(mid.cells[i][j].z > floor);
                }
            }
            assert forall|i: int, j: int| 0 <= i < self.rows() && 0 <= j < self.cols() implies (
            #[trigger] t.cells[i][j]).prev_z == self.cells[i][j].prev_z by {
                assert(mid.cells[i][j].prev_z == self.cells[i][j].prev_z);
            }
        }
    }

    /// A cloth at rest under a flat ceiling and nowhere below `floor` is at
    /// rest under the ceiling, and nowhere below `floor`, after a sweep.
    pub proof fn lemma_rests_after_sweep(self, floor: int, level: int)
        requires
            self.rectangular(),
            0 <= self.rigidness <= UNIT,
            self.displacement >= 0,
            self.rests_under(level),
            forall|i: int, j: int|
                0 <= i < self.rows() && 0 <= j < self.cols() ==> floor <= (
                #[trigger] self.cells[i][j]).z,
        ensures
            self.swept().recorded().rests_under(level),
            self.swept().recorded().rectangular(),
            forall|i: int, j: int|
                0 <= i < self.rows() && 0 <= j < self.cols() ==> floor <= (
                #[trigger] self.swept().recorded().cells[i][j]).z <= level,
    {
        let low: int = if floor <= level {
            floor
        } else {
            level
        };
        assert(self.within(low, level)) by {
            assert forall|i: int, j: int|
                0 <= i < self.rows() && 0 <= j < self.cols() implies (
            #[trigger] self.cells[i][j]).within(low, level) by {}
        }
        self.lemma_rows_swept_within(self.rows(), low, level);
        self.lemma_rows_swept_evolves(self.rows());
        let mid = self.swept();
        mid.lemma_recorded_evolves();
        let next = mid.recorded();
        assert forall|i: int, j: int| 0 <= i < next.rows() && 0 <= j < next.cols() implies {
            &&& (#[trigger] next.cells[i][j]).max_z == level
            &&& next.cells[i][j].z <= level
            &&& !next.cells[i][j].is_moveable ==> next.cells[i][j].z == level
            &&& next.cells[i][j].prev_z == next.cells[i][j].z
            &&& floor <= next.cells[i][j].z
        } by {
            assert(mid.cells[i].len() == mid.cols());
            assert(mid.cells[i][j].within(low, level));
            assert(self.cells[i][j].evolves_to(mid.cells[i][j]));
            assert(self.cells[i][j].max_z == level);
            assert(floor <= self.cells[i][j].z);
        }
    }

    /// Under a flat ceiling, applying the forces at one node leaves that
    /// node pinned on the ceiling or at least the displacement above the
    /// floor; it leaves a node next to it that was pinned or `height` above
    /// the floor pinned or at least half of `height`, rounded up, above the
    /// floor; and it leaves every other node as it was.
    pub proof fn lemma_force_at_raised(
        self,
        row: int,
        col: int,
        a: int,
        b: int,
        floor: int,
        level: int,
        height: int,
    )
        requires
            self.rectangular(),
            self.in_grid(row, col),
            self.in_grid(a, b),
            0 <= self.rigidness <= UNIT,
            self.displacement >= 1,
            floor < level,
            height >= 0,
            self.under_flat(floor, level),
        ensures
            row == a && col == b ==> self.force_at(row, col).cells[a][b].raised(
                floor,
                level,
                self.displacement as int,
            ),
            !(row == a && col == b) && self.cells[a][b].raised(floor, level, height)
                ==> self.force_at(row, col).cells[a][b].raised(floor, level, (height + 1) / 2),
            !(row == a && col == b) && !next_to(row, col, a, b) ==> self.force_at(
                row,
                col,
            ).cells[a][b] == self.cells[a][b],
    {
        let places = self.neighbour_cells(row, col);
        let given = self.cells_at(places);
        let (node, others) = self.cells[row][col].forced(
            given,
            self.rigidness as int,
            self.displacement as int,
        );
        self.lemma_neighbours_in_grid(row, col);
        assert forall|k: int| 0 <= k < given.len() implies (#[trigger] given[k]).under_flat(
            floor,
            level,
        ) by {
            assert(self.in_grid(places[k].0, places[k].1));
            assert(self.cells[places[k].0][places[k].1].under_flat(floor, level));
        }
        assert(self.cells[row][col].under_flat(floor, level));
        assert(self.cells[a][b].under_flat(floor, level));
        self.cells[row][col].lemma_forced_raised(
            given,
            self.rigidness as int,
            self.displacement as int,
            floor,
            level,
            height,
        );
        self.cells[row][col].lemma_forced_under_flat(
            given,
            self.rigidness as int,
            self.displacement as int,
            floor,
            level,
        );
        self.lemma_with_cells(places, others);
        let mid = self.with_cells(places, others);
        let t = self.force_at(row, col);
        assert(mid.cells[row].len() == mid.cols());
        assert(mid.cells[a].len() == mid.cols());
        if row == a && col == b {
            assert(t.cells[a][b] == node);
        } else {
            assert(t.cells[a][b] == mid.cells[a][b]);
            if mid.cells[a][b] != self.cells[a][b] {
                let k = choose|k: int|
                    0 <= k < places.len() && #[trigger] places[k] == (a, b) && mid.cells[a][b]
                        == others[k];
                assert(given[k] == self.cells[a][b]);
                assert(next_to(row, col, a, b));
            } else if self.cells[a][b].raised(floor, level, height) {
                assert((height + 1) / 2 <= height);
            }
        }
    }

    /// Under a flat ceiling, sweeping part of a row that does not hold the
    /// node `(a, b)` lowers it at most once, and only from the rows next to
    /// its own: a node that was pinned or `height` above the floor is left
    /// pinned or at least half of `height`, rounded up, above the floor.
    pub proof fn lemma_row_swept_raised_beside(
        self,
        row: int,
        upto: int,
        a: int,
        b: int,
        floor: int,
        level: int,
        height: int,
    )
        requires
            self.rectangular(),
            0 <= row < self.rows(),
            0 <= upto <= self.cols(),
            row != a,
            self.in_grid(a, b),
            0 <= self.rigidness <= UNIT,
            self.displacement >= 1,
            floor < level,
            height >= 0,
            self.under_flat(floor, level),
            self.cells[a][b].raised(floor, level, height),
        ensures
            self.row_swept(row, upto).under_flat(floor, level),
            self.row_swept(row, upto).cells[a][b].raised(floor, level, (height + 1) / 2),
            upto <= b || (row != a + 1 && row != a - 1) ==> self.row_swept(row, upto).cells[a][b]
                == self.cells[a][b],
        decreases upto,
    {
        assert((height + 1) / 2 <= height);
        if upto > 0 {
            self.lemma_row_swept_raised_beside(row, upto - 1, a, b, floor, level, height);
            self.lemma_row_swept_evolves(row, upto - 1);
            self.lemma_row_swept_under_flat(row, upto, floor, level);
            let mid = self.row_swept(row, upto - 1);
            if upto - 1 == b {
                mid.lemma_force_at_raised(row, upto - 1, a, b, floor, level, height);
            } else {
                mid.lemma_force_at_raised(row, upto - 1, a, b, floor, level, (height + 1) / 2);
                assert(!next_to(row, upto - 1, a, b));
            }
        }
    }

    /// Under a flat ceiling, sweeping the row of the node `(a, b)` up to and
    /// beyond it leaves the node pinned on the ceiling or at least half the
    /// displacement, rounded up, above the floor.
    pub proof fn lemma_row_swept_raised_own(
        self,
        upto: int,
        a: int,
        b: int,
        floor: int,
        level: int,
    )
        requires
            self.rectangular(),
            self.in_grid(a, b),
            b < upto <= self.cols(),
            0 <= self.rigidness <= UNIT,
            self.displacement >= 1,
            floor < level,
            self.under_flat(floor, level),
        ensures
            self.row_swept(a, upto).under_flat(floor, level),
            upto == b + 1 ==> self.row_swept(a, upto).cells[a][b].raised(
                floor,
                level,
                self.displacement as int,
            ),
            self.row_swept(a, upto).cells[a][b].raised(
                floor,
                level,
                (self.displacement + 1) / 2,
            ),
        decreases upto,
    {
        let d = self.displacement as int;
        assert((d + 1) / 2 <= d);
        self.lemma_row_swept_evolves(a, upto - 1);
        self.lemma_row_swept_under_flat(a, upto - 1, floor, level);
        self.lemma_row_swept_under_flat(a, upto, floor, level);
        let mid = self.row_swept(a, upto - 1);
        assert(mid.displacement == self.displacement);
        if upto - 1 == b {
            mid.lemma_force_at_raised(a, b, a, b, floor, level, 0);
        } else {
            self.lemma_row_swept_raised_own(upto - 1, a, b, floor, level);
            if upto - 1 == b + 1 {
                mid.lemma_force_at_raised(a, upto - 1, a, b, floor, level, d);
            } else {
                mid.lemma_force_at_raised(a, upto - 1, a, b, floor, level, (d + 1) / 2);
                assert(!next_to(a, upto - 1, a, b));
            }
        }
    }

    /// Under a flat ceiling, a sweep over the rows up to and beyond the row
    /// of the node `(a, b)` leaves the node pinned on the ceiling or at least
    /// a quarter of the displacement, rounded up twice, above the floor.
    pub proof fn lemma_rows_swept_raised(
        self,
        upto: int,
        a: int,
        b: int,
        floor: int,
        level: int,
    )
        requires
            self.rectangular(),
            self.in_grid(a, b),
            a < upto <= self.rows(),
            0 <= self.rigidness <= UNIT,
            self.displacement >= 1,
            floor < level,
            self.under_flat(floor, level),
        ensures
            self.rows_swept(upto).under_flat(floor, level),
            upto == a + 1 ==> self.rows_swept(upto).cells[a][b].raised(
                floor,
                level,
                (self.displacement + 1) / 2,
            ),
            self.rows_swept(upto).cells[a][b].raised(floor, level, sure_rise(self.displacement as int)),
        decreases upto,
    {
        let d = self.displacement as int;
        let half = (d + 1) / 2;
        assert((half + 1) / 2 <= half);
        assert(((half + 1) / 2 + 1) / 2 <= (half + 1) / 2);
        self.lemma_rows_swept_evolves(upto - 1);
        self.lemma_rows_swept_under_flat(upto - 1, floor, level);
        self.lemma_rows_swept_under_flat(upto, floor, level);
        let mid = self.rows_swept(upto - 1);
        assert(mid.displacement == self.displacement);
        if upto - 1 == a {
            mid.lemma_row_swept_raised_own(self.cols(), a, b, floor, level);
        } else {
            self.lemma_rows_swept_raised(upto - 1, a, b, floor, level);
            if upto - 1 == a + 1 {
                mid.lemma_row_swept_raised_beside(upto - 1, self.cols(), a, b, floor, level, half);
            } else {
                mid.lemma_row_swept_raised_beside(
                    upto - 1,
                    self.cols(),
                    a,
                    b,
                    floor,
                    level,
                    sure_rise(d),
                );
            }
        }
    }

    /// Under a flat ceiling, a sweep that moves no node as far as
    /// `threshold`, where `threshold` is no more than the rise that a sweep
    /// is sure to give the lowest node, finds every node less than
    /// `threshold` below the ceiling and leaves it so.
    pub proof fn lemma_quiet_sweep_is_near_level(self, level: int, threshold: int)
        requires
            self.rectangular(),
            0 <= self.rigidness <= UNIT,
            self.displacement >= 1,
            threshold <= sure_rise(self.displacement as int),
            self.rests_under(level),
            self.swept().max_move() < threshold,
        ensures
            self.swept().recorded().rests_under(level),
            forall|i: int, j: int|
                0 <= i < self.rows() && 0 <= j < self.cols() ==> level - threshold < (
                #[trigger] self.swept().recorded().cells[i][j]).z <= level,
    {
        let floor = self.lowest();
        self.lemma_rows_low(self.rows());
        let (a, b) = choose|i: int, j: int|
            0 <= i < self.rows() && 0 <= j < self.cols() && (#[trigger] self.cells[i][j]).z
                == self.rows_low(self.rows());
        assert(self.cells[a][b].z <= level);
        self.lemma_rows_swept_evolves(self.rows());
        let after = self.swept();
        after.lemma_max_move_not_negative();
        if floor <= level - threshold {
            assert(self.under_flat(floor, level)) by {
                assert forall|i: int, j: int|
                    0 <= i < self.rows() && 0 <= j < self.cols() implies (
                #[trigger] self.cells[i][j]).under_flat(floor, level) by {}
            }
            self.lemma_rows_swept_raised(self.rows(), a, b, floor, level);
            self.lemma_rows_swept_under_flat(self.rows(), floor, level);
            assert(after.cells[a][b].prev_z == self.cells[a][b].prev_z);
            assert(after.cells[a][b].raised(floor, level, sure_rise(self.displacement as int)));
            assert(after.cell_move(a, b) >= threshold);
            after.lemma_max_move_bounds(a, b);
        }
        self.lemma_rests_after_sweep(floor, level);
    }

    /// Over flat input a simulation ends near the input: where every ceiling
    /// is `level`, the cloth starts at rest at or below it, the simulation
    /// threshold is no more than the rise that a sweep is sure to give the
    /// lowest node, and the simulation comes to rest within its budget of
    /// sweeps, every node ends less than the simulation threshold below
    /// `level`, and none above it.
    pub proof fn lemma_flat_simulation_nears(self, budget: nat, level: int)
        requires
            self.rectangular(),
            0 <= self.rigidness <= UNIT,
            self.displacement >= 1,
            self.simulation_threshold <= sure_rise(self.displacement as int),
            self.rests_under(level),
            self.stilled(budget),
        ensures
            forall|i: int, j: int|
                0 <= i < self.rows() && 0 <= j < self.cols() ==> level - self.simulation_threshold
                    < (#[trigger] self.simulated(budget).cells[i][j]).z <= level,
        decreases budget,
    {
        let mid = self.swept();
        self.lemma_rows_swept_evolves(self.rows());
        if mid.max_move() < self.simulation_threshold {
            self.lemma_quiet_sweep_is_near_level(level, self.simulation_threshold as int);
        } else {
            let next = mid.recorded();
            mid.lemma_recorded_evolves();
            self.lemma_rows_low(self.rows());
            self.lemma_rests_after_sweep(self.lowest(), level);
            next.lemma_flat_simulation_nears((budget - 1) as nat, level);
            assert forall|i: int, j: int| 0 <= i < self.rows() && 0 <= j < self.cols() implies level
                - self.simulation_threshold < (#[trigger] self.simulated(budget).cells[i][j]).z
                <= level by {
                assert(self.simulated(budget) == next.simulated((budget - 1) as nat));
                assert(level - next.simulation_threshold < next.simulated(
                    (budget - 1) as nat,
                ).cells[i][j].z);
            }
        }
    }

    /// Where no node is farther than `bound` from its recorded height,
    /// `row_move` is at most `bound`.
    pub proof fn lemma_row_move_at_most(self, row: int, upto: int, bound: int)
        requires
            bound >= 0,
            forall|j: int| 0 <= j < upto ==> self.cell_move(row, j) <= bound,
        ensures
            self.row_move(row, upto) <= bound,
        decreases upto,
    {
        if upto > 0 {
            self.lemma_row_move_at_most(row, upto - 1, bound);
        }
    }

    /// Where no node is farther than `bound` from its recorded height,
    /// `rows_move` is at most `bound`.
    pub proof fn lemma_rows_move_at_most(self, upto: int, bound: int)
        requires
            bound >= 0,
            forall|i: int, j: int|
                0 <= i < upto && 0 <= j < self.cols() ==> self.cell_move(i, j) <= bound,
        ensures
            self.rows_move(upto) <= bound,
        decreases upto,
    {
        if upto > 0 {
            self.lemma_rows_move_at_most(upto - 1, bound);
            self.lemma_row_move_at_most(upto - 1, self.cols(), bound);
        }
    }

    /// Over flat input every sweep lifts the lowest node, until every node
    /// is on the ceiling: a cloth at rest under a flat ceiling at `level`,
    /// with a node below it, has its lowest node higher after a sweep.
    pub proof fn lemma_sweep_lifts_lowest(self, level: int)
        requires
            self.rectangular(),
            0 <= self.rigidness <= UNIT,
            self.displacement >= 1,
            self.rests_under(level),
            self.lowest() < level,
        ensures
            self.swept().recorded().lowest() > self.lowest(),
            self.swept().recorded().rests_under(level),
            self.swept().recorded().rectangular(),
    {
        let floor = self.lowest();
        self.lemma_rows_low(self.rows());
        assert(self.under_flat(floor, level)) by {
            assert forall|i: int, j: int|
                0 <= i < self.rows() && 0 <= j < self.cols() implies (
            #[trigger] self.cells[i][j]).under_flat(floor, level) by {}
        }
        self.lemma_rows_swept_under_flat(self.rows(), floor, level);
        self.lemma_rows_swept_evolves(self.rows());
        self.lemma_rests_after_sweep(floor, level);
        let mid = self.swept();
        mid.lemma_recorded_evolves();
        let next = mid.recorded();
        next.lemma_rows_low(next.rows());
        let (a, b) = choose|i: int, j: int|
            0 <= i < next.rows() && 0 <= j < next.cols() && (#[trigger] next.cells[i][j]).z
                == next.rows_low(next.rows());
        assert(mid.cells[a].len() == mid.cols());
        assert(mid.cells[a][b].z > floor);
        assert(next.cells[a][b].z == mid.cells[a][b].z);
    }

    /// A sweep over a cloth that rests with every node on a flat ceiling
    /// moves no node.
    pub proof fn lemma_level_sweep_is_still(self, level: int)
        requires
            self.rectangular(),
            0 <= self.rigidness <= UNIT,
            self.displacement >= 1,
            self.rests_under(level),
            self.level_at(level),
        ensures
            self.swept().max_move() == 0,
    {
        assert(self.within(level, level)) by {
            assert forall|i: int, j: int|
                0 <= i < self.rows() && 0 <= j < self.cols() implies (
            #[trigger] self.cells[i][j]).within(level, level) by {}
        }
        assert(self.under_flat(level - 1, level)) by {
            assert forall|i: int, j: int|
                0 <= i < self.rows() && 0 <= j < self.cols() implies (
            #[trigger] self.cells[i][j]).under_flat(level - 1, level) by {}
        }
        self.lemma_rows_swept_within(self.rows(), level, level);
        self.lemma_rows_swept_evolves(self.rows());
        let mid = self.swept();
        self.lemma_rows_swept_under_flat(self.rows(), level - 1, level);
        assert forall|i: int, j: int|
            0 <= i < mid.rows() && 0 <= j < mid.cols() implies mid.cell_move(i, j) <= 0 by {
            assert(mid.cells[i][j].within(level, level));
            assert(mid.cells[i][j].prev_z == self.cells[i][j].prev_z);
        }
        mid.lemma_rows_move_at_most(mid.rows(), 0);
        mid.lemma_max_move_not_negative();
    }

    /// Over flat input a simulation comes to rest: where every ceiling is
    /// `level`, the cloth starts at rest at or below it, the simulation
    /// threshold is at least one unit, and the budget of sweeps is larger
    /// than the distance from the lowest node to the ceiling, the simulation
    /// ends with a sweep that is below the threshold.
    pub proof fn lemma_flat_simulation_comes_to_rest(self, budget: nat, level: int)
        requires
            self.rectangular(),
            0 <= self.rigidness <= UNIT,
            self.displacement >= 1,
            self.simulation_threshold >= 1,
            self.rests_under(level),
            budget > level - self.lowest(),
        ensures
            self.stilled(budget),
        decreases budget,
    {
        self.lemma_rows_low(self.rows());
        let (a, b) = choose|i: int, j: int|
            0 <= i < self.rows() && 0 <= j < self.cols() && (#[trigger] self.cells[i][j]).z
                == self.rows_low(self.rows());
        assert(self.cells[a][b].z <= level);
        let mid = self.swept();
        self.lemma_rows_swept_evolves(self.rows());
        if !(mid.max_move() < self.simulation_threshold) {
            if self.lowest() < level {
                self.lemma_sweep_lifts_lowest(level);
                mid.recorded().lemma_flat_simulation_comes_to_rest((budget - 1) as nat, level);
            } else {
                assert(self.level_at(level)) by {
                    assert forall|i: int, j: int|
                        0 <= i < self.rows() && 0 <= j < self.cols() implies (
                    #[trigger] self.cells[i][j]).z == level by {}
                }
                self.lemma_level_sweep_is_still(level);
            }
        }
    }

    /// Whether the cloth is as it is laid out, at or below `level`: flat or
    /// not, every node can move, is at rest, and has no ceiling yet.
    pub open spec fn laid_out_below(self, level: int) -> bool {
        forall|i: int, j: int|
            0 <= i < self.rows() && 0 <= j < self.cols() ==> {
                &&& (#[trigger] self.cells[i][j]).z <= level
                &&& self.cells[i][j].prev_z == self.cells[i][j].z
                &&& self.cells[i][j].is_moveable
                &&& self.cells[i][j].max_z == 0
                &&& self.cells[i][j].closest_pt_distance == u128::MAX
            }
    }

    /// Whether `later` is the cloth `self` after points at elevation `level`
    /// have been shown to it: nothing changed but ceilings, each of which is
    /// unset or `level`, and `level` wherever a point has been recorded.
    pub open spec fn draped_flat_from(self, later: SurfaceModel, level: int) -> bool {
        &&& later.wf()
        &&& later.rows() == self.rows()
        &&& later.cols() == self.cols()
        &&& later.bounds == self.bounds
        &&& later.cell_resolution == self.cell_resolution
        &&& later.rigidness == self.rigidness
        &&& later.displacement == self.displacement
        &&& later.simulation_threshold == self.simulation_threshold
        &&& later.max_iterations == self.max_iterations
        &&& forall|i: int, j: int|
            0 <= i < self.rows() && 0 <= j < self.cols() ==> {
                &&& (#[trigger] later.cells[i][j]).z == self.cells[i][j].z
                &&& later.cells[i][j].prev_z == self.cells[i][j].prev_z
                &&& later.cells[i][j].is_moveable == self.cells[i][j].is_moveable
                &&& later.cells[i][j].max_z == 0 || later.cells[i][j].max_z == level
                &&& later.cells[i][j].closest_pt_distance < u128::MAX ==> later.cells[i][j].max_z
                    == level
            }
    }

    /// Showing points of one elevation to a freshly laid out cloth changes
    /// nothing but ceilings, sets none to another elevation, and sets the
    /// ceiling of every cell that a point fell into.
    pub proof fn lemma_draped_all_flat(self, points: Seq<Point>, level: int)
        requires
            self.wf(),
            self.laid_out_below(level),
            forall|k: int| 0 <= k < points.len() ==> (#[trigger] points[k]).z == level,
        ensures
            self.draped_flat_from(self.draped_all(points), level),
            forall|k: int|
                0 <= k < points.len() && self.cell_of(#[trigger] points[k]) is Some ==> {
                    let (row, col) = self.cell_of(points[k])->Some_0;
                    self.draped_all(points).cells[row][col].max_z == level
                },
        decreases points.len(),
    {
        if points.len() == 0 {
            assert(self.draped_flat_from(self, level));
        } else {
            let front = points.drop_last();
            let last = points.last();
            assert(last == points[points.len() - 1]);
            assert forall|k: int| 0 <= k < front.len() implies (#[trigger] front[k]).z == level by {
                assert(front[k] == points[k]);
            }
            self.lemma_draped_all_flat(front, level);
            let mid = self.draped_all(front);
            let t = mid.draped(last);
            assert(t == self.draped_all(points));
            mid.lemma_draped_wf(last);
            assert(mid.cell_of(last) == self.cell_of(last));
            match mid.cell_of(last) {
                Some((row, col)) => {
                    mid.lemma_gap_to_bounded(row, col, last);
                    let cell = Particle {
                        closest_pt_distance: mid.gap_to(row, col, last) as u128,
                        max_z: last.z,
                        ..mid.cells[row][col]
                    };
                    mid.lemma_with_cell_wf(row, col, cell);
                    assert(mid.cells[row][col].closest_pt_distance < u128::MAX
                        ==> mid.cells[row][col].max_z == level);
                    assert(t.cells[row][col].max_z == level);
                    assert forall|i: int, j: int|
                        0 <= i < self.rows() && 0 <= j < self.cols() implies {
                        &&& (#[trigger] t.cells[i][j]).z == self.cells[i][j].z
                        &&& t.cells[i][j].prev_z == self.cells[i][j].prev_z
                        &&& t.cells[i][j].is_moveable == self.cells[i][j].is_moveable
                        &&& t.cells[i][j].max_z == 0 || t.cells[i][j].max_z == level
                        &&& t.cells[i][j].closest_pt_distance < u128::MAX ==> t.cells[i][j].max_z
                            == level
                    } by {
                        assert(mid.cells[i][j].z == self.cells[i][j].z);
                        if !(i == row && j == col) {
                            assert(t.cells[i][j] == mid.cells[i][j]);
                        }
                    }
                },
                None => {},
            }
            assert forall|k: int|
                0 <= k < points.len() && self.cell_of(#[trigger] points[k]) is Some implies {
                let (row, col) = self.cell_of(points[k])->Some_0;
                t.cells[row][col].max_z == level
            } by {
                let (row, col) = self.cell_of(points[k])->Some_0;
                if k < points.len() - 1 {
                    assert(front[k] == points[k]);
                    assert(mid.cells[row][col].max_z == level);
                }
            }
        }
    }

    /// Over flat input the cloth is at rest under a flat ceiling when the
    /// simulation starts: where a freshly laid out cloth at or below `level`
    /// has been shown points that all have the elevation `level`, one of
    /// which fell into a cell, and its gaps have been filled, every ceiling
    /// is `level`.
    pub proof fn lemma_flat_input_rests(self, points: Seq<Point>, level: int)
        requires
            self.wf(),
            self.laid_out_below(level),
            forall|k: int| 0 <= k < points.len() ==> (#[trigger] points[k]).z == level,
            exists|k: int| 0 <= k < points.len() && self.cell_of(#[trigger] points[k]) is Some,
        ensures
            self.draped_all(points).gap_filled().rests_under(level),
            self.draped_all(points).gap_filled().wf(),
            self.draped_all(points).gap_filled().simulation_threshold == self.simulation_threshold,
            self.draped_all(points).gap_filled().max_iterations == self.max_iterations,
            self.draped_all(points).gap_filled().displacement == self.displacement,
    {
        self.lemma_draped_all_flat(points, level);
        let draped = self.draped_all(points);
        draped.lemma_gap_filled();
        let filled = draped.gap_filled();
        let k = choose|k: int| 0 <= k < points.len() && self.cell_of(#[trigger] points[k]) is Some;
        let (row, col) = self.cell_of(points[k])->Some_0;
        assert(draped.cells[row][col].max_z == level);
        assert forall|i: int, j: int| 0 <= i < filled.rows() && 0 <= j < filled.cols() implies {
            &&& (#[trigger] filled.cells[i][j]).max_z == level
            &&& filled.cells[i][j].z <= level
            &&& !filled.cells[i][j].is_moveable ==> filled.cells[i][j].z == level
            &&& filled.cells[i][j].prev_z == filled.cells[i][j].z
        } by {
            assert(draped.cells[i].len() == draped.cols());
            assert(draped.cells[i][j].z == self.cells[i][j].z);
            assert(self.cells[i][j].is_moveable);
            if level == 0 {
                assert(!draped.has_source()) by {
                    if draped.has_source() {
                        let (a, b) = choose|a: int, b: int|
                            draped.in_grid(a, b) && (#[trigger] draped.cells[a][b]).max_z != 0;
                        assert(draped.cells[a][b].max_z == 0 || draped.cells[a][b].max_z == level);
                    }
                }
            } else {
                assert(draped.in_grid(row, col) && draped.cells[row][col].max_z != 0);
                assert(draped.has_source());
                if draped.cells[i][j].max_z == 0 {
                    draped.lemma_source_exists(i, j);
                    let source = draped.source_of(i, j);
                    assert(draped.cells[source.0][source.1].max_z == 0
                        || draped.cells[source.0][source.1].max_z == level);
                }
            }
        }
    }

    /// Simulating flat input comes to rest: where a freshly laid out cloth
    /// between `floor` and `level` is shown points that all have the
    /// elevation `level`, one of which falls into a cell, the simulation
    /// threshold is at least one unit, and the surface may make more sweeps
    /// than there are units between `floor` and `level`, the simulation ends
    /// with a sweep below the threshold.
    pub proof fn lemma_flat_input_comes_to_rest(
        self,
        points: Seq<Point>,
        floor: int,
        level: int,
    )
        requires
            self.wf(),
            self.displacement >= 1,
            self.simulation_threshold >= 1,
            self.laid_out_below(level),
            forall|i: int, j: int|
                0 <= i < self.rows() && 0 <= j < self.cols() ==> floor <= (
                #[trigger] self.cells[i][j]).z,
            forall|k: int| 0 <= k < points.len() ==> (#[trigger] points[k]).z == level,
            exists|k: int| 0 <= k < points.len() && self.cell_of(#[trigger] points[k]) is Some,
            self.max_iterations > level - floor,
        ensures
            self.draped_all(points).comes_to_rest(),
    {
        self.lemma_flat_input_rests(points, level);
        self.lemma_draped_all_flat(points, level);
        let draped = self.draped_all(points);
        draped.lemma_gap_filled();
        let filled = draped.gap_filled();
        filled.lemma_rows_low(filled.rows());
        let (a, b) = choose|i: int, j: int|
            0 <= i < filled.rows() && 0 <= j < filled.cols() && (#[trigger] filled.cells[i][j]).z
                == filled.rows_low(filled.rows());
        assert(draped.cells[a].len() == draped.cols());
        assert(draped.cells[a][b].z == self.cells[a][b].z);
        assert(filled.cells[a][b].z == draped.cells[a][b].z);
        assert(floor <= self.cells[a][b].z);
        filled.lemma_flat_simulation_comes_to_rest(self.max_iterations as nat, level);
    }

    /// Simulating flat input settles the cloth on the input: where a freshly
    /// laid out cloth at or below `level` is shown points that all have the
    /// elevation `level`, one of which falls into a cell, and the simulation
    /// threshold is no more than the rise that a sweep is sure to give the
    /// lowest node, a simulation that comes to rest within its budget of
    /// sweeps leaves every node less than the simulation threshold below
    /// `level` and none above it. So every node ends exactly at `level` for a
    /// threshold of one unit, and within the classification threshold of the
    /// input wherever that is not below the simulation threshold.
    pub proof fn lemma_flat_input_settles(self, points: Seq<Point>, level: int)
        requires
            self.wf(),
            self.displacement >= 1,
            self.simulation_threshold <= sure_rise(self.displacement as int),
            self.laid_out_below(level),
            forall|k: int| 0 <= k < points.len() ==> (#[trigger] points[k]).z == level,
            exists|k: int| 0 <= k < points.len() && self.cell_of(#[trigger] points[k]) is Some,
            self.draped_all(points).comes_to_rest(),
        ensures
            forall|i: int, j: int|
                0 <= i < self.rows() && 0 <= j < self.cols() ==> level - self.simulation_threshold
                    < (#[trigger] self.draped_all(points).settled().cells[i][j]).z <= level,
            self.simulation_threshold <= 1 ==> self.draped_all(points).settled().level_at(level),
            self.simulation_threshold <= self.classification_threshold ==> forall|i: int, j: int|
                0 <= i < self.rows() && 0 <= j < self.cols() ==> crate::csf::model::abs_int(
                    (#[trigger] self.draped_all(points).settled().cells[i][j]).z - level,
                ) < self.classification_threshold,
    {
        self.lemma_flat_input_rests(points, level);
        self.lemma_draped_all_flat(points, level);
        let filled = self.draped_all(points).gap_filled();
        filled.lemma_flat_simulation_nears(self.max_iterations as nat, level);
        filled.lemma_simulated_evolves(self.max_iterations as nat);
        self.draped_all(points).lemma_gap_filled();
        let last = self.draped_all(points).settled();
        assert(last == filled.simulated(self.max_iterations as nat));
        assert forall|i: int, j: int| 0 <= i < self.rows() && 0 <= j < self.cols() implies level
            - self.simulation_threshold < (#[trigger] last.cells[i][j]).z <= level by {
            assert(level - filled.simulation_threshold < filled.simulated(
                self.max_iterations as nat,
            ).cells[i][j].z);
        }
        if self.simulation_threshold <= 1 {
            assert forall|i: int, j: int| 0 <= i < last.rows() && 0 <= j < last.cols() implies (
            #[trigger] last.cells[i][j]).z == level by {
                assert(level - self.simulation_threshold < last.cells[i][j].z <= level);
            }
        }
        if self.simulation_threshold <= self.classification_threshold {
            assert forall|i: int, j: int|
                0 <= i < self.rows() && 0 <= j < self.cols() implies crate::csf::model::abs_int(
                (#[trigger] last.cells[i][j]).z - level,
            ) < self.classification_threshold by {
                assert(level - self.simulation_threshold < last.cells[i][j].z <= level);
            }
        }
    }

    /// With a simulation threshold below one unit no sweep is below the
    /// threshold, so no simulation comes to rest.
    pub proof fn lemma_no_rest_without_threshold(self, budget: nat)
        requires
            self.rectangular(),
            self.displacement >= 0,
            self.simulation_threshold <= 0,
        ensures
            !self.stilled(budget),
        decreases budget,
    {
        if budget > 0 {
            self.swept().lemma_max_move_not_negative();
            self.lemma_rows_swept_evolves(self.rows());
            self.swept().lemma_recorded_evolves();
            self.swept().recorded().lemma_no_rest_without_threshold((budget - 1) as nat);
        }
    }

    /// `max_move` is an absolute value.
    pub proof fn lemma_max_move_not_negative(self)
        ensures
            self.max_move() >= 0,
    {
        self.lemma_rows_move_not_negative(self.rows());
    }

    /// `rows_move` is the largest of absolute values, or zero.
    pub proof fn lemma_rows_move_not_negative(self, upto: int)
        ensures
            self.rows_move(upto) >= 0,
        decreases upto,
    {
        if upto > 0 {
            self.lemma_rows_move_not_negative(upto - 1);
        }
    }
}

} // verus!
