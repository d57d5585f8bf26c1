use crate::cloud::PointCloud;
use crate::cropping::CroppingMethod;
use crate::csf::model::{buildable, SurfaceModel};
use crate::csf::surface::ClothSurface;
use crate::error::LaszyError;
use crate::metadata::Metadata;
use crate::point::{Bounds, Point};
use crate::thinning::ThinningMethod;
use crate::units::{GROUND, UNCLASSIFIED};
use vstd::prelude::*;
use vstd::string::StrSliceExecFns;

verus! {

/// How far below the lowest source point the cloth starts, in millimetres.
pub const CLOTH_START_DEPTH: i64 = 10_000;

/// What a builder is set to do, and the bounds of the source it reads.
pub struct Recipe {
    pub crop: CroppingMethod,
    pub thinning: ThinningMethod,
    /// Rigidness, cloth resolution, simulation threshold and classification
    /// threshold of the ground reclassification, if one is asked for.
    pub csf_filter: Option<(i64, i64, i64, i64)>,
    pub bounds: Bounds,
}

/// The counters of one pass over the source.
#[derive(Clone, Copy, Debug)]
pub struct PassState {
    /// Number of points that passed the crop so far.
    pub thin_count: usize,
    /// Number of points that passed crop and thinning so far.
    pub count: usize,
}

/// Whether a text ends in the given suffix.
pub open spec fn ends_with(text: Seq<char>, suffix: Seq<char>) -> bool {
    text.len() >= suffix.len() && text.subrange(text.len() - suffix.len(), text.len() as int)
        == suffix
}

/// Whether a path names a point file: it ends in `.las` or `.laz`.
pub open spec fn names_point_file(path: Seq<char>) -> bool {
    ends_with(path, ".las"@) || ends_with(path, ".laz"@)
}

/// Whether a path names a raster file: it ends in `.asc`.
pub open spec fn names_raster_file(path: Seq<char>) -> bool {
    ends_with(path, ".asc"@)
}

/// The point as the reclassification leaves it: ground where the cloth says
/// so; no longer ground where the cloth says otherwise; else unchanged.
pub open spec fn relabelled(cloth: SurfaceModel, point: Point) -> Point {
    if cloth.is_ground(point) {
        Point { classification: GROUND, ..point }
    } else if point.classification == GROUND {
        Point { classification: UNCLASSIFIED, ..point }
    } else {
        point
    }
}

impl Recipe {
    /// The corners of the area that a cloth has to cover: the crop box, or
    /// the source's bounds where nothing is cropped.
    pub open spec fn crop_corners(self) -> ((i64, i64), (i64, i64)) {
        match self.crop {
            CroppingMethod::Off => (
                (self.bounds.min.x, self.bounds.min.y),
                (self.bounds.max.x, self.bounds.max.y),
            ),
            CroppingMethod::BoundingBox { lower_left, upper_right } => (lower_left, upper_right),
        }
    }

    /// Height at which the cloth starts.
    pub open spec fn top_z(self) -> int {
        self.bounds.min.z - CLOTH_START_DEPTH
    }

    /// Whether a cloth of the given rigidness and resolution can be laid out
    /// over the area.
    pub open spec fn cloth_fits(self, rigidness: i64, resolution: i64) -> bool {
        &&& buildable(self.crop_corners().0, self.crop_corners().1, resolution, rigidness)
        &&& self.top_z() >= i64::MIN
    }

    /// Whether the recipe can be run: the thinning method is supported and
    /// the cloth, if one is asked for, can be laid out.
    pub open spec fn valid(self) -> bool {
        &&& self.thinning.supported()
        &&& match self.csf_filter {
            Some((rigidness, resolution, _, _)) => self.cloth_fits(rigidness, resolution),
            None => true,
        }
    }

    /// Whether `draws` can be the outcomes of the trials made for `n` points.
    pub open spec fn possible_draws(self, draws: Seq<bool>, n: nat) -> bool {
        &&& draws.len() == n
        &&& forall|i: int| 0 <= i < n ==> self.thinning.may_draw(#[trigger] draws[i])
    }

    /// Number of points that pass the crop.
    pub open spec fn seen(self, points: Seq<Point>) -> nat
        decreases points.len(),
    {
        if points.len() == 0 {
            0
        } else {
            self.seen(points.drop_last()) + if self.crop.contains(points.last()) {
                1nat
            } else {
                0nat
            }
        }
    }

    /// Whether a point survives that follows the points `before` in the
    /// stream: it passes the crop, and the thinning keeps it at its index
    /// among the points that passed the crop.
    pub open spec fn admits(self, before: Seq<Point>, point: Point, draw: bool) -> bool {
        self.crop.contains(point) && self.thinning.keeps(self.seen(before), draw)
    }

    /// The points that survive crop and thinning, in stream order, where
    /// `draws[i]` is the outcome of the trial made for `points[i]`.
    pub open spec fn kept(self, points: Seq<Point>, draws: Seq<bool>) -> Seq<Point>
        decreases points.len(),
    {
        if points.len() == 0 {
            Seq::empty()
        } else {
            let head = self.kept(points.drop_last(), draws.drop_last());
            if self.admits(points.drop_last(), points.last(), draws.last()) {
                head.push(points.last())
            } else {
                head
            }
        }
    }

    /// The cloth as it is laid out before any point is shown to it.
    pub open spec fn blank_cloth(
        self,
        rigidness: i64,
        resolution: i64,
        simulation_threshold: i64,
        classification_threshold: i64,
    ) -> SurfaceModel {
        SurfaceModel::fresh(
            self.crop_corners().0,
            self.crop_corners().1,
            resolution,
            simulation_threshold,
            classification_threshold,
            rigidness,
            self.top_z() as i64,
        )
    }

    /// The cloth after every surviving point has been shown to it, before
    /// its gaps are filled.
    pub open spec fn draped_cloth(
        self,
        rigidness: i64,
        resolution: i64,
        simulation_threshold: i64,
        classification_threshold: i64,
        points: Seq<Point>,
        draws: Seq<bool>,
    ) -> SurfaceModel {
        self.blank_cloth(
            rigidness,
            resolution,
            simulation_threshold,
            classification_threshold,
        ).draped_all(self.kept(points, draws))
    }

    /// Whether the first pass leaves the cloth unconstrained: a
    /// reclassification is asked for, and the surviving points have left
    /// every ceiling at zero. That is so when no point survives, when every
    /// survivor falls beside the grid, and when every survivor has the
    /// elevation zero.
    pub open spec fn starved(self, points: Seq<Point>, draws: Seq<bool>) -> bool {
        match self.csf_filter {
            Some((rigidness, resolution, simulation_threshold, classification_threshold)) => {
                !self.draped_cloth(
                    rigidness,
                    resolution,
                    simulation_threshold,
                    classification_threshold,
                    points,
                    draws,
                ).has_source()
            },
            None => false,
        }
    }

    /// Whether the first pass leaves the cloth in motion: a reclassification
    /// is asked for, the surviving points have given the cloth a ceiling, and
    /// the simulation uses up its sweeps before the cloth comes to rest.
    pub open spec fn restless(self, points: Seq<Point>, draws: Seq<bool>) -> bool {
        match self.csf_filter {
            Some((rigidness, resolution, simulation_threshold, classification_threshold)) => {
                let draped = self.draped_cloth(
                    rigidness,
                    resolution,
                    simulation_threshold,
                    classification_threshold,
                    points,
                    draws,
                );
                draped.has_source() && !draped.comes_to_rest()
            },
            None => false,
        }
    }

    /// The cloth after the first pass: laid out, shown every surviving
    /// point, its gaps filled, and simulated.
    pub open spec fn cloth(
        self,
        rigidness: i64,
        resolution: i64,
        simulation_threshold: i64,
        classification_threshold: i64,
        points: Seq<Point>,
        draws: Seq<bool>,
    ) -> SurfaceModel {
        self.draped_cloth(
            rigidness,
            resolution,
            simulation_threshold,
            classification_threshold,
            points,
            draws,
        ).settled()
    }

    /// The cloth that the second pass classifies against, if the recipe asks
    /// for a reclassification.
    pub open spec fn cloth_for(self, points: Seq<Point>, draws: Seq<bool>) -> Option<SurfaceModel> {
        match self.csf_filter {
            Some((rigidness, resolution, simulation_threshold, classification_threshold)) => Some(
                self.cloth(
                    rigidness,
                    resolution,
                    simulation_threshold,
                    classification_threshold,
                    points,
                    draws,
                ),
            ),
            None => None,
        }
    }

    /// The points that the second pass emits: the survivors, each
    /// reclassified against the cloth if there is one.
    pub open spec fn emitted(
        self,
        cloth: Option<SurfaceModel>,
        points: Seq<Point>,
        draws: Seq<bool>,
    ) -> Seq<Point> {
        match cloth {
            Some(surface) => self.kept(points, draws).map_values(
                |p: Point| relabelled(surface, p),
            ),
            None => self.kept(points, draws),
        }
    }

    /// Whether `outcome` is what the first pass gives for a valid recipe,
    /// where `draws` are the outcomes of its trials: the empty-cloud failure
    /// if the surviving points leave every ceiling at zero, which includes
    /// the case that no point survives; a configuration error if the
    /// simulation uses up its sweeps before the cloth comes to rest; else the
    /// simulated cloth, at rest.
    pub open spec fn describes_cloth(
        self,
        rigidness: i64,
        resolution: i64,
        simulation_threshold: i64,
        classification_threshold: i64,
        points: Seq<Point>,
        draws: Seq<bool>,
        outcome: Result<SurfaceModel, LaszyError>,
    ) -> bool {
        &&& self.possible_draws(draws, points.len())
        &&& if !self.draped_cloth(
            rigidness,
            resolution,
            simulation_threshold,
            classification_threshold,
            points,
            draws,
        ).has_source() {
            outcome is Err && outcome->Err_0 is EmptyCloud
        } else if !self.draped_cloth(
            rigidness,
            resolution,
            simulation_threshold,
            classification_threshold,
            points,
            draws,
        ).comes_to_rest() {
            outcome is Err && outcome->Err_0 is LaszyError
        } else {
            outcome == Ok::<SurfaceModel, LaszyError>(
                self.cloth(
                    rigidness,
                    resolution,
                    simulation_threshold,
                    classification_threshold,
                    points,
                    draws,
                ),
            )
        }
    }

    /// Whether `outcome` is what a run of a valid recipe gives, where
    /// `first` and `second` are the outcomes of the trials of the two
    /// passes: the empty-cloud failure if a reclassification is asked for and
    /// the first pass leaves the cloth unconstrained; a configuration error
    /// if it leaves the cloth in motion; else the points of the second pass.
    pub open spec fn describes_run(
        self,
        points: Seq<Point>,
        first: Seq<bool>,
        second: Seq<bool>,
        outcome: Result<Seq<Point>, LaszyError>,
    ) -> bool {
        &&& self.possible_draws(first, points.len())
        &&& self.possible_draws(second, points.len())
        &&& if self.starved(points, first) {
            outcome is Err && outcome->Err_0 is EmptyCloud
        } else if self.restless(points, first) {
            outcome is Err && outcome->Err_0 is LaszyError
        } else {
            outcome == Ok::<Seq<Point>, LaszyError>(
                self.emitted(self.cloth_for(points, first), points, second),
            )
        }
    }
}

impl Recipe {
    /// No more points survive than pass the crop, and no more pass the crop
    /// than there are.
    pub proof fn lemma_kept_bounded(self, points: Seq<Point>, draws: Seq<bool>)
        ensures
            self.kept(points, draws).len() <= self.seen(points) <= points.len(),
        decreases points.len(),
    {
        if points.len() > 0 {
            self.lemma_kept_bounded(points.drop_last(), draws.drop_last());
        }
    }

    /// Every surviving point lies within the crop.
    pub proof fn lemma_kept_in_crop(self, points: Seq<Point>, draws: Seq<bool>)
        ensures
            forall|i: int|
                0 <= i < self.kept(points, draws).len() ==> self.crop.contains(
                    #[trigger] self.kept(points, draws)[i],
                ),
        decreases points.len(),
    {
        if points.len() > 0 {
            self.lemma_kept_in_crop(points.drop_last(), draws.drop_last());
            let head = self.kept(points.drop_last(), draws.drop_last());
            assert forall|i: int| 0 <= i < self.kept(points, draws).len() implies self.crop.contains(
                #[trigger] self.kept(points, draws)[i],
            ) by {
                if i < head.len() {
                    assert(self.kept(points, draws)[i] == head[i]);
                    assert(self.crop.contains(head[i]));
                }
            }
        }
    }

    /// Whatever the points, the crop, the thinning and the cloth: every
    /// emitted point lies within the crop, and the emitted points are the
    /// survivors with nothing but their classification changed.
    pub proof fn lemma_emitted_in_crop(
        self,
        cloth: Option<SurfaceModel>,
        points: Seq<Point>,
        draws: Seq<bool>,
    )
        ensures
            self.emitted(cloth, points, draws).len() == self.kept(points, draws).len(),
            forall|i: int|
                0 <= i < self.emitted(cloth, points, draws).len() ==> {
                    &&& self.crop.contains(#[trigger] self.emitted(cloth, points, draws)[i])
                    &&& self.emitted(cloth, points, draws)[i].x == self.kept(points, draws)[i].x
                    &&& self.emitted(cloth, points, draws)[i].y == self.kept(points, draws)[i].y
                    &&& self.emitted(cloth, points, draws)[i].z == self.kept(points, draws)[i].z
                },
    {
        self.lemma_kept_in_crop(points, draws);
        assert forall|i: int| 0 <= i < self.emitted(cloth, points, draws).len() implies {
            &&& self.crop.contains(#[trigger] self.emitted(cloth, points, draws)[i])
            &&& self.emitted(cloth, points, draws)[i].x == self.kept(points, draws)[i].x
            &&& self.emitted(cloth, points, draws)[i].y == self.kept(points, draws)[i].y
            &&& self.emitted(cloth, points, draws)[i].z == self.kept(points, draws)[i].z
        } by {
            assert(self.crop.contains(self.kept(points, draws)[i]));
        }
    }

    /// With a bounding-box crop, the box of the emitted points lies within
    /// the crop box, unless nothing is emitted.
    pub proof fn lemma_emitted_bounds_in_crop(
        self,
        cloth: Option<SurfaceModel>,
        points: Seq<Point>,
        draws: Seq<bool>,
    )
        requires
            self.crop is BoundingBox,
            self.emitted(cloth, points, draws).len() > 0,
        ensures
            ({
                let hull = Bounds::of(self.emitted(cloth, points, draws));
                let lower_left = self.crop->lower_left;
                let upper_right = self.crop->upper_right;
                &&& lower_left.0 <= hull.min.x <= hull.max.x <= upper_right.0
                &&& lower_left.1 <= hull.min.y <= hull.max.y <= upper_right.1
            }),
    {
        self.lemma_emitted_in_crop(cloth, points, draws);
        let out = self.emitted(cloth, points, draws);
        assert forall|i: int| 0 <= i < out.len() implies {
            &&& self.crop->lower_left.0 <= (#[trigger] out[i]).x <= self.crop->upper_right.0
            &&& self.crop->lower_left.1 <= out[i].y <= self.crop->upper_right.1
        } by {
            assert(self.crop.contains(out[i]));
        }
        Bounds::lemma_of_within(out, self.crop->lower_left, self.crop->upper_right);
    }

    /// Thinning to every `nth` point keeps the point at index 0 of the
    /// cropped stream, and keeps `ceil(total / nth)` of the `total` points
    /// that pass the crop.
    pub proof fn lemma_every_nth_count(self, points: Seq<Point>, draws: Seq<bool>)
        requires
            self.thinning is EveryNth,
            self.thinning->EveryNth_nth > 0,
        ensures
            self.thinning.keeps(0, true) && self.thinning.keeps(0, false),
            self.kept(points, draws).len() == crate::units::ceil_div(
                self.seen(points) as int,
                self.thinning->EveryNth_nth as int,
            ),
        decreases points.len(),
    {
        let nth = self.thinning->EveryNth_nth as int;
        if points.len() == 0 {
            crate::units::lemma_ceil_div_step(0, nth);
        } else {
            self.lemma_every_nth_count(points.drop_last(), draws.drop_last());
            let s = self.seen(points.drop_last()) as int;
            crate::units::lemma_ceil_div_step(s, nth);
        }
    }

    /// Where the thinning makes no trial, the survivors do not depend on the
    /// outcomes of trials.
    pub proof fn lemma_kept_ignores_draws(self, points: Seq<Point>, first: Seq<bool>, second: Seq<bool>)
        requires
            self.thinning.deterministic(),
        ensures
            self.kept(points, first) == self.kept(points, second),
        decreases points.len(),
    {
        if points.len() > 0 {
            self.lemma_kept_ignores_draws(points.drop_last(), first.drop_last(), second.drop_last());
        }
    }

    /// Where the thinning makes no trial, a run has one outcome: two
    /// successful runs over the same points emit the same points.
    pub proof fn lemma_run_is_determined(
        self,
        points: Seq<Point>,
        draws: (Seq<bool>, Seq<bool>),
        other_draws: (Seq<bool>, Seq<bool>),
        outcome: Result<Seq<Point>, LaszyError>,
        other_outcome: Result<Seq<Point>, LaszyError>,
    )
        requires
            self.thinning.deterministic(),
            self.describes_run(points, draws.0, draws.1, outcome),
            self.describes_run(points, other_draws.0, other_draws.1, other_outcome),
        ensures
            outcome is Ok <==> other_outcome is Ok,
            outcome is Ok ==> outcome == other_outcome,
            outcome is Err ==> (outcome->Err_0 is EmptyCloud <==> other_outcome->Err_0 is EmptyCloud),
            outcome is Err ==> (outcome->Err_0 is LaszyError <==> other_outcome->Err_0 is LaszyError),
    {
        self.lemma_kept_ignores_draws(points, draws.0, other_draws.0);
        self.lemma_kept_ignores_draws(points, draws.1, other_draws.1);
    }

    /// Where no point lies within the crop, nothing survives; a run that is
    /// to reclassify ground points then fails with the empty-cloud error and
    /// emits nothing.
    pub proof fn lemma_disjoint_crop_starves(
        self,
        points: Seq<Point>,
        first: Seq<bool>,
        second: Seq<bool>,
        outcome: Result<Seq<Point>, LaszyError>,
    )
        requires
            forall|i: int| 0 <= i < points.len() ==> !self.crop.contains(#[trigger] points[i]),
            self.csf_filter is Some,
            self.valid(),
            self.describes_run(points, first, second, outcome),
        ensures
            self.kept(points, first).len() == 0,
            outcome is Err && outcome->Err_0 is EmptyCloud,
    {
        self.lemma_nothing_seen(points);
        self.lemma_kept_bounded(points, first);
        self.lemma_no_survivor_starves(points, first);
    }

    /// Where no point survives the first pass, the cloth stays
    /// unconstrained.
    pub proof fn lemma_no_survivor_starves(self, points: Seq<Point>, draws: Seq<bool>)
        requires
            self.csf_filter is Some,
            self.valid(),
            self.kept(points, draws).len() == 0,
        ensures
            self.starved(points, draws),
    {
        let (rigidness, resolution, simulation_threshold, classification_threshold) =
            self.csf_filter->Some_0;
        SurfaceModel::lemma_fresh_has_no_source(
            self.crop_corners().0,
            self.crop_corners().1,
            resolution,
            simulation_threshold,
            classification_threshold,
            rigidness,
            self.top_z() as i64,
        );
    }

    /// A run that is to reclassify ground points either fails or has a cloth
    /// in which no ceiling is zero: it never classifies against a cloth that
    /// no source point has constrained.
    pub proof fn lemma_run_never_simulates_unconstrained(
        self,
        points: Seq<Point>,
        first: Seq<bool>,
        second: Seq<bool>,
        outcome: Result<Seq<Point>, LaszyError>,
    )
        requires
            self.csf_filter is Some,
            self.valid(),
            self.describes_run(points, first, second, outcome),
        ensures
            outcome is Ok ==> ({
                let (rigidness, resolution, simulation_threshold, classification_threshold) =
                    self.csf_filter->Some_0;
                let cloth = self.cloth(
                    rigidness,
                    resolution,
                    simulation_threshold,
                    classification_threshold,
                    points,
                    first,
                );
                forall|i: int, j: int|
                    cloth.in_grid(i, j) ==> (#[trigger] cloth.cells[i][j]).max_z != 0
            }),
    {
        if outcome is Ok {
            let (rigidness, resolution, simulation_threshold, classification_threshold) =
                self.csf_filter->Some_0;
            let blank = self.blank_cloth(
                rigidness,
                resolution,
                simulation_threshold,
                classification_threshold,
            );
            SurfaceModel::lemma_fresh_wf(
                self.crop_corners().0,
                self.crop_corners().1,
                resolution,
                simulation_threshold,
                classification_threshold,
                rigidness,
                self.top_z() as i64,
            );
            let draped = self.draped_cloth(
                rigidness,
                resolution,
                simulation_threshold,
                classification_threshold,
                points,
                first,
            );
            blank.lemma_draped_all_wf(self.kept(points, first));
            draped.lemma_gap_filled();
            let filled = draped.gap_filled();
            filled.lemma_simulated_evolves(draped.max_iterations as nat);
            let cloth = draped.settled();
            assert forall|i: int, j: int| cloth.in_grid(i, j) implies (#[trigger] cloth.cells[i][j]).max_z
                != 0 by {
                assert(filled.cells[i][j].evolves_to(cloth.cells[i][j]));
                assert(filled.cells[i][j].max_z != 0);
            }
        }
    }

    /// Over flat input the first pass settles the cloth on the input: where
    /// every surviving point has the elevation `level`, one of them falls
    /// into a cell of the cloth, the cloth starts at or below `level`, the
    /// simulation threshold is no more than the rise that a sweep is sure to
    /// give the lowest node, and the simulation comes to rest within its
    /// sweeps, as it has in every cloth that a run hands out, every node of
    /// the cloth ends less than the
    /// simulation threshold below `level` and none above it; so each ends
    /// within the classification threshold of the input wherever that is not
    /// below the simulation threshold.
    pub proof fn lemma_flat_input_settles(
        self,
        parameters: (i64, i64, i64, i64),
        points: Seq<Point>,
        draws: Seq<bool>,
        level: int,
    )
        requires
            self.cloth_fits(parameters.0, parameters.1),
            parameters.2 <= crate::csf::settling::sure_rise(crate::csf::model::DISPLACEMENT as int),
            self.top_z() <= level,
            forall|k: int|
                0 <= k < self.kept(points, draws).len() ==> (#[trigger] self.kept(
                    points,
                    draws,
                )[k]).z == level,
            exists|k: int|
                0 <= k < self.kept(points, draws).len() && self.blank_cloth(
                    parameters.0,
                    parameters.1,
                    parameters.2,
                    parameters.3,
                ).cell_of(#[trigger] self.kept(points, draws)[k]) is Some,
            self.draped_cloth(
                parameters.0,
                parameters.1,
                parameters.2,
                parameters.3,
                points,
                draws,
            ).comes_to_rest(),
        ensures
            ({
                let cloth = self.cloth(
                    parameters.0,
                    parameters.1,
                    parameters.2,
                    parameters.3,
                    points,
                    draws,
                );
                &&& forall|i: int, j: int|
                    cloth.in_grid(i, j) ==> level - parameters.2 < (#[trigger] cloth.cells[i][j]).z
                        <= level
                &&& parameters.2 <= parameters.3 ==> forall|i: int, j: int|
                    cloth.in_grid(i, j) ==> crate::csf::model::abs_int(
                        (#[trigger] cloth.cells[i][j]).z - level,
                    ) < parameters.3
            }),
    {
        let blank = self.blank_cloth(parameters.0, parameters.1, parameters.2, parameters.3);
        SurfaceModel::lemma_fresh_wf(
            self.crop_corners().0,
            self.crop_corners().1,
            parameters.1,
            parameters.2,
            parameters.3,
            parameters.0,
            self.top_z() as i64,
        );
        assert(blank.laid_out_below(level)) by {
            assert forall|i: int, j: int| 0 <= i < blank.rows() && 0 <= j < blank.cols() implies {
                &&& (#[trigger] blank.cells[i][j]).z <= level
                &&& blank.cells[i][j].prev_z == blank.cells[i][j].z
                &&& blank.cells[i][j].is_moveable
                &&& blank.cells[i][j].max_z == 0
                &&& blank.cells[i][j].closest_pt_distance == u128::MAX
            } by {
                assert(blank.cells[i].len() == blank.cols());
            }
        }
        let kept = self.kept(points, draws);
        blank.lemma_flat_input_settles(kept, level);
        blank.lemma_draped_all_wf(kept);
        blank.draped_all(kept).lemma_gap_filled();
        blank.draped_all(kept).gap_filled().lemma_simulated_evolves(
            blank.draped_all(kept).max_iterations as nat,
        );
        let cloth = self.cloth(
            parameters.0,
            parameters.1,
            parameters.2,
            parameters.3,
            points,
            draws,
        );
        assert(cloth == blank.draped_all(kept).settled());
        assert(cloth.rows() == blank.rows() && cloth.cols() == blank.cols());
        assert forall|i: int, j: int| cloth.in_grid(i, j) implies level - parameters.2 < (
        #[trigger] cloth.cells[i][j]).z <= level by {
            assert(level - blank.simulation_threshold < blank.draped_all(
                kept,
            ).settled().cells[i][j].z);
        }
        if parameters.2 <= parameters.3 {
            assert forall|i: int, j: int| cloth.in_grid(i, j) implies crate::csf::model::abs_int(
                (#[trigger] cloth.cells[i][j]).z - level,
            ) < parameters.3 by {
                assert(level - parameters.2 < cloth.cells[i][j].z <= level);
            }
        }
    }

    /// Over flat input the first pass succeeds: where every surviving point
    /// has the elevation `level`, which is not zero, one of them falls into a
    /// cell of the cloth, the cloth starts at or below `level`, the
    /// simulation threshold is at least one unit, and the machine can count
    /// the units between the start and `level`, the simulation comes to rest
    /// and the cloth is handed out.
    pub proof fn lemma_flat_input_comes_to_rest(
        self,
        parameters: (i64, i64, i64, i64),
        points: Seq<Point>,
        draws: Seq<bool>,
        level: int,
        outcome: Result<SurfaceModel, LaszyError>,
    )
        requires
            self.cloth_fits(parameters.0, parameters.1),
            parameters.2 >= 1,
            level != 0,
            self.top_z() <= level,
            crate::csf::model::DEFAULT_MAX_ITERATIONS > level - self.top_z(),
            forall|k: int|
                0 <= k < self.kept(points, draws).len() ==> (#[trigger] self.kept(
                    points,
                    draws,
                )[k]).z == level,
            exists|k: int|
                0 <= k < self.kept(points, draws).len() && self.blank_cloth(
                    parameters.0,
                    parameters.1,
                    parameters.2,
                    parameters.3,
                ).cell_of(#[trigger] self.kept(points, draws)[k]) is Some,
            self.describes_cloth(
                parameters.0,
                parameters.1,
                parameters.2,
                parameters.3,
                points,
                draws,
                outcome,
            ),
        ensures
            self.draped_cloth(
                parameters.0,
                parameters.1,
                parameters.2,
                parameters.3,
                points,
                draws,
            ).comes_to_rest(),
            outcome is Ok,
    {
        let blank = self.blank_cloth(parameters.0, parameters.1, parameters.2, parameters.3);
        SurfaceModel::lemma_fresh_wf(
            self.crop_corners().0,
            self.crop_corners().1,
            parameters.1,
            parameters.2,
            parameters.3,
            parameters.0,
            self.top_z() as i64,
        );
        assert(blank.laid_out_below(level)) by {
            assert forall|i: int, j: int| 0 <= i < blank.rows() && 0 <= j < blank.cols() implies {
                &&& (#[trigger] blank.cells[i][j]).z <= level
                &&& blank.cells[i][j].prev_z == blank.cells[i][j].z
                &&& blank.cells[i][j].is_moveable
                &&& blank.cells[i][j].max_z == 0
                &&& blank.cells[i][j].closest_pt_distance == u128::MAX
            } by {
                assert(blank.cells[i].len() == blank.cols());
            }
        }
        assert forall|i: int, j: int| 0 <= i < blank.rows() && 0 <= j < blank.cols() implies self.top_z()
            <= (#[trigger] blank.cells[i][j]).z by {
            assert(blank.cells[i].len() == blank.cols());
        }
        let kept = self.kept(points, draws);
        blank.lemma_flat_input_comes_to_rest(kept, self.top_z(), level);
        blank.lemma_draped_all_flat(kept, level);
        let k = choose|k: int| 0 <= k < kept.len() && blank.cell_of(#[trigger] kept[k]) is Some;
        let (row, col) = blank.cell_of(kept[k])->Some_0;
        let draped = blank.draped_all(kept);
        assert(draped.cells[row][col].max_z == level);
        assert(draped.in_grid(row, col));
        assert(draped.has_source());
    }

    /// Where no point lies within the crop, none passes it.
    pub proof fn lemma_nothing_seen(self, points: Seq<Point>)
        requires
            forall|i: int| 0 <= i < points.len() ==> !self.crop.contains(#[trigger] points[i]),
        ensures
            self.seen(points) == 0,
        decreases points.len(),
    {
        if points.len() > 0 {
            assert(!self.crop.contains(points[points.len() - 1]));
            assert forall|i: int| 0 <= i < points.drop_last().len() implies !self.crop.contains(
                #[trigger] points.drop_last()[i],
            ) by {
                assert(points.drop_last()[i] == points[i]);
            }
            self.lemma_nothing_seen(points.drop_last());
        }
    }
}

/// Tests whether a text ends in the given suffix.
pub fn has_suffix(text: &str, suffix: &str) -> (found: bool)
    ensures
        found == ends_with(text@, suffix@),
{
    let n = text.unicode_len();
    let m = suffix.unicode_len();
    if n < m {
        return false;
    }
    let start = n - m;
    let mut k: usize = 0;
    while k < m
        invariant
            k <= m,
            n == text@.len(),
            m == suffix@.len(),
            start == n - m,
            forall|i: int| 0 <= i < k ==> text@[start + i] == #[trigger] suffix@[i],
        decreases m - k,
    {
        if text.get_char(start + k) != suffix.get_char(k) {
            proof {
                assert(text@.subrange(n - m, n as int)[k as int] == text@[start + k]);
            }
            return false;
        }
        k += 1;
    }
    proof {
        assert(text@.subrange(n - m, n as int) =~= suffix@);
    }
    true
}

impl PassState {
    /// The counters at the start of a pass.
    pub fn new() -> (state: PassState)
        ensures
            state.thin_count == 0,
            state.count == 0,
    {
        PassState { thin_count: 0, count: 0 }
    }
}

/// Configures and runs the preparation of a point cloud: crop, thinning and,
/// optionally, a reclassification of ground points by cloth simulation.
pub struct PointCloudBuilder {
    filepaths: Vec<String>,
    metadata: Metadata,
    crop: CroppingMethod,
    thinning: ThinningMethod,
    csf_filter: Option<(i64, i64, i64, i64)>,
}

impl View for PointCloudBuilder {
    type V = Recipe;

    closed spec fn view(&self) -> Recipe {
        Recipe {
            crop: self.crop,
            thinning: self.thinning,
            csf_filter: self.csf_filter,
            bounds: self.metadata.spec_bounds(),
        }
    }
}

impl PointCloudBuilder {
    /// The paths of the source files.
    pub closed spec fn spec_filepaths(&self) -> Seq<String> {
        self.filepaths@
    }

    /// The summary of the source.
    pub closed spec fn spec_metadata(&self) -> Metadata {
        self.metadata
    }

    /// A builder for the given source files that crops nothing, thins
    /// nothing and reclassifies nothing.
    pub fn new(filepaths: Vec<String>, metadata: Metadata) -> (builder: PointCloudBuilder)
        ensures
            builder.spec_filepaths() == filepaths@,
            builder.spec_metadata() == metadata,
            builder@ == (Recipe {
                crop: CroppingMethod::Off,
                thinning: ThinningMethod::Off,
                csf_filter: None,
                bounds: metadata.spec_bounds(),
            }),
    {
        PointCloudBuilder {
            filepaths,
            metadata,
            crop: CroppingMethod::Off,
            thinning: ThinningMethod::Off,
            csf_filter: None,
        }
    }

    /// The paths of the source files.
    pub fn filepaths(&self) -> (paths: &Vec<String>)
        ensures
            paths@ == self.spec_filepaths(),
    {
        &self.filepaths
    }

    /// The summary of the source.
    pub fn get_metadata(&self) -> (metadata: &Metadata)
        ensures
            *metadata == self.spec_metadata(),
            metadata.spec_bounds() == self@.bounds,
    {
        &self.metadata
    }

    /// The crop that the next run applies.
    pub fn crop(&self) -> (crop: CroppingMethod)
        ensures
            crop == self@.crop,
    {
        self.crop
    }

    /// The thinning method that the next run applies.
    pub fn thinning(&self) -> (method: ThinningMethod)
        ensures
            method == self@.thinning,
    {
        self.thinning
    }

    /// Rigidness, cloth resolution, simulation threshold and classification
    /// threshold of the ground reclassification, if one is asked for.
    pub fn csf_filter(&self) -> (parameters: Option<(i64, i64, i64, i64)>)
        ensures
            parameters == self@.csf_filter,
    {
        self.csf_filter
    }

    /// Sets the crop. It takes effect in the next run.
    pub fn with_crop(&mut self, crop: CroppingMethod) -> (builder: &mut Self)
        ensures
            builder@ == (Recipe { crop, ..old(self)@ }),
            builder.spec_filepaths() == old(self).spec_filepaths(),
            builder.spec_metadata() == old(self).spec_metadata(),
            *final(self) == *final(builder),
    {
        self.crop = crop;
        self
    }

    /// Sets the thinning method. It takes effect in the next run.
    pub fn with_thinning(&mut self, method: ThinningMethod) -> (builder: &mut Self)
        ensures
            builder@ == (Recipe { thinning: method, ..old(self)@ }),
            builder.spec_filepaths() == old(self).spec_filepaths(),
            builder.spec_metadata() == old(self).spec_metadata(),
            *final(self) == *final(builder),
    {
        self.thinning = method;
        self
    }

    /// Sets the thinning to independent trials that keep a point with
    /// probability `keep_percentage / 1000`. It takes effect in the next run.
    pub fn with_thinning_random(&mut self, keep_percentage: u32) -> (builder: &mut Self)
        ensures
            builder@ == (Recipe {
                thinning: ThinningMethod::Random { percent: keep_percentage },
                ..old(self)@
            }),
            builder.spec_filepaths() == old(self).spec_filepaths(),
            builder.spec_metadata() == old(self).spec_metadata(),
            *final(self) == *final(builder),
    {
        self.with_thinning(ThinningMethod::Random { percent: keep_percentage })
    }

    /// Sets the thinning to every `nth` point, the first one included. It
    /// takes effect in the next run.
    pub fn with_thinning_every_nth(&mut self, nth: usize) -> (builder: &mut Self)
        ensures
            builder@ == (Recipe { thinning: ThinningMethod::EveryNth { nth }, ..old(self)@ }),
            builder.spec_filepaths() == old(self).spec_filepaths(),
            builder.spec_metadata() == old(self).spec_metadata(),
            *final(self) == *final(builder),
    {
        self.with_thinning(ThinningMethod::EveryNth { nth })
    }

    /// Asks for a reclassification of ground points by cloth simulation.
    /// `rigidness` is the share of half a height difference that neighbouring
    /// nodes exchange, in per mille; `cloth_resolution` the distance between
    /// nodes; a simulation stops after the first sweep that moves no node as
    /// far as `simulation_threshold`; a point closer to the cloth than
    /// `classification_threshold` is ground. It takes effect in the next run.
    pub fn with_csf_ground_reclassification(
        &mut self,
        rigidness: i64,
        cloth_resolution: i64,
        simulation_threshold: i64,
        classification_threshold: i64,
    ) -> (builder: &mut Self)
        ensures
            builder@ == (Recipe {
                csf_filter: Some(
                    (rigidness, cloth_resolution, simulation_threshold, classification_threshold),
                ),
                ..old(self)@
            }),
            builder.spec_filepaths() == old(self).spec_filepaths(),
            builder.spec_metadata() == old(self).spec_metadata(),
            *final(self) == *final(builder),
    {
        self.csf_filter = Some(
            (rigidness, cloth_resolution, simulation_threshold, classification_threshold),
        );
        self
    }

    /// The corners of the area that a cloth has to cover: the crop box, or
    /// the source's bounds where nothing is cropped.
    pub fn get_crop_corners(&self) -> (corners: ((i64, i64), (i64, i64)))
        ensures
            corners == self@.crop_corners(),
    {
        match self.crop {
            CroppingMethod::Off => {
                let bounds = self.metadata.bounds();
                ((bounds.min.x, bounds.min.y), (bounds.max.x, bounds.max.y))
            },
            CroppingMethod::BoundingBox { lower_left, upper_right } => (lower_left, upper_right),
        }
    }
}

/// The outcome of the first pass with the cloth replaced by its content.
pub open spec fn cloth_outcome(r: Result<ClothSurface, LaszyError>) -> Result<
    SurfaceModel,
    LaszyError,
> {
    match r {
        Ok(cloth) => Ok(cloth@),
        Err(e) => Err(e),
    }
}

/// The content of the cloth, if there is one.
pub open spec fn cloth_content(cloth: Option<ClothSurface>) -> Option<SurfaceModel> {
    match cloth {
        Some(c) => Some(c@),
        None => None,
    }
}

/// The outcome of a run with the list of points replaced by its content.
pub open spec fn run_outcome(r: Result<Vec<Point>, LaszyError>) -> Result<Seq<Point>, LaszyError> {
    match r {
        Ok(points) => Ok(points@),
        Err(e) => Err(e),
    }
}

/// The outcome of a run into a cloud with the cloud replaced by its content.
pub open spec fn cloud_outcome(r: Result<PointCloud, LaszyError>) -> Result<Seq<Point>, LaszyError> {
    match r {
        Ok(cloud) => Ok(cloud@),
        Err(e) => Err(e),
    }
}

impl PointCloudBuilder {
    /// Decides about the next point of a pass and advances the pass's
    /// counters. A point outside the crop is dropped without a trial. A point
    /// inside is kept or dropped by the thinning method, at its index among
    /// the points that passed the crop; an unsupported method is reported.
    pub fn screen(&self, state: &mut PassState, point: &Point) -> (r: Result<bool, LaszyError>)
        requires
            old(state).thin_count < usize::MAX,
            old(state).count <= old(state).thin_count,
        ensures
            final(state).count <= final(state).thin_count,
            !self@.crop.contains(*point) ==> r == Ok::<bool, LaszyError>(false) && *final(state)
                == *old(state),
            self@.crop.contains(*point) && !self@.thinning.supported() ==> r is Err && r->Err_0 is LaszyError
                && *final(state) == *old(state),
            self@.crop.contains(*point) && self@.thinning.supported() ==> exists|draw: bool|
                {
                    &&& self@.thinning.may_draw(draw)
                    &&& r == Ok::<bool, LaszyError>(
                        #[trigger] self@.thinning.keeps(old(state).thin_count as nat, draw),
                    )
                    &&& final(state).thin_count == old(state).thin_count + 1
                    &&& final(state).count == old(state).count + if self@.thinning.keeps(
                        old(state).thin_count as nat,
                        draw,
                    ) {
                        1int
                    } else {
                        0int
                    }
                },
    {
        if !self.crop.is_in_bounds(point) {
            return Ok(false);
        }
        match self.thinning.is_included(state.thin_count) {
            Ok(included) => {
                proof {
                    let draw = choose|draw: bool|
                        self@.thinning.may_draw(draw) && Ok::<bool, LaszyError>(included) == Ok::<
                            bool,
                            LaszyError,
                        >(#[trigger] self@.thinning.keeps(old(state).thin_count as nat, draw));
                    assert(self@.thinning.keeps(old(state).thin_count as nat, draw) == included);
                }
                state.thin_count = state.thin_count + 1;
                if included {
                    state.count = state.count + 1;
                }
                Ok(included)
            },
            Err(e) => Err(e),
        }
    }

    /// Reclassifies a point against a simulated cloth: the point becomes
    /// ground where the cloth says so; a ground point becomes unclassified
    /// where the cloth says otherwise; any other point is left as it is.
    pub fn reclassify(cloth: &ClothSurface, point: Point) -> (r: Point)
        requires
            cloth@.wf(),
        ensures
            r == relabelled(cloth@, point),
    {
        if cloth.is_ground_point(&point) {
            Point { x: point.x, y: point.y, z: point.z, classification: GROUND }
        } else if point.classification == GROUND {
            Point { x: point.x, y: point.y, z: point.z, classification: UNCLASSIFIED }
        } else {
            point
        }
    }

    /// Lays out the cloth for a first pass: over the crop box, or over the
    /// source's bounds where nothing is cropped, ten metres below the lowest
    /// source point. An area or a parameter that no cloth can be laid out
    /// for is reported as a configuration error.
    pub fn lay_cloth(
        &self,
        rigidness: i64,
        cell_resolution: i64,
        simulation_threshold: i64,
        classification_threshold: i64,
    ) -> (r: Result<ClothSurface, LaszyError>)
        ensures
            self@.cloth_fits(rigidness, cell_resolution) ==> r is Ok && r->Ok_0@.wf()
                && r->Ok_0@ == self@.blank_cloth(
                rigidness,
                cell_resolution,
                simulation_threshold,
                classification_threshold,
            ),
            !self@.cloth_fits(rigidness, cell_resolution) ==> r is Err && r->Err_0 is LaszyError,
    {
        let (ll, ur) = self.get_crop_corners();
        let lowest = self.metadata.bounds().min.z;
        if lowest < i64::MIN + CLOTH_START_DEPTH || !ClothSurface::can_initialize(
            ll,
            ur,
            cell_resolution,
            rigidness,
        ) {
            return Err(
                LaszyError::LaszyError(
                    "unsupported configuration: no cloth can be laid out over the area".to_owned(),
                ),
            );
        }
        Ok(
            ClothSurface::initialize(
                ll,
                ur,
                cell_resolution,
                simulation_threshold,
                classification_threshold,
                rigidness,
                lowest - CLOTH_START_DEPTH,
            ),
        )
    }

    /// Ends a first pass: where the points shown to the cloth have left
    /// every ceiling at zero the pass fails as empty, and nothing is
    /// simulated; else the cloth's gaps are filled and the cloth is
    /// simulated. A cloth that has not come to rest when its sweeps are used
    /// up is not handed out: the pass fails with a configuration error. With
    /// a simulation threshold below one unit that is certain, and the pass
    /// fails without making the sweeps.
    pub fn settle_cloth(cloth: ClothSurface) -> (r: Result<ClothSurface, LaszyError>)
        requires
            cloth@.wf(),
        ensures
            !cloth@.has_source() ==> r is Err && r->Err_0 is EmptyCloud,
            cloth@.has_source() && !cloth@.comes_to_rest() ==> r is Err && r->Err_0 is LaszyError,
            cloth@.has_source() && cloth@.comes_to_rest() ==> r is Ok && r->Ok_0@
                == cloth@.settled() && r->Ok_0@.wf(),
            r is Ok && cloth@.all_free() ==> r->Ok_0@.anchored(),
    {
        if !cloth.has_source() {
            return Err(
                LaszyError::EmptyCloud(
                    "The provided cropping and thinning methods left no point that constrains the simulation.".to_owned(),
                ),
            );
        }
        let mut cloth = cloth;
        cloth.fix_zero_max_heights();
        proof {
            if cloth@.all_free() {
                cloth@.lemma_all_free_is_anchored();
            }
        }
        if cloth.simulation_threshold() <= 0 {
            proof {
                cloth@.lemma_no_rest_without_threshold(cloth@.max_iterations as nat);
            }
            return Err(
                LaszyError::LaszyError(
                    "unsupported configuration: no sweep is below a simulation threshold of less than one unit".to_owned(),
                ),
            );
        }
        let report = cloth.simulate();
        if !report.still {
            return Err(
                LaszyError::LaszyError(
                    "unsupported configuration: the simulation did not come to rest within its sweeps".to_owned(),
                ),
            );
        }
        Ok(cloth)
    }

    /// Runs the first pass over the source points: lays out the cloth, shows
    /// it every point that survives crop and thinning, fills its gaps and
    /// simulates it. Fails with a configuration error if the thinning method
    /// is unsupported or no cloth can be laid out, and with the empty-cloud
    /// error if the survivors leave every ceiling at zero, as they do if no
    /// point survives, if every survivor falls beside the grid, or if every
    /// survivor has the elevation zero. A cloth that is returned has come to
    /// rest; one that has not when its sweeps are used up is a configuration
    /// error.
    pub fn perform_csf_simulation(
        &self,
        points: &Vec<Point>,
        rigidness: i64,
        cell_resolution: i64,
        simulation_threshold: i64,
        classification_threshold: i64,
    ) -> (r: Result<ClothSurface, LaszyError>)
        ensures
            !(self@.thinning.supported() && self@.cloth_fits(rigidness, cell_resolution)) ==> r is Err
                && r->Err_0 is LaszyError,
            self@.thinning.supported() && self@.cloth_fits(rigidness, cell_resolution) ==> exists|
                draws: Seq<bool>,
            | #[trigger]
                self@.describes_cloth(
                    rigidness,
                    cell_resolution,
                    simulation_threshold,
                    classification_threshold,
                    points@,
                    draws,
                    cloth_outcome(r),
                ),
            r is Ok ==> r->Ok_0@.wf() && r->Ok_0@.anchored(),
    {
        if !self.thinning.is_supported() {
            return Err(
                LaszyError::LaszyError(
                    "unsupported configuration: thinning method cannot be applied".to_owned(),
                ),
            );
        }
        let mut cloth = match self.lay_cloth(
            rigidness,
            cell_resolution,
            simulation_threshold,
            classification_threshold,
        ) {
            Ok(cloth) => cloth,
            Err(e) => {
                return Err(e);
            },
        };
        let ghost blank = cloth@;
        let ghost mut draws: Seq<bool> = Seq::empty();
        let mut state = PassState::new();
        let n = points.len();
        let mut i: usize = 0;
        while i < n
            invariant
                i <= n,
                n == points@.len(),
                self@.thinning.supported(),
                blank.wf(),
                cloth@.wf(),
                self@.possible_draws(draws, i as nat),
                state.thin_count == self@.seen(points@.take(i as int)),
                state.count == self@.kept(points@.take(i as int), draws).len(),
                state.count <= state.thin_count <= i,
                cloth@ == blank.draped_all(self@.kept(points@.take(i as int), draws)),
                cloth@.all_free(),
            decreases n - i,
        {
            let ghost before = points@.take(i as int);
            let ghost thin_before = state.thin_count;
            let ghost sofar = self@.kept(before, draws);
            let point = points[i];
            let admitted = match self.screen(&mut state, &point) {
                Ok(admitted) => admitted,
                Err(e) => {
                    return Err(e);
                },
            };
            proof {
                let draw = if self@.crop.contains(point) {
                    choose|draw: bool|
                        {
                            &&& self@.thinning.may_draw(draw)
                            &&& Ok::<bool, LaszyError>(admitted) == Ok::<bool, LaszyError>(
                                #[trigger] self@.thinning.keeps(thin_before as nat, draw),
                            )
                            &&& state.thin_count == thin_before + 1
                            &&& state.count == sofar.len() + if self@.thinning.keeps(
                                thin_before as nat,
                                draw,
                            ) {
                                1int
                            } else {
                                0int
                            }
                        }
                } else {
                    self@.thinning.some_draw()
                };
                let ghost_draws = draws.push(draw);
                assert(points@.take(i + 1).drop_last() =~= before);
                assert(points@.take(i + 1).last() == point);
                assert(ghost_draws.drop_last() =~= draws);
                assert(self@.admits(before, point, draw) == admitted);
                draws = ghost_draws;
                if admitted {
                    assert(sofar.push(point).drop_last() =~= sofar);
                }
            }
            if admitted {
                cloth.set_max_z_if_closest_to_particle(&point);
            }
            i += 1;
        }
        proof {
            assert(points@.take(n as int) =~= points@);
        }
        let r = Self::settle_cloth(cloth);
        proof {
            assert(self@.describes_cloth(
                rigidness,
                cell_resolution,
                simulation_threshold,
                classification_threshold,
                points@,
                draws,
                cloth_outcome(r),
            ));
        }
        r
    }

    /// Runs the recipe over the source points and returns the points that
    /// it emits, in stream order. With a reclassification the source is
    /// passed over twice: once to build and simulate the cloth, once to
    /// filter again, with fresh counters and fresh trials, and classify each
    /// survivor against the cloth.
    pub fn run_building_iterator(&self, points: &Vec<Point>) -> (r: Result<Vec<Point>, LaszyError>)
        ensures
            !self@.valid() ==> r is Err && r->Err_0 is LaszyError,
            self@.valid() ==> exists|first: Seq<bool>, second: Seq<bool>| #[trigger]
                self@.describes_run(points@, first, second, run_outcome(r)),
    {
        if !self.thinning.is_supported() {
            return Err(
                LaszyError::LaszyError(
                    "unsupported configuration: thinning method cannot be applied".to_owned(),
                ),
            );
        }
        let n = points.len();
        let ghost mut first: Seq<bool> = Seq::new(n as nat, |i: int| self@.thinning.some_draw());
        let cloth: Option<ClothSurface> = match self.csf_filter {
            Some((rigidness, resolution, simulation_threshold, classification_threshold)) => {
                let made = self.perform_csf_simulation(
                    points,
                    rigidness,
                    resolution,
                    simulation_threshold,
                    classification_threshold,
                );
                proof {
                    if self@.valid() {
                        first = choose|draws: Seq<bool>| #[trigger]
                            self@.describes_cloth(
                                rigidness,
                                resolution,
                                simulation_threshold,
                                classification_threshold,
                                points@,
                                draws,
                                cloth_outcome(made),
                            );
                    }
                }
                match made {
                    Ok(cloth) => Some(cloth),
                    Err(e) => {
                        proof {
                            if self@.valid() {
                                assert(self@.describes_run(
                                    points@,
                                    first,
                                    Seq::new(n as nat, |i: int| self@.thinning.some_draw()),
                                    run_outcome(Err(e)),
                                ));
                            }
                        }
                        return Err(e);
                    },
                }
            },
            None => None,
        };
        let ghost surface: Option<SurfaceModel> = cloth_content(cloth);
        assert(surface == self@.cloth_for(points@, first));
        let ghost mut second: Seq<bool> = Seq::empty();
        let mut out: Vec<Point> = Vec::new();
        let mut state = PassState::new();
        let mut i: usize = 0;
        while i < n
            invariant
                i <= n,
                n == points@.len(),
                self@.thinning.supported(),
                surface == cloth_content(cloth),
                cloth is Some ==> cloth->Some_0@.wf(),
                self@.possible_draws(second, i as nat),
                state.thin_count == self@.seen(points@.take(i as int)),
                state.count <= state.thin_count <= i,
                out@ == self@.emitted(surface, points@.take(i as int), second),
            decreases n - i,
        {
            let ghost before = points@.take(i as int);
            let ghost thin_before = state.thin_count;
            let ghost sofar = self@.kept(before, second);
            let ghost count_before = state.count;
            let point = points[i];
            let admitted = match self.screen(&mut state, &point) {
                Ok(admitted) => admitted,
                Err(e) => {
                    return Err(e);
                },
            };
            proof {
                let draw = if self@.crop.contains(point) {
                    choose|draw: bool|
                        {
                            &&& self@.thinning.may_draw(draw)
                            &&& Ok::<bool, LaszyError>(admitted) == Ok::<bool, LaszyError>(
                                #[trigger] self@.thinning.keeps(thin_before as nat, draw),
                            )
                            &&& state.thin_count == thin_before + 1
                            &&& state.count == count_before + if self@.thinning.keeps(
                                thin_before as nat,
                                draw,
                            ) {
                                1int
                            } else {
                                0int
                            }
                        }
                } else {
                    self@.thinning.some_draw()
                };
                let ghost_draws = second.push(draw);
                assert(points@.take(i + 1).drop_last() =~= before);
                assert(points@.take(i + 1).last() == point);
                assert(ghost_draws.drop_last() =~= second);
                assert(self@.admits(before, point, draw) == admitted);
                second = ghost_draws;
            }
            if admitted {
                let emitted = match &cloth {
                    Some(c) => Self::reclassify(c, point),
                    None => point,
                };
                out.push(emitted);
                proof {
                    match surface {
                        Some(s) => {
                            assert(sofar.push(point).map_values(|p: Point| relabelled(s, p))
                                =~= sofar.map_values(|p: Point| relabelled(s, p)).push(
                                relabelled(s, point),
                            ));
                        },
                        None => {},
                    }
                }
            }
            i += 1;
        }
        proof {
            assert(points@.take(n as int) =~= points@);
            assert(self@.describes_run(points@, first, second, run_outcome(Ok(out))));
        }
        Ok(out)
    }

    /// Runs the recipe over the source points and gathers what it emits in a
    /// cloud.
    pub fn to_cloud(&self, points: &Vec<Point>) -> (r: Result<PointCloud, LaszyError>)
        ensures
            !self@.valid() ==> r is Err && r->Err_0 is LaszyError,
            self@.valid() ==> exists|first: Seq<bool>, second: Seq<bool>| #[trigger]
                self@.describes_run(points@, first, second, cloud_outcome(r)),
            r is Ok ==> r->Ok_0.wf(),
    {
        match self.run_building_iterator(points) {
            Ok(emitted) => {
                let ghost seq = emitted@;
                let mut cloud = PointCloud::new();
                cloud.add_points(emitted);
                proof {
                    assert(cloud@ =~= seq);
                    if self@.valid() {
                        let (first, second) = choose|first: Seq<bool>, second: Seq<bool>| #[trigger]
                            self@.describes_run(
                                points@,
                                first,
                                second,
                                Ok::<Seq<Point>, LaszyError>(seq),
                            );
                        assert(self@.describes_run(points@, first, second, cloud_outcome(Ok(cloud))));
                    }
                }
                Ok(cloud)
            },
            Err(e) => {
                proof {
                    if self@.valid() {
                        let (first, second) = choose|first: Seq<bool>, second: Seq<bool>| #[trigger]
                            self@.describes_run(
                                points@,
                                first,
                                second,
                                Err::<Seq<Point>, LaszyError>(e),
                            );
                        assert(self@.describes_run(points@, first, second, cloud_outcome(Err(e))));
                    }
                }
                Err(e)
            },
        }
    }

    /// Runs the recipe over the source points and returns the records to be
    /// written to the point file at `filepath`, which must end in `.las` or
    /// `.laz`.
    pub fn to_file(&self, filepath: &String, points: &Vec<Point>) -> (r: Result<
        Vec<Point>,
        LaszyError,
    >)
        ensures
            !names_point_file(filepath@) ==> r is Err && r->Err_0 is InvalidFileExtension,
            names_point_file(filepath@) && !self@.valid() ==> r is Err && r->Err_0 is LaszyError,
            names_point_file(filepath@) && self@.valid() ==> exists|
                first: Seq<bool>,
                second: Seq<bool>,
            | #[trigger] self@.describes_run(points@, first, second, run_outcome(r)),
    {
        if !has_suffix(filepath.as_str(), ".las") && !has_suffix(filepath.as_str(), ".laz") {
            return Err(LaszyError::InvalidFileExtension(filepath.clone()));
        }
        self.run_building_iterator(points)
    }

    /// Simulates a cloth over the source points and returns it as the text
    /// of a raster file for `filepath`, which must end in `.asc`. No point is
    /// reclassified. Fails with the empty-cloud error if the survivors leave
    /// every ceiling of the cloth at zero.
    pub fn to_dtm_using_csf(
        &self,
        filepath: &String,
        points: &Vec<Point>,
        rigidness: i64,
        cloth_resolution: i64,
        distance_threshold: i64,
    ) -> (r: Result<String, LaszyError>)
        ensures
            !names_raster_file(filepath@) ==> r is Err && r->Err_0 is InvalidFileExtension,
            names_raster_file(filepath@) && !(self@.thinning.supported() && self@.cloth_fits(
                rigidness,
                cloth_resolution,
            )) ==> r is Err && r->Err_0 is LaszyError,
            names_raster_file(filepath@) && self@.thinning.supported() && self@.cloth_fits(
                rigidness,
                cloth_resolution,
            ) ==> exists|draws: Seq<bool>|
                {
                    &&& self@.possible_draws(draws, points@.len())
                    &&& if !(#[trigger] self@.draped_cloth(
                        rigidness,
                        cloth_resolution,
                        distance_threshold,
                        0,
                        points@,
                        draws,
                    )).has_source() {
                        r is Err && r->Err_0 is EmptyCloud
                    } else if !self@.draped_cloth(
                        rigidness,
                        cloth_resolution,
                        distance_threshold,
                        0,
                        points@,
                        draws,
                    ).comes_to_rest() {
                        r is Err && r->Err_0 is LaszyError
                    } else {
                        r is Ok && r->Ok_0@ == self@.cloth(
                            rigidness,
                            cloth_resolution,
                            distance_threshold,
                            0,
                            points@,
                            draws,
                        ).asc_text()
                    }
                },
    {
        if !has_suffix(filepath.as_str(), ".asc") {
            return Err(LaszyError::InvalidFileExtension(filepath.clone()));
        }
        match self.perform_csf_simulation(
            points,
            rigidness,
            cloth_resolution,
            distance_threshold,
            0,
        ) {
            Ok(cloth) => {
                let text = cloth.to_asc();
                proof {
                    let draws = choose|draws: Seq<bool>| #[trigger]
                        self@.describes_cloth(
                            rigidness,
                            cloth_resolution,
                            distance_threshold,
                            0,
                            points@,
                            draws,
                            cloth_outcome(Ok(cloth)),
                        );
                    let draped = self@.draped_cloth(
                        rigidness,
                        cloth_resolution,
                        distance_threshold,
                        0,
                        points@,
                        draws,
                    );
                    assert(draped.has_source() && draped.comes_to_rest());
                }
                Ok(text)
            },
            Err(e) => {
                proof {
                    if self@.thinning.supported() && self@.cloth_fits(rigidness, cloth_resolution) {
                        let draws = choose|draws: Seq<bool>| #[trigger]
                            self@.describes_cloth(
                                rigidness,
                                cloth_resolution,
                                distance_threshold,
                                0,
                                points@,
                                draws,
                                cloth_outcome(Err(e)),
                            );
                        let draped = self@.draped_cloth(
                            rigidness,
                            cloth_resolution,
                            distance_threshold,
                            0,
                            points@,
                            draws,
                        );
                        assert(!draped.has_source() || !draped.comes_to_rest());
                    }
                }
                Err(e)
            },
        }
    }
}

} // verus!
