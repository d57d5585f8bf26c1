use crate::error::LaszyError;
use rand::Rng;
use vstd::prelude::*;

verus! {

/// How a run reduces the number of points that survived the crop.
#[derive(Clone, Copy, Debug)]
pub enum ThinningMethod {
    /// Every point is kept.
    Off,
    /// Each point is kept by an independent trial that succeeds with
    /// probability `percent / 1000`.
    Random { percent: u32 },
    /// The points at indices `0`, `nth`, `2 * nth`, ... are kept.
    EveryNth { nth: usize },
    /// Declared for future use; no run supports it.
    EveryNthRandom { nth: usize },
    /// Declared for future use; no run supports it.
    Grid2D { cell_amount: usize, max_points_per_cell: usize },
    /// Declared for future use; no run supports it.
    Grid3D { cell_amount: usize, max_points_per_cell: usize },
}

/// One trial of `rand::Rng::gen_ratio` on `rand::thread_rng()`: true with
/// probability `numerator / denominator`. The outcome is certain only at the
/// two ends of the scale.
#[verifier::external_body]
fn draw_ratio(numerator: u32, denominator: u32) -> (success: bool)
    requires
        denominator > 0,
        numerator <= denominator,
    ensures
        numerator == denominator ==> success,
        numerator == 0 ==> !success,
{
    rand::thread_rng().gen_ratio(numerator, denominator)
}

impl ThinningMethod {
    /// Whether a run can apply the method: it is one of the three implemented
    /// variants, a probability is at most one and a stride is not zero.
    pub open spec fn supported(self) -> bool {
        match self {
            ThinningMethod::Off => true,
            ThinningMethod::Random { percent } => percent <= 1000,
            ThinningMethod::EveryNth { nth } => nth > 0,
            _ => false,
        }
    }

    /// Whether the outcome depends on nothing but the index.
    pub open spec fn deterministic(self) -> bool {
        self is Off || self is EveryNth
    }

    /// Whether a supported method keeps the point at `index` of the cropped
    /// stream, given the outcome `draw` of the trial made for that point.
    pub open spec fn keeps(self, index: nat, draw: bool) -> bool {
        match self {
            ThinningMethod::Off => true,
            ThinningMethod::Random { percent } => draw,
            ThinningMethod::EveryNth { nth } => index % (nth as nat) == 0,
            _ => false,
        }
    }

    /// Whether `draw` is a possible outcome of the trial that the method makes.
    pub open spec fn may_draw(self, draw: bool) -> bool {
        match self {
            ThinningMethod::Random { percent } => {
                &&& percent == 0 ==> !draw
                &&& percent == 1000 ==> draw
            },
            _ => true,
        }
    }

    /// An outcome that the method's trial can have.
    pub open spec fn some_draw(self) -> bool {
        match self {
            ThinningMethod::Random { percent } => percent == 1000,
            _ => false,
        }
    }

    /// Tests whether a run can apply the method.
    pub fn is_supported(&self) -> (ok: bool)
        ensures
            ok == self.supported(),
    {
        match self {
            ThinningMethod::Off => true,
            ThinningMethod::Random { percent } => *percent <= 1000,
            ThinningMethod::EveryNth { nth } => *nth > 0,
            _ => false,
        }
    }

    /// Decides about the point at `index` of the cropped stream once the
    /// trial for it has been made. An unsupported method is reported as a
    /// configuration error.
    pub fn decide(&self, index: usize, draw: bool) -> (r: Result<bool, LaszyError>)
        ensures
            self.supported() ==> r == Ok::<bool, LaszyError>(self.keeps(index as nat, draw)),
            !self.supported() ==> r is Err && r->Err_0 is LaszyError,
    {
        match self {
            ThinningMethod::Off => Ok(true),
            ThinningMethod::Random { percent } => {
                if *percent <= 1000 {
                    Ok(draw)
                } else {
                    Err(LaszyError::LaszyError("unsupported configuration: keep probability above one".to_owned()))
                }
            },
            ThinningMethod::EveryNth { nth } => {
                if *nth > 0 {
                    Ok(index % *nth == 0)
                } else {
                    Err(LaszyError::LaszyError("unsupported configuration: stride of zero".to_owned()))
                }
            },
            _ => Err(LaszyError::LaszyError("unsupported configuration: thinning method is not implemented".to_owned())),
        }
    }

    /// Decides about the point at `index` of the cropped stream, making the
    /// random trial where the method calls for one. For `Off` and `EveryNth`
    /// the answer is fixed by the index; for `Random` it is whatever the trial
    /// gave, and two calls may differ.
    pub fn is_included(&self, index: usize) -> (r: Result<bool, LaszyError>)
        ensures
            self.supported() ==> exists|draw: bool|
                self.may_draw(draw) && r == Ok::<bool, LaszyError>(
                    #[trigger] self.keeps(index as nat, draw),
                ),
            !self.supported() ==> r is Err && r->Err_0 is LaszyError,
    {
        let draw = match self {
            ThinningMethod::Random { percent } => {
                if *percent <= 1000 {
                    draw_ratio(*percent, 1000)
                } else {
                    false
                }
            },
            _ => false,
        };
        let r = self.decide(index, draw);
        proof {
            if self.supported() {
                assert(self.may_draw(draw) && r == Ok::<bool, LaszyError>(
                    self.keeps(index as nat, draw),
                ));
            }
        }
        r
    }
}

impl Default for ThinningMethod {
    fn default() -> (method: ThinningMethod)
        ensures
            method == ThinningMethod::Off,
    {
        ThinningMethod::Off
    }
}

} // verus!
