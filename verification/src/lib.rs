//! Streaming preparation of airborne laser-scan point clouds.
//!
//! A [`PointCloudBuilder`] is configured with a crop, a thinning rule and,
//! optionally, the parameters of a cloth simulation that re-labels ground
//! points.  Every real-valued quantity is held as an integer count of
//! thousandths: lengths and coordinates in millimetres, ratios in per mille.
//! Reading and writing point files is left to the caller; the library takes
//! and returns plain point records.
pub mod error;
pub mod units;
pub mod point;
pub mod cropping;
pub mod thinning;
pub mod csf;
pub mod metadata;
pub mod cloud;
pub mod pointstructure;
pub mod builder;

pub use error::LaszyError;
pub use point::{Bounds, Point, Vector};
pub use cropping::CroppingMethod;
pub use thinning::ThinningMethod;
pub use metadata::Metadata;
pub use cloud::PointCloud;
pub use builder::PointCloudBuilder;
