pub mod grid;
pub mod model;
pub mod particle;
pub mod raster;
pub mod settling;
pub mod surface;
