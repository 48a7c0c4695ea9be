//! Reconstructs a raster image as an ordered list of flat-shaded filled
//! circles, and renders, prunes and persists such lists.

pub mod builder;
pub mod canvas;
pub mod circle;
pub mod color;
pub mod optimizer;
pub mod persistence;
pub mod point_selector;
pub mod rate_meter;
pub mod ratio;
pub mod region;
pub mod render;
pub mod text;

pub use canvas::Canvas;
pub use circle::Circle;
pub use region::Region;
