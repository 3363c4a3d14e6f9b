//! Stylized raster "postcards" from a vector contour map: the data model for
//! paths and geometry, a deterministic seeded random crop-and-scale
//! selection, a binary theme-palette store with a luminance-based color-pair
//! policy, and geographic label interpolation.
//!
//! Real-valued quantities (coordinates, sizes, scales, degrees) are carried
//! as fixed-point integers in millionths of a unit ("micros"), so that every
//! computation has an exact, machine-checked meaning.

pub mod color;
pub mod digits;
pub mod error;
pub mod geo;
pub mod num;
pub mod path;
pub mod point;
pub mod polyline;
pub mod range;
pub mod rect;
pub mod rng;
pub mod seed;
pub mod size;
pub mod text;
pub mod themes;
pub mod topo;

pub use color::Color;
pub use path::Path;
pub use point::Point;
pub use range::Range;
pub use rect::Rect;
pub use seed::Seed;
pub use size::Size;
pub use themes::{ThemeRef, Themes};
