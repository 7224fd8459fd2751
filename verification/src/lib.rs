//! Two-dimensional ray casting: from a light-source origin and a set of
//! opaque line-segment obstacles, compute for each of N angularly
//! distributed rays the nearest point the ray strikes before it leaves a
//! bounded area.
//!
//! Coordinates are integers in a caller-chosen unit (the obstacle loader
//! produces milli-units); intersection points are exact rationals, so the
//! geometry carries no rounding error past the initial quantisation. The
//! trigonometric resolution of an angle into a far point on the bounding
//! circle is floating-point work and stays with the caller; everything
//! from far points to the ordered cast result is verified.
use vstd::prelude::*;

pub mod cast;
pub mod geom;
pub mod intersect;
pub mod loader;

pub use cast::Angle;
pub use cast::CastResult;
pub use cast::RayResult;
pub use cast::cast;
pub use cast::cast_parallel;
pub use cast::cast_sequential;
pub use cast::cast_ray;
pub use cast::sample_angles;
pub use geom::COORD_LIMIT;
pub use geom::ObstacleSet;
pub use geom::Point;
pub use geom::Segment;
pub use intersect::RatPoint;
pub use intersect::nearest_intersection;
pub use loader::LoadError;
pub use loader::MalformedKind;
pub use loader::RawRecord;
pub use loader::load_obstacles;
pub use loader::parse_milli_units;
