//! The discrete core of a Monte Carlo path tracer.
//!
//! A path tracer renders a scene of spheres by following rays from a camera
//! and estimating the light that arrives along them. Its arithmetic on
//! double-precision numbers is done by a numeric layer outside this
//! library. The library holds what stands around the arithmetic, and states
//! and proves each part exactly:
//!
//! - the text of a scene description, read line by line ([`world`],
//!   [`literal`], [`interval`]);
//! - doubles by their bits, as far as they are compared and not computed
//!   with ([`double`], [`vector`]);
//! - which surface a ray meets first, and how the normal at a hit is turned
//!   ([`intersection`], [`hittable`]);
//! - what each scattering law decides on what was computed for it
//!   ([`material`]);
//! - how the radiance estimate along a path is put together, and when a
//!   path ends ([`ray`]);
//! - random draws, the layout of a generated scene, and the picture as a
//!   stream of plain text ([`util`], [`world`], [`image`]).

pub mod double;
pub mod hittable;
pub mod image;
pub mod intersection;
pub mod interval;
pub mod literal;
pub mod material;
pub mod ray;
pub mod util;
pub mod vector;
pub mod world;
