//! A kernel for signed distance fields.
//!
//! A solid is given by a function that tells, for every point of space, how far the
//! point is from the surface of the solid: a positive distance outside, zero on the
//! surface, a negative distance inside. Solids are put together from a few primitives
//! by moving and turning them and by the combinators of constructive solid geometry.
//!
//! All lengths are whole numbers of grid steps, `scalar::ONE` of them to a unit, and
//! every function says exactly which number it returns, down to the direction in which
//! it rounds. What a solid needs of trigonometry is handed over by its host: an angle
//! is its cosine and its sine.
//!
//! - `transform`: where to sample a solid that was moved or turned.
//! - `primitive`: the trapezoid, the slab and the capped cylinder.
//! - `combinator`: union, intersection, subtraction and complement.
//! - `bezier`: curves flattened into polylines.
//! - `polygon`: the signed distance to a closed polygon in the plane.
//! - `context`: the derived values of one sample, each computed once.
//! - `config`, `number`: the parameters of a solid and their text format.
//! - `material`: what a hut is built of.
//! - `scalar`, `vector`: the grid, and points of space.

pub mod bezier;
pub mod combinator;
pub mod config;
pub mod context;
pub mod material;
pub mod number;
pub mod polygon;
pub mod primitive;
pub mod scalar;
pub mod transform;
pub mod vector;
