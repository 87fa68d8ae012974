//! Line clipping against an axis-aligned rectangle, on fixed-point integer
//! coordinates, in the Cohen-Sutherland outcode style: points are classified
//! against the four half-planes of the clip window, and a segment is split at
//! the boundaries it crosses, with crossing points computed by exactly rounded
//! linear interpolation.

pub mod arith;
pub mod clip;
pub mod laws;
