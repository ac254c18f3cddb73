//! Type-1 fuzzy membership functions over a fixed-point domain.
//!
//! A membership function maps a domain value to a membership degree in
//! [0, 1]. Degrees and domain values are held in fixed-point units of one
//! millionth (`SCALE` units stand for 1.0), so every query is exact integer
//! arithmetic and carries a proved contract.
//!
//! The core is the point-sampled, piecewise-linear [`discretised`] variant:
//! an ordered, deduplicated sample set with interpolated lookup, approximate
//! alpha-cut search, peak detection and centroid defuzzification. The
//! [`cylinder`] variant is a constant singleton extension over the whole
//! real line. Both implement the shared [`prototype`] capability trait.

pub mod points;
pub mod errors;
pub mod text;
pub mod prototype;
pub mod discretised;
pub mod cylinder;
pub mod laws;
