//! A small G-code library for pen plotters.
//!
//! The dialect is line oriented: each line holds zero or more command
//! invocations (`G28`, `G0`, `G1`, `G2`, `G3`, `M280`) and an optional
//! trailing comment introduced by `;`.  The library parses whole files into a
//! line-tagged command list, serializes commands back to canonical text,
//! applies affine coordinate transforms, and resolves parametric arc commands
//! into polylines.
//!
//! Coordinates are kept in fixed point, as signed thousandths of a unit (see
//! [`fixed::Fixed`]), so that parsing, serialization and transformation are
//! exact and their algebraic laws can be stated and proved precisely.

pub mod fixed;
pub mod gcode;
pub mod numtext;
pub mod parse;
pub mod serialize;
pub mod transform;
pub mod roundtrip;
pub mod arc;
