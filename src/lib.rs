//! Conversion of flight recordings (FLT) into indexed tape files (VHS).
pub mod flight;
pub mod float_bits;
pub mod flt;
pub mod merge;
pub mod naming;
pub mod primitives;
pub mod remap;
pub mod vhs;
