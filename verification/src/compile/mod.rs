//! The plan of a program, as the live collections build it up.
pub mod builder;
pub mod ir;
pub mod placement;
