//! Parsers for the primitive SKV values.
pub mod boolean;
pub mod double;
pub mod integer;
pub mod string;
