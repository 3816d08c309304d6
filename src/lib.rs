//! A small parser-combinator library: literal, whitespace, sequence and
//! ordered-choice parsers over string slices, with their behaviour stated as
//! spec functions and proved.

pub mod parse;
pub mod parse_prop;
