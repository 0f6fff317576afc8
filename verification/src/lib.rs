//! A small verified library for a line-oriented integer sorting utility.
//!
//! The library parses a byte buffer holding one signed 32-bit integer per
//! line, sorts the integers in place with a comparison-counting quadratic
//! sort, and renders the sorted values together with the comparison count
//! as the exact byte output of the utility.

pub mod parse;
pub mod pipeline;
pub mod render;
pub mod sort;
