//! Decoding of the dataset file formats.

pub mod mnist;
pub mod housing;
