//! Verified building blocks of an ant-colony path optimiser over 2D maps.

pub mod apo;
pub mod utils;
