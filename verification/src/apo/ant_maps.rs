pub mod _2d;
pub mod types;
