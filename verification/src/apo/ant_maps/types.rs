pub mod map;
pub mod node;
