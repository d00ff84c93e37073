pub mod map_2d;
