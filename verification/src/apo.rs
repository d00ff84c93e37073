pub mod ant;
pub mod ant_map_traits;
pub mod ant_maps;
pub mod ants;
pub mod colony;
