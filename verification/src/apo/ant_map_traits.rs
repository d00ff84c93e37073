use vstd::prelude::*;

verus! {

/// Which of a map's two tables a lookup reads.
#[derive(Clone, Copy, Debug, PartialEq, Eq)]
pub enum AntMapInfo {
    Distance,
    Pheromone,
}

/// What every map can tell about itself without its values.
pub trait AntMapGeneric {
    fn fetch_number_of_nodes(&self) -> usize;
}

} // verus!
