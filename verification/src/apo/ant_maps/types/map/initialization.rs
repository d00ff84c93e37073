use vstd::prelude::*;

verus! {

/// Marker for whether a map's distance and pheromone tables have been built.
pub trait InitType: core::fmt::Debug {}

/// The tables have been built from the nodes.
#[derive(Debug)]
pub struct Initialized;

/// Nodes may still be added; the tables are not built yet.
#[derive(Debug)]
pub struct Uninitialized;

impl InitType for Initialized {}

impl InitType for Uninitialized {}

} // verus!
