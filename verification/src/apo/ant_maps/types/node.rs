use vstd::prelude::*;

verus! {

/// Marker for the kind of node a map holds: with a price (gain) or without.
pub trait NodeType: core::fmt::Debug {}

/// Nodes that carry a price; an ant gains that price by visiting the node.
#[derive(Debug)]
pub struct Priced;

/// Nodes without a price; each visited node counts as one unit of gain.
#[derive(Debug)]
pub struct Unpriced;

impl NodeType for Priced {}

impl NodeType for Unpriced {}

} // verus!
