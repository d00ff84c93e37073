use vstd::prelude::*;

verus! {

/// Marker for whether the travel between two nodes depends on its direction.
pub trait DirType: core::fmt::Debug {}

/// Travel from `a` to `b` and from `b` to `a` may differ.
#[derive(Debug)]
pub struct Bidirecional;

/// Travel between two nodes is the same in both directions.
#[derive(Debug)]
pub struct Unidirecional;

impl DirType for Bidirecional {}

impl DirType for Unidirecional {}

} // verus!
