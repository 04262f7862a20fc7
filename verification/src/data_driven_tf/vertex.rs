use vstd::prelude::*;

use crate::data_driven_tf::types::{DataId, DepId};

verus! {

/// A vertex of a flow template: its dependencies and the data it emits.
pub struct VertexDef {
    pub name: String,
    pub dependencies: Vec<DepId>,
    pub emits: Vec<DataId>,
}

/// Run state of a vertex: how many of its dependencies are unmet, and
/// whether it was started.
pub struct VertexState {
    pub waiting: usize,
    pub activated: bool,
}

impl VertexState {
    pub fn new(dep_num: usize) -> (s: Self)
        ensures
            s.waiting == dep_num,
            !s.activated,
    {
        Self { waiting: dep_num, activated: false }
    }
}

} // verus!
