use vstd::prelude::*;

use crate::data_driven_tf::types::{DataId, VertexId};

verus! {

/// A dependency of vertex `src`: it is met once every datum of `targets`
/// is published.
pub struct DepDef {
    pub src: VertexId,
    pub targets: Vec<DataId>,
}

/// Run state of a dependency: how many of its data are still awaited.
pub struct DepState {
    pub waiting: usize,
}

impl DepState {
    pub fn new(targets_num: usize) -> (s: Self)
        ensures
            s.waiting == targets_num,
    {
        Self { waiting: targets_num }
    }
}

} // verus!
