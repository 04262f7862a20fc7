use vstd::prelude::*;

verus! {

/// Index of a datum of a flow template.
#[derive(PartialEq, Eq, Hash, Clone, Copy, Debug, Structural)]
pub struct DataId(pub usize);

/// Index of a dependency (a group of data that a vertex waits for).
#[derive(PartialEq, Eq, Hash, Clone, Copy, Debug, Structural)]
pub struct DepId(pub usize);

/// Index of a vertex (a processor) of a flow template.
#[derive(PartialEq, Eq, Hash, Clone, Copy, Debug, Structural)]
pub struct VertexId(pub usize);

} // verus!
