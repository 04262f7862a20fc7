use vstd::prelude::*;

verus! {

/// Errors of the data-driven runtime.
#[derive(Debug)]
pub enum FlowError {
    /// No vertex can start.
    NoRunnableVertex,
    /// A datum of this name was already added (the name).
    DuplicateData(String),
    /// The datum was already published.
    AlreadyPublished,
    /// A datum was announced as published before it holds a value (its id).
    PublishDataWhileNotReady(usize),
    /// A datum is not of the requested type (its id and the type's name).
    FlowDataDownCastError(usize, &'static str),
    /// A datum was read before it was published (its id).
    GetUnpublishedFlowData(usize),
    /// A datum held an unexpected value (its id).
    UnexpectedValueRetrieved(usize),
    /// The run ended without reporting its outcome.
    RecvError,
}

} // verus!
