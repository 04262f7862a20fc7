use vstd::prelude::*;

verus! {

/// The configuration library's error type, carried by
/// [`FlowError::ConfigError`].
#[verifier::external_type_specification]
#[verifier::external_body]
pub struct ExConfigError(figment::Error);

/// Errors raised while building or running a [`crate::tf::flow::Flow`].
#[derive(Debug)]
pub enum FlowError {
    /// The configuration could not be read.
    ConfigError(figment::Error),
    /// The tasks' dependencies form a cycle.
    HasCycle,
    /// A source task was handed inputs (how many).
    SourceTaskHasNoInput(usize),
    /// A task was handed another number of inputs than it takes
    /// (expected, received).
    TaskInputsNumError(usize, usize),
    /// An input is not of the type the task takes (the expected type).
    TaskInputTypeDowncastError(String),
    /// No task with this id produced an output.
    TaskNotFound(usize),
    /// No task with this id was committed.
    TaskMetaNotFound(usize),
    /// A flow description is invalid (why).
    ConfigBuildError(String),
    /// A task failed (its id and the message).
    TaskExecutionError(usize, String),
}

} // verus!
