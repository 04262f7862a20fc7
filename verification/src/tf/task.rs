use vstd::prelude::*;
use std::marker::PhantomData;

use crate::tf::errors::FlowError;

verus! {

/// The inputs handed to a task: a tuple of shared upstream outputs, or
/// `()` for a source task.
pub struct TaskInput<T>(pub T);

/// The value a task produces.
pub struct TaskOutput<T>(pub T);

/// Wraps a task together with its input and output types, so that it can
/// be stored in a flow next to tasks of other types.
pub struct TaskAdapter<I, O, T> {
    pub task: T,
    pub phantom_in: PhantomData<I>,
    pub phantom_out: PhantomData<O>,
}

impl<I, O, T> TaskAdapter<I, O, T> {
    pub fn new(task: T) -> (r: Self)
        ensures
            r.task == task,
    {
        Self { task: task, phantom_in: PhantomData, phantom_out: PhantomData }
    }
}

/// Checks that a task expecting `arity` upstream outputs received `got` of
/// them: a source task (`arity` 0) accepts none, any other task exactly
/// `arity`.
pub fn check_input_arity(arity: usize, got: usize) -> (r: Result<(), FlowError>)
    ensures
        r is Ok <==> got == arity,
        arity == 0 && got != 0 ==> (r matches Err(FlowError::SourceTaskHasNoInput(n)) && n == got),
        arity != 0 && got != arity ==> (r matches Err(FlowError::TaskInputsNumError(a, n)) && a == arity && n
            == got),
{
    if arity == 0 {
        if got != 0 {
            return Err(FlowError::SourceTaskHasNoInput(got));
        }
        Ok(())
    } else if got != arity {
        Err(FlowError::TaskInputsNumError(arity, got))
    } else {
        Ok(())
    }
}

} // verus!
