use vstd::prelude::*;

use crate::tf::flow::{succs_after, Flow, TaskId};

verus! {

/// Something that names the upstream tasks of a task: nothing for a
/// source task, one task output, or a tuple of task outputs.
///
/// `InputType` is the tuple of inputs that the downstream task receives;
/// it ties the upstream outputs to the task's declared inputs.
pub trait IntoDependencies<InputType>: Sized {
    /// The ids of the upstream tasks, in the order of the task's inputs.
    spec fn dep_ids(&self) -> Seq<usize>;

    /// Adds one edge from every upstream task to `target`, in input order.
    fn register<T>(self, flow: &mut Flow<T>, target: &TaskId)
        requires
            old(flow).wf(),
            target.0 < old(flow).num_tasks(),
            forall|i: int| 0 <= i < self.dep_ids().len() ==> #[trigger] self.dep_ids()[i] < old(flow).num_tasks(),
            old(flow)@.preds[target.0 as int].len() + self.dep_ids().len() < 256,
        ensures
            final(flow).wf(),
            final(flow)@.preds == old(flow)@.preds.update(
                target.0 as int,
                old(flow)@.preds[target.0 as int] + self.dep_ids(),
            ),
            final(flow)@.names == old(flow)@.names,
            final(flow)@.tasks == old(flow)@.tasks,
            final(flow)@.succs == succs_after(old(flow)@.succs, self.dep_ids(), target.0),
            final(flow)@.indegrees == old(flow)@.indegrees.update(
                target.0 as int,
                old(flow)@.indegrees[target.0 as int] + self.dep_ids().len(),
            ),
    ;
}

} // verus!
