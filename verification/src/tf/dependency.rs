use vstd::prelude::*;
use std::marker::PhantomData;
use std::sync::Arc;

use crate::dag::ids_of;
use crate::tf::flow::{lemma_succs_after_none, lemma_succs_after_one, succs_after, Flow, TaskId};
use crate::tf::traits::IntoDependencies;

verus! {

/// A handle on the (future) output of a committed task, typed by the
/// output type `O`. It is what a downstream task names as a dependency.
pub struct OutputWrapper<O> {
    pub id: TaskId,
    pub phantom: PhantomData<O>,
}

impl<O> OutputWrapper<O> {
    pub fn new(id: TaskId) -> (w: Self)
        ensures
            w.id == id,
    {
        Self { id: id, phantom: PhantomData }
    }
}

impl IntoDependencies<()> for () {
    open spec fn dep_ids(&self) -> Seq<usize> {
        Seq::empty()
    }

    fn register<T>(self, flow: &mut Flow<T>, target: &TaskId) {
        proof {
            flow.lemma_wf_view();
        }
        assert(flow@.preds[target.0 as int] + Seq::<usize>::empty() =~= flow@.preds[target.0 as int]);
        assert(flow@.preds.update(target.0 as int, flow@.preds[target.0 as int]) =~= flow@.preds);
        proof {
            lemma_succs_after_none(flow@.succs, target.0);
        }
        assert(flow@.indegrees.update(target.0 as int, flow@.indegrees[target.0 as int] + 0) =~= flow@.indegrees);
    }
}

impl<A> IntoDependencies<(Arc<A>,)> for OutputWrapper<A> {
    open spec fn dep_ids(&self) -> Seq<usize> {
        seq![self.id.0]
    }

    fn register<T>(self, flow: &mut Flow<T>, target: &TaskId) {
        proof {
            flow.lemma_wf_view();
            assert(self.dep_ids()[0] == self.id.0);
        }
        assert(flow@.preds[target.0 as int].push(self.id.0) =~= flow@.preds[target.0 as int] + self.dep_ids());
        proof {
            flow.lemma_succs_fit();
            lemma_succs_after_one(flow@.succs, self.id.0, target.0);
        }
        flow.add_edges(self.id, *target);
    }
}

impl<A, B> IntoDependencies<(Arc<A>, Arc<B>,)> for (OutputWrapper<A>, OutputWrapper<B>) {
    open spec fn dep_ids(&self) -> Seq<usize> {
        seq![self.0.id.0, self.1.id.0]
    }

    fn register<T>(self, flow: &mut Flow<T>, target: &TaskId) {
        let mut ids: Vec<TaskId> = Vec::new();
        ids.push(self.0.id);
        ids.push(self.1.id);
        assert(ids_of(ids@) =~= self.dep_ids());
        assert forall|i: int| 0 <= i < ids@.len() implies #[trigger] ids@[i].0 < flow.num_tasks() by {
            assert(ids_of(ids@)[i] == self.dep_ids()[i]);
        }
        flow.add_dependencies(&ids, *target);
    }
}

impl<A, B, C> IntoDependencies<(Arc<A>, Arc<B>, Arc<C>,)> for (OutputWrapper<A>, OutputWrapper<B>, OutputWrapper<C>) {
    open spec fn dep_ids(&self) -> Seq<usize> {
        seq![self.0.id.0, self.1.id.0, self.2.id.0]
    }

    fn register<T>(self, flow: &mut Flow<T>, target: &TaskId) {
        let mut ids: Vec<TaskId> = Vec::new();
        ids.push(self.0.id);
        ids.push(self.1.id);
        ids.push(self.2.id);
        assert(ids_of(ids@) =~= self.dep_ids());
        assert forall|i: int| 0 <= i < ids@.len() implies #[trigger] ids@[i].0 < flow.num_tasks() by {
            assert(ids_of(ids@)[i] == self.dep_ids()[i]);
        }
        flow.add_dependencies(&ids, *target);
    }
}

impl<A, B, C, D> IntoDependencies<(Arc<A>, Arc<B>, Arc<C>, Arc<D>,)> for (OutputWrapper<A>, OutputWrapper<B>, OutputWrapper<C>, OutputWrapper<D>) {
    open spec fn dep_ids(&self) -> Seq<usize> {
        seq![self.0.id.0, self.1.id.0, self.2.id.0, self.3.id.0]
    }

    fn register<T>(self, flow: &mut Flow<T>, target: &TaskId) {
        let mut ids: Vec<TaskId> = Vec::new();
        ids.push(self.0.id);
        ids.push(self.1.id);
        ids.push(self.2.id);
        ids.push(self.3.id);
        assert(ids_of(ids@) =~= self.dep_ids());
        assert forall|i: int| 0 <= i < ids@.len() implies #[trigger] ids@[i].0 < flow.num_tasks() by {
            assert(ids_of(ids@)[i] == self.dep_ids()[i]);
        }
        flow.add_dependencies(&ids, *target);
    }
}

impl<A, B, C, D, E> IntoDependencies<(Arc<A>, Arc<B>, Arc<C>, Arc<D>, Arc<E>,)> for (OutputWrapper<A>, OutputWrapper<B>, OutputWrapper<C>, OutputWrapper<D>, OutputWrapper<E>) {
    open spec fn dep_ids(&self) -> Seq<usize> {
        seq![self.0.id.0, self.1.id.0, self.2.id.0, self.3.id.0, self.4.id.0]
    }

    fn register<T>(self, flow: &mut Flow<T>, target: &TaskId) {
        let mut ids: Vec<TaskId> = Vec::new();
        ids.push(self.0.id);
        ids.push(self.1.id);
        ids.push(self.2.id);
        ids.push(self.3.id);
        ids.push(self.4.id);
        assert(ids_of(ids@) =~= self.dep_ids());
        assert forall|i: int| 0 <= i < ids@.len() implies #[trigger] ids@[i].0 < flow.num_tasks() by {
            assert(ids_of(ids@)[i] == self.dep_ids()[i]);
        }
        flow.add_dependencies(&ids, *target);
    }
}

impl<A, B, C, D, E, F> IntoDependencies<(Arc<A>, Arc<B>, Arc<C>, Arc<D>, Arc<E>, Arc<F>,)> for (OutputWrapper<A>, OutputWrapper<B>, OutputWrapper<C>, OutputWrapper<D>, OutputWrapper<E>, OutputWrapper<F>) {
    open spec fn dep_ids(&self) -> Seq<usize> {
        seq![self.0.id.0, self.1.id.0, self.2.id.0, self.3.id.0, self.4.id.0, self.5.id.0]
    }

    fn register<T>(self, flow: &mut Flow<T>, target: &TaskId) {
        let mut ids: Vec<TaskId> = Vec::new();
        ids.push(self.0.id);
        ids.push(self.1.id);
        ids.push(self.2.id);
        ids.push(self.3.id);
        ids.push(self.4.id);
        ids.push(self.5.id);
        assert(ids_of(ids@) =~= self.dep_ids());
        assert forall|i: int| 0 <= i < ids@.len() implies #[trigger] ids@[i].0 < flow.num_tasks() by {
            assert(ids_of(ids@)[i] == self.dep_ids()[i]);
        }
        flow.add_dependencies(&ids, *target);
    }
}

impl<A, B, C, D, E, F, G> IntoDependencies<(Arc<A>, Arc<B>, Arc<C>, Arc<D>, Arc<E>, Arc<F>, Arc<G>,)> for (OutputWrapper<A>, OutputWrapper<B>, OutputWrapper<C>, OutputWrapper<D>, OutputWrapper<E>, OutputWrapper<F>, OutputWrapper<G>) {
    open spec fn dep_ids(&self) -> Seq<usize> {
        seq![self.0.id.0, self.1.id.0, self.2.id.0, self.3.id.0, self.4.id.0, self.5.id.0, self.6.id.0]
    }

    fn register<T>(self, flow: &mut Flow<T>, target: &TaskId) {
        let mut ids: Vec<TaskId> = Vec::new();
        ids.push(self.0.id);
        ids.push(self.1.id);
        ids.push(self.2.id);
        ids.push(self.3.id);
        ids.push(self.4.id);
        ids.push(self.5.id);
        ids.push(self.6.id);
        assert(ids_of(ids@) =~= self.dep_ids());
        assert forall|i: int| 0 <= i < ids@.len() implies #[trigger] ids@[i].0 < flow.num_tasks() by {
            assert(ids_of(ids@)[i] == self.dep_ids()[i]);
        }
        flow.add_dependencies(&ids, *target);
    }
}

/// The result of committing a task that still needs its dependencies.
pub struct DependencyBuilder<'flow, T, I, O> {
    pub id: TaskId,
    pub flow: &'flow mut Flow<T>,
    pub phantom_in: PhantomData<I>,
    pub phantom_out: PhantomData<O>,
}

impl<'flow, T, I, O> DependencyBuilder<'flow, T, I, O> {
    pub fn new(id: TaskId, f: &'flow mut Flow<T>) -> (b: Self)
        ensures
            b.id == id,
            *b.flow == *old(f),
            *final(b.flow) == *final(f),
    {
        DependencyBuilder { id, flow: f, phantom_in: PhantomData, phantom_out: PhantomData }
    }

    /// Wires the upstream tasks `deps` into the task and hands out the
    /// task's output handle.
    pub fn with_dependencies<D: IntoDependencies<I>>(self, deps: D) -> (w: OutputWrapper<O>)
        requires
            old(self.flow).wf(),
            self.id.0 < old(self.flow).num_tasks(),
            forall|i: int| 0 <= i < deps.dep_ids().len() ==> #[trigger] deps.dep_ids()[i] < old(self.flow).num_tasks(),
            old(self.flow)@.preds[self.id.0 as int].len() + deps.dep_ids().len() < 256,
        ensures
            w.id == self.id,
            final(self.flow).wf(),
            final(self.flow)@.preds == old(self.flow)@.preds.update(
                self.id.0 as int,
                old(self.flow)@.preds[self.id.0 as int] + deps.dep_ids(),
            ),
            final(self.flow)@.names == old(self.flow)@.names,
            final(self.flow)@.tasks == old(self.flow)@.tasks,
            final(self.flow)@.succs == succs_after(old(self.flow)@.succs, deps.dep_ids(), self.id.0),
            final(self.flow)@.indegrees == old(self.flow)@.indegrees.update(
                self.id.0 as int,
                old(self.flow)@.indegrees[self.id.0 as int] + deps.dep_ids().len(),
            ),
    {
        deps.register(self.flow, &self.id);
        OutputWrapper { id: self.id, phantom: PhantomData }
    }
}

/// Wiring no upstream task leaves the task's inputs as they were.
pub proof fn law_no_dependencies_add_no_input(deps: (), before: Seq<Seq<usize>>, after: Seq<Seq<usize>>, t: int)
    requires
        0 <= t < before.len(),
        after == before.update(t, before[t] + deps.dep_ids()),
    ensures
        after[t] == before[t],
{
    assert(before[t] + deps.dep_ids() =~= before[t]);
}

/// Wiring one upstream task appends its id: it becomes the task's last
/// input.
pub proof fn law_one_dependency_is_the_next_input<A>(deps: OutputWrapper<A>, before: Seq<Seq<usize>>, after: Seq<Seq<usize>>, t: int)
    requires
        0 <= t < before.len(),
        after == before.update(t, before[t] + deps.dep_ids()),
    ensures
        after[t].len() == before[t].len() + 1,
        after[t].take(before[t].len() as int) == before[t],
        after[t][before[t].len() as int] == deps.id.0,
{
    assert(after[t].take(before[t].len() as int) =~= before[t]);
}

/// Wiring a tuple of 2 upstream tasks appends their ids in tuple order:
/// the task's inputs continue with the output of the tuple's first
/// component, then the second, and so on.
pub proof fn law_tuple_2_inputs_in_order<A, B>(deps: (OutputWrapper<A>, OutputWrapper<B>), before: Seq<Seq<usize>>, after: Seq<Seq<usize>>, t: int)
    requires
        0 <= t < before.len(),
        after == before.update(t, before[t] + deps.dep_ids()),
    ensures
        after[t].len() == before[t].len() + 2,
        after[t].take(before[t].len() as int) == before[t],
        after[t][before[t].len() as int + 0] == deps.0.id.0,
        after[t][before[t].len() as int + 1] == deps.1.id.0,
{
    assert(after[t].take(before[t].len() as int) =~= before[t]);
}

/// Wiring a tuple of 3 upstream tasks appends their ids in tuple order:
/// the task's inputs continue with the output of the tuple's first
/// component, then the second, and so on.
pub proof fn law_tuple_3_inputs_in_order<A, B, C>(deps: (OutputWrapper<A>, OutputWrapper<B>, OutputWrapper<C>), before: Seq<Seq<usize>>, after: Seq<Seq<usize>>, t: int)
    requires
        0 <= t < before.len(),
        after == before.update(t, before[t] + deps.dep_ids()),
    ensures
        after[t].len() == before[t].len() + 3,
        after[t].take(before[t].len() as int) == before[t],
        after[t][before[t].len() as int + 0] == deps.0.id.0,
        after[t][before[t].len() as int + 1] == deps.1.id.0,
        after[t][before[t].len() as int + 2] == deps.2.id.0,
{
    assert(after[t].take(before[t].len() as int) =~= before[t]);
}

/// Wiring a tuple of 4 upstream tasks appends their ids in tuple order:
/// the task's inputs continue with the output of the tuple's first
/// component, then the second, and so on.
pub proof fn law_tuple_4_inputs_in_order<A, B, C, D>(deps: (OutputWrapper<A>, OutputWrapper<B>, OutputWrapper<C>, OutputWrapper<D>), before: Seq<Seq<usize>>, after: Seq<Seq<usize>>, t: int)
    requires
        0 <= t < before.len(),
        after == before.update(t, before[t] + deps.dep_ids()),
    ensures
        after[t].len() == before[t].len() + 4,
        after[t].take(before[t].len() as int) == before[t],
        after[t][before[t].len() as int + 0] == deps.0.id.0,
        after[t][before[t].len() as int + 1] == deps.1.id.0,
        after[t][before[t].len() as int + 2] == deps.2.id.0,
        after[t][before[t].len() as int + 3] == deps.3.id.0,
{
    assert(after[t].take(before[t].len() as int) =~= before[t]);
}

/// Wiring a tuple of 5 upstream tasks appends their ids in tuple order:
/// the task's inputs continue with the output of the tuple's first
/// component, then the second, and so on.
pub proof fn law_tuple_5_inputs_in_order<A, B, C, D, E>(deps: (OutputWrapper<A>, OutputWrapper<B>, OutputWrapper<C>, OutputWrapper<D>, OutputWrapper<E>), before: Seq<Seq<usize>>, after: Seq<Seq<usize>>, t: int)
    requires
        0 <= t < before.len(),
        after == before.update(t, before[t] + deps.dep_ids()),
    ensures
        after[t].len() == before[t].len() + 5,
        after[t].take(before[t].len() as int) == before[t],
        after[t][before[t].len() as int + 0] == deps.0.id.0,
        after[t][before[t].len() as int + 1] == deps.1.id.0,
        after[t][before[t].len() as int + 2] == deps.2.id.0,
        after[t][before[t].len() as int + 3] == deps.3.id.0,
        after[t][before[t].len() as int + 4] == deps.4.id.0,
{
    assert(after[t].take(before[t].len() as int) =~= before[t]);
}

/// Wiring a tuple of 6 upstream tasks appends their ids in tuple order:
/// the task's inputs continue with the output of the tuple's first
/// component, then the second, and so on.
pub proof fn law_tuple_6_inputs_in_order<A, B, C, D, E, F>(deps: (OutputWrapper<A>, OutputWrapper<B>, OutputWrapper<C>, OutputWrapper<D>, OutputWrapper<E>, OutputWrapper<F>), before: Seq<Seq<usize>>, after: Seq<Seq<usize>>, t: int)
    requires
        0 <= t < before.len(),
        after == before.update(t, before[t] + deps.dep_ids()),
    ensures
        after[t].len() == before[t].len() + 6,
        after[t].take(before[t].len() as int) == before[t],
        after[t][before[t].len() as int + 0] == deps.0.id.0,
        after[t][before[t].len() as int + 1] == deps.1.id.0,
        after[t][before[t].len() as int + 2] == deps.2.id.0,
        after[t][before[t].len() as int + 3] == deps.3.id.0,
        after[t][before[t].len() as int + 4] == deps.4.id.0,
        after[t][before[t].len() as int + 5] == deps.5.id.0,
{
    assert(after[t].take(before[t].len() as int) =~= before[t]);
}

/// Wiring a tuple of 7 upstream tasks appends their ids in tuple order:
/// the task's inputs continue with the output of the tuple's first
/// component, then the second, and so on.
pub proof fn law_tuple_7_inputs_in_order<A, B, C, D, E, F, G>(deps: (OutputWrapper<A>, OutputWrapper<B>, OutputWrapper<C>, OutputWrapper<D>, OutputWrapper<E>, OutputWrapper<F>, OutputWrapper<G>), before: Seq<Seq<usize>>, after: Seq<Seq<usize>>, t: int)
    requires
        0 <= t < before.len(),
        after == before.update(t, before[t] + deps.dep_ids()),
    ensures
        after[t].len() == before[t].len() + 7,
        after[t].take(before[t].len() as int) == before[t],
        after[t][before[t].len() as int + 0] == deps.0.id.0,
        after[t][before[t].len() as int + 1] == deps.1.id.0,
        after[t][before[t].len() as int + 2] == deps.2.id.0,
        after[t][before[t].len() as int + 3] == deps.3.id.0,
        after[t][before[t].len() as int + 4] == deps.4.id.0,
        after[t][before[t].len() as int + 5] == deps.5.id.0,
        after[t][before[t].len() as int + 6] == deps.6.id.0,
{
    assert(after[t].take(before[t].len() as int) =~= before[t]);
}

} // verus!
