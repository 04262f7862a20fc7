use vstd::prelude::*;

use crate::tf::dependency::{DependencyBuilder, OutputWrapper};
use crate::dag::{graph_wf, has_cycle, ids_of, is_layering, kahn_layers, layer_ids, layer_of, succ_ids, lemma_count_of_absent, lemma_count_of_push, count_of, copies};
use crate::tf::errors::FlowError;

verus! {

/// Identifier of a task inside a [`Flow`]: the order in which it was committed.
#[derive(PartialEq, Eq, Hash, Clone, Copy, Debug, Structural)]
pub struct TaskId(pub usize);

#[derive(Clone, Copy)]
struct InDegree(u8);

struct TaskMeta {
    pub name: String,
}

/// A directed acyclic graph of tasks.
///
/// Tasks are numbered in commit order; an edge `from -> to` records that
/// `to` consumes the output of `from`. The payload type `T` is the
/// executable task itself, which the graph logic never inspects.
pub struct Flow<T> {
    tasks: Vec<Option<T>>,
    edges: Vec<Vec<TaskId>>,
    rev_edges: Vec<Vec<TaskId>>,
    indegrees: Vec<InDegree>,
    task_metas: Vec<TaskMeta>,
}

/// The mathematical model of a [`Flow`].
pub struct FlowView<T> {
    /// `preds[v]` lists the upstream tasks of `v`, in the order in which
    /// the edges were added (this is the order of the task's inputs).
    pub preds: Seq<Seq<usize>>,
    /// `names[v]` is the name under which `v` was committed.
    pub names: Seq<Seq<char>>,
    /// `tasks[v]` is the task payload of `v`, `None` once it was taken.
    pub tasks: Seq<Option<T>>,
    /// `succs[u]` lists the downstream tasks of `u`, in the order in which
    /// the edges were added.
    pub succs: Seq<Seq<usize>>,
    /// `indegrees[v]` is the number of edges into `v`.
    pub indegrees: Seq<nat>,
}

/// The successor lists `succs` after one edge from each task of `deps` to
/// `to` was added, in order: `to` is appended to the list of each task as
/// often as the task occurs in `deps`.
pub open spec fn succs_after(succs: Seq<Seq<usize>>, deps: Seq<usize>, to: usize) -> Seq<Seq<usize>> {
    Seq::new(succs.len(), |u: int| succs[u] + copies(to, count_of(deps, u as usize)))
}

/// Adding the edges of no task changes no successor list.
pub proof fn lemma_succs_after_none(succs: Seq<Seq<usize>>, to: usize)
    ensures
        succs_after(succs, Seq::empty(), to) == succs,
{
    assert forall|u: int| 0 <= u < succs.len() implies #[trigger] succs_after(succs, Seq::empty(), to)[u] == succs[u] by {
        assert(copies(to, 0) =~= Seq::<usize>::empty());
        assert(succs[u] + copies(to, 0) =~= succs[u]);
    }
    assert(succs_after(succs, Seq::empty(), to) =~= succs);
}

/// Adding one edge appends `to` to the successor list of `from`.
pub proof fn lemma_succs_after_one(succs: Seq<Seq<usize>>, from: usize, to: usize)
    requires
        from < succs.len(),
        succs.len() <= usize::MAX,
    ensures
        succs_after(succs, seq![from], to) == succs.update(from as int, succs[from as int].push(to)),
{
    assert forall|u: int| 0 <= u < succs.len() implies #[trigger] succs_after(succs, seq![from], to)[u] == succs.update(
        from as int,
        succs[from as int].push(to),
    )[u] by {
        assert(seq![from] =~= Seq::<usize>::empty().push(from));
        lemma_count_of_push(Seq::<usize>::empty(), from, u as usize);
        if u == from {
            assert(copies(to, 1) =~= seq![to]);
            assert(succs[u] + copies(to, 1) =~= succs[u].push(to));
        } else {
            assert(copies(to, 0) =~= Seq::<usize>::empty());
            assert(succs[u] + copies(to, 0) =~= succs[u]);
        }
    }
    assert(succs_after(succs, seq![from], to) =~= succs.update(from as int, succs[from as int].push(to)));
}

/// Per-run state of a flow. It carries nothing yet; shared components are
/// provided by [`crate::tf::component_registry::FlowContext`].
pub struct FlowContext {}

/// The upstream tasks of a task that have produced an output, in the order
/// of the task's inputs.
pub open spec fn present_inputs<O>(preds: Seq<usize>, outs: Seq<Option<O>>) -> Seq<usize>
    decreases preds.len(),
{
    if preds.len() == 0 {
        Seq::empty()
    } else {
        let rest = present_inputs(preds.drop_last(), outs);
        if outs[preds.last() as int] is Some {
            rest.push(preds.last())
        } else {
            rest
        }
    }
}

/// The outputs of the tasks that have run so far, indexed by task id.
pub struct TaskOutputs<O> {
    slots: Vec<Option<O>>,
}

impl<O> View for TaskOutputs<O> {
    type V = Seq<Option<O>>;

    closed spec fn view(&self) -> Seq<Option<O>> {
        self.slots@
    }
}

impl<O> TaskOutputs<O> {
    /// No output yet for any of the `n` tasks.
    pub fn new(n: usize) -> (r: Self)
        ensures
            r@ == Seq::new(n as nat, |i: int| None::<O>),
    {
        let mut slots: Vec<Option<O>> = Vec::new();
        let mut i: usize = 0;
        while i < n
            invariant
                i <= n,
                slots@ == Seq::new(i as nat, |j: int| None::<O>),
            decreases n - i,
        {
            slots.push(None);
            i = i + 1;
            assert(slots@ =~= Seq::new(i as nat, |j: int| None::<O>));
        }
        TaskOutputs { slots }
    }

    /// Records the output of task `id`.
    pub fn insert(&mut self, id: TaskId, out: O)
        requires
            id.0 < old(self)@.len(),
        ensures
            final(self)@ == old(self)@.update(id.0 as int, Some(out)),
    {
        self.slots.set(id.0, Some(out));
    }

    /// Takes the output of task `id` out of the store, if there is one.
    pub fn remove(&mut self, id: &TaskId) -> (r: Option<O>)
        ensures
            id.0 < old(self)@.len() ==> r == old(self)@[id.0 as int] && final(self)@ == old(self)@.update(
                id.0 as int,
                None,
            ),
            id.0 >= old(self)@.len() ==> r is None && final(self)@ == old(self)@,
    {
        if id.0 < self.slots.len() {
            let mut slot = None;
            std::mem::swap(&mut slot, &mut self.slots[id.0]);
            slot
        } else {
            None
        }
    }

    /// Takes the output of the sink task `id`; a sink that produced no
    /// output is reported as not found.
    pub fn take_sink_output(&mut self, id: TaskId) -> (r: Result<O, FlowError>)
        ensures
            id.0 < old(self)@.len() && old(self)@[id.0 as int] is Some ==> r == Ok::<O, FlowError>(
                old(self)@[id.0 as int]->Some_0,
            ),
            !(id.0 < old(self)@.len() && old(self)@[id.0 as int] is Some) ==> (r matches Err(
                FlowError::TaskNotFound(x),
            ) && x == id.0),
            id.0 < old(self)@.len() ==> final(self)@ == old(self)@.update(id.0 as int, None),
            id.0 >= old(self)@.len() ==> final(self)@ == old(self)@,
    {
        match self.remove(&id) {
            Some(out) => Ok(out),
            None => Err(FlowError::TaskNotFound(id.0)),
        }
    }
}

impl<T> View for Flow<T> {
    type V = FlowView<T>;

    closed spec fn view(&self) -> FlowView<T> {
        FlowView {
            preds: self.rev_edges@.map_values(|es: Vec<TaskId>| ids_of(es@)),
            names: self.task_metas@.map_values(|m: TaskMeta| m.name@),
            tasks: self.tasks@,
            succs: succ_ids(self.edges@),
            indegrees: self.indegrees@.map_values(|d: InDegree| d.0 as nat),
        }
    }
}

impl<T> Flow<T> {
    spec fn succs(&self) -> Seq<Seq<usize>> {
        succ_ids(self.edges@)
    }

    /// The model is consistent: one name and one payload slot per task, and
    /// every upstream id names a committed task.
    pub open spec fn view_wf(&self) -> bool {
        let n = self@.tasks.len();
        &&& self@.preds.len() == n
        &&& self@.names.len() == n
        &&& forall|v: int, i: int|
            0 <= v < n && 0 <= i < self@.preds[v].len() ==> #[trigger] self@.preds[v][i] < n
        &&& self@.succs.len() == n
        &&& self@.indegrees.len() == n
        &&& graph_wf(self@.succs, self@.preds)
        &&& forall|v: int| 0 <= v < n ==> #[trigger] self@.indegrees[v] == self@.preds[v].len()
    }

    /// The representation is consistent with the model: the successor
    /// lists mirror the predecessor lists and the cached in-degrees are
    /// exact.
    pub closed spec fn wf(&self) -> bool {
        let n = self.tasks@.len();
        &&& self.view_wf()
        &&& self.edges@.len() == n
        &&& self.rev_edges@.len() == n
        &&& self.indegrees@.len() == n
        &&& self.task_metas@.len() == n
        &&& graph_wf(self.succs(), self@.preds)
        &&& forall|v: int| 0 <= v < n ==> #[trigger] self.indegrees@[v].0 == self@.preds[v].len()
    }

    /// A flow holds fewer tasks than `usize` can count.
    pub proof fn lemma_succs_fit(&self)
        ensures
            self@.succs.len() <= usize::MAX,
    {
        assert(self.edges.len() == self.edges@.len());
    }

    /// A well-formed flow has a consistent model.
    pub proof fn lemma_wf_view(&self)
        requires
            self.wf(),
        ensures
            self.view_wf(),
    {
    }

    /// The number of committed tasks.
    pub open spec fn num_tasks(&self) -> nat {
        self@.tasks.len()
    }

    /// The number of committed tasks; an id below it names a task.
    pub fn task_count(&self) -> (n: usize)
        requires
            self.wf(),
        ensures
            n == self.num_tasks(),
    {
        self.tasks.len()
    }

    /// Creates an empty flow.
    pub fn new() -> (flow: Self)
        ensures
            flow.wf(),
            flow@.preds == Seq::<Seq<usize>>::empty(),
            flow@.names == Seq::<Seq<char>>::empty(),
            flow@.tasks == Seq::<Option<T>>::empty(),
            flow@.succs == Seq::<Seq<usize>>::empty(),
            flow@.indegrees == Seq::<nat>::empty(),
    {
        let flow = Flow {
            tasks: Vec::new(),
            edges: Vec::new(),
            rev_edges: Vec::new(),
            indegrees: Vec::new(),
            task_metas: Vec::new(),
        };
        assert(flow@.preds =~= Seq::<Seq<usize>>::empty());
        assert(flow@.names =~= Seq::<Seq<char>>::empty());
        assert(flow@.succs =~= Seq::<Seq<usize>>::empty());
        assert(flow@.indegrees =~= Seq::<nat>::empty());
        flow
    }

    /// Adds a task with no edges; its id is the number of tasks committed
    /// before it.
    pub fn commit_invocable_task(&mut self, name: &str, task: T) -> (id: TaskId)
        requires
            old(self).wf(),
            old(self).num_tasks() < usize::MAX,
        ensures
            final(self).wf(),
            id.0 == old(self).num_tasks(),
            final(self)@.preds == old(self)@.preds.push(Seq::<usize>::empty()),
            final(self)@.names == old(self)@.names.push(name@),
            final(self)@.tasks == old(self)@.tasks.push(Some(task)),
            final(self)@.succs == old(self)@.succs.push(Seq::<usize>::empty()),
            final(self)@.indegrees == old(self)@.indegrees.push(0),
    {
        let task_id = TaskId(self.tasks.len());
        let ghost old_succs = self.succs();
        let ghost old_preds = self@.preds;
        let owned_name = name.to_string();
        proof {
            broadcast use vstd::string::to_string_from_display_ensures_for_str;
            assert(owned_name@ == name@);
        }
        self.task_metas.push(TaskMeta { name: owned_name });
        self.tasks.push(Some(task));
        self.edges.push(Vec::new());
        self.rev_edges.push(Vec::new());
        self.indegrees.push(InDegree(0));
        proof {
            let n = self.tasks@.len();
            assert(ids_of(self.edges@[n - 1]@) =~= Seq::<usize>::empty());
            assert(ids_of(self.rev_edges@[n - 1]@) =~= Seq::<usize>::empty());
            assert(self.succs() =~= old_succs.push(Seq::<usize>::empty()));
            assert(self@.preds =~= old_preds.push(Seq::<usize>::empty()));
            assert forall|u: usize, v: usize| u < n && v < n implies count_of(
                #[trigger] self.succs()[u as int],
                v,
            ) == count_of(#[trigger] self@.preds[v as int], u) by {
                if u < n - 1 && v < n - 1 {
                    assert(old_succs[u as int] == self.succs()[u as int]);
                } else if u == n - 1 && v < n - 1 {
                    assert(old_preds[v as int] == self@.preds[v as int]);
                    assert(forall|i: int| 0 <= i < old_preds[v as int].len() ==> old_preds[v as int][i] < n - 1);
                    lemma_count_of_absent(old_preds[v as int], u);
                } else if v == n - 1 && u < n - 1 {
                    assert(old_succs[u as int] == self.succs()[u as int]);
                    assert(forall|i: int| 0 <= i < old_succs[u as int].len() ==> old_succs[u as int][i] < n - 1);
                    lemma_count_of_absent(old_succs[u as int], v);
                }
            }
        }
        assert(self@.names =~= old(self)@.names.push(name@));
        assert(self@.indegrees =~= old(self)@.indegrees.push(0));
        task_id
    }

    /// Adds a task that reads the outputs of other tasks; its upstream
    /// tasks are given to the returned builder.
    pub fn commit_task<I, O>(&mut self, name: &str, task: T) -> (b: DependencyBuilder<'_, T, I, O>)
        requires
            old(self).wf(),
            old(self).num_tasks() < usize::MAX,
        ensures
            b.id.0 == old(self).num_tasks(),
            b.flow.wf(),
            b.flow@.preds == old(self)@.preds.push(Seq::<usize>::empty()),
            b.flow@.names == old(self)@.names.push(name@),
            b.flow@.tasks == old(self)@.tasks.push(Some(task)),
            b.flow@.succs == old(self)@.succs.push(Seq::<usize>::empty()),
            b.flow@.indegrees == old(self)@.indegrees.push(0),
            *final(b.flow) == *final(self),
    {
        let task_id = self.commit_invocable_task(name, task);
        DependencyBuilder::new(task_id, self)
    }

    /// Adds a task without inputs and hands out its output handle.
    pub fn commit_source_task<I, O>(&mut self, name: &str, task: T) -> (w: OutputWrapper<O>)
        requires
            old(self).wf(),
            old(self).num_tasks() < usize::MAX,
        ensures
            final(self).wf(),
            w.id.0 == old(self).num_tasks(),
            final(self)@.preds == old(self)@.preds.push(Seq::<usize>::empty()),
            final(self)@.names == old(self)@.names.push(name@),
            final(self)@.tasks == old(self)@.tasks.push(Some(task)),
            final(self)@.succs == old(self)@.succs.push(Seq::<usize>::empty()),
            final(self)@.indegrees == old(self)@.indegrees.push(0),
    {
        let task_id = self.commit_invocable_task(name, task);
        OutputWrapper::new(task_id)
    }

    /// Adds one edge from each task of `deps` to `to`, in order.
    pub fn add_dependencies(&mut self, deps: &Vec<TaskId>, to: TaskId)
        requires
            old(self).wf(),
            to.0 < old(self).num_tasks(),
            forall|i: int| 0 <= i < deps@.len() ==> #[trigger] deps@[i].0 < old(self).num_tasks(),
            old(self)@.preds[to.0 as int].len() + deps@.len() < 256,
        ensures
            final(self).wf(),
            final(self)@.preds == old(self)@.preds.update(
                to.0 as int,
                old(self)@.preds[to.0 as int] + ids_of(deps@),
            ),
            final(self)@.names == old(self)@.names,
            final(self)@.tasks == old(self)@.tasks,
            final(self)@.succs == succs_after(old(self)@.succs, ids_of(deps@), to.0),
            final(self)@.indegrees == old(self)@.indegrees.update(
                to.0 as int,
                old(self)@.indegrees[to.0 as int] + deps@.len(),
            ),
    {
        let mut i: usize = 0;
        proof {
            old(self).lemma_wf_view();
            lemma_succs_after_none(old(self)@.succs, to.0);
            assert(ids_of(deps@).take(0) =~= Seq::<usize>::empty());
        }
        proof {
            assert(ids_of(deps@).take(0) =~= Seq::<usize>::empty());
            assert(old(self)@.preds[to.0 as int] + Seq::<usize>::empty() =~= old(self)@.preds[to.0 as int]);
            assert(old(self)@.preds.update(to.0 as int, old(self)@.preds[to.0 as int]) =~= old(self)@.preds);
        }
        while i < deps.len()
            invariant
                self.wf(),
                i <= deps@.len(),
                to.0 < self.num_tasks(),
                to.0 < old(self)@.preds.len(),
                self.num_tasks() == old(self).num_tasks(),
                forall|j: int| 0 <= j < deps@.len() ==> #[trigger] deps@[j].0 < old(self).num_tasks(),
                old(self)@.preds[to.0 as int].len() + deps@.len() < 256,
                self@.preds == old(self)@.preds.update(
                    to.0 as int,
                    old(self)@.preds[to.0 as int] + ids_of(deps@).take(i as int),
                ),
                self@.names == old(self)@.names,
                self@.tasks == old(self)@.tasks,
                self@.succs == succs_after(old(self)@.succs, ids_of(deps@).take(i as int), to.0),
            decreases deps@.len() - i,
        {
            let ghost sc0 = self@.succs;
            self.add_edges(deps[i], to);
            proof {
                let d = ids_of(deps@);
                let t1 = d.take(i + 1);
                assert(old(self).edges.len() == old(self).edges@.len());
                assert(t1.drop_last() =~= d.take(i as int));
                assert(t1.last() == deps@[i as int].0);
                assert forall|u: int| 0 <= u < old(self)@.succs.len() implies #[trigger] self@.succs[u] == succs_after(
                    old(self)@.succs,
                    t1,
                    to.0,
                )[u] by {
                    let c = count_of(d.take(i as int), u as usize);
                    assert(t1 =~= d.take(i as int).push(deps@[i as int].0));
                    lemma_count_of_push(d.take(i as int), deps@[i as int].0, u as usize);
                    assert(sc0[u] == old(self)@.succs[u] + copies(to.0, c));
                    if u == deps@[i as int].0 {
                        assert(copies(to.0, c + 1) =~= copies(to.0, c).push(to.0));
                    }
                }
                assert(self@.succs =~= succs_after(old(self)@.succs, t1, to.0));
                assert(ids_of(deps@).take(i + 1) =~= ids_of(deps@).take(i as int).push(deps@[i as int].0));
                assert(self@.preds =~= old(self)@.preds.update(
                    to.0 as int,
                    old(self)@.preds[to.0 as int] + ids_of(deps@).take(i + 1),
                ));
            }
            i = i + 1;
        }
        proof {
            assert(ids_of(deps@).take(deps@.len() as int) =~= ids_of(deps@));
            self.lemma_wf_view();
            assert(self@.indegrees =~= old(self)@.indegrees.update(
                to.0 as int,
                old(self)@.indegrees[to.0 as int] + deps@.len(),
            ));
        }
    }

    /// Records that `to` depends on `from`: `from` is appended to the
    /// upstream list of `to`.
    pub fn add_edges(&mut self, from: TaskId, to: TaskId)
        requires
            old(self).wf(),
            from.0 < old(self).num_tasks(),
            to.0 < old(self).num_tasks(),
            old(self)@.preds[to.0 as int].len() < 255,
        ensures
            final(self).wf(),
            final(self)@.preds == old(self)@.preds.update(
                to.0 as int,
                old(self)@.preds[to.0 as int].push(from.0),
            ),
            final(self)@.names == old(self)@.names,
            final(self)@.tasks == old(self)@.tasks,
            final(self)@.succs == old(self)@.succs.update(from.0 as int, old(self)@.succs[from.0 as int].push(to.0)),
            final(self)@.indegrees == old(self)@.indegrees.update(to.0 as int, old(self)@.indegrees[to.0 as int] + 1),
    {
        let ghost old_succs = self.succs();
        let ghost old_preds = self@.preds;
        let ghost n = self.tasks@.len();
        let mut out = Vec::new();
        std::mem::swap(&mut out, &mut self.edges[from.0]);
        out.push(to);
        self.edges.set(from.0, out);
        let mut inc = Vec::new();
        std::mem::swap(&mut inc, &mut self.rev_edges[to.0]);
        inc.push(from);
        self.rev_edges.set(to.0, inc);
        let d = self.indegrees[to.0].0;
        self.indegrees.set(to.0, InDegree(d + 1));
        proof {
            assert(ids_of(self.edges@[from.0 as int]@) =~= old_succs[from.0 as int].push(to.0));
            assert(ids_of(self.rev_edges@[to.0 as int]@) =~= old_preds[to.0 as int].push(from.0));
            assert(self.succs() =~= old_succs.update(from.0 as int, old_succs[from.0 as int].push(to.0)));
            assert(self@.preds =~= old_preds.update(to.0 as int, old_preds[to.0 as int].push(from.0)));
            assert forall|u: usize, v: usize| u < n && v < n implies count_of(
                #[trigger] self.succs()[u as int],
                v,
            ) == count_of(#[trigger] self@.preds[v as int], u) by {
                lemma_count_of_push(old_succs[from.0 as int], to.0, v);
                lemma_count_of_push(old_preds[to.0 as int], from.0, u);
            }
        }
        assert(self@.names =~= old(self)@.names);
        assert(self@.indegrees =~= old(self)@.indegrees.update(to.0 as int, old(self)@.indegrees[to.0 as int] + 1));
    }

    /// The name under which task `id` was committed.
    pub fn get_task_name(&self, id: &TaskId) -> (r: Result<&str, FlowError>)
        requires
            self.wf(),
        ensures
            id.0 < self.num_tasks() ==> (r matches Ok(name) && name@ == self@.names[id.0 as int]),
            id.0 >= self.num_tasks() ==> (r matches Err(FlowError::TaskMetaNotFound(x)) && x == id.0),
    {
        if id.0 < self.task_metas.len() {
            Ok(self.task_metas[id.0].name.as_str())
        } else {
            Err(FlowError::TaskMetaNotFound(id.0))
        }
    }
    /// Takes task `id` out of the flow, so that it runs at most once, and
    /// gathers its inputs: clones of the outputs of its upstream tasks in
    /// the order of its edges, skipping upstream tasks without output.
    /// Returns `None` when the task was already taken.
    pub fn prepare_task<O: Clone>(&mut self, id: TaskId, outputs: &TaskOutputs<O>) -> (r: Option<(T, Vec<O>)>)
        requires
            old(self).wf(),
            id.0 < old(self).num_tasks(),
            outputs@.len() == old(self).num_tasks(),
        ensures
            final(self).wf(),
            final(self)@.preds == old(self)@.preds,
            final(self)@.names == old(self)@.names,
            final(self)@.tasks == old(self)@.tasks.update(id.0 as int, None),
            final(self)@.succs == old(self)@.succs,
            final(self)@.indegrees == old(self)@.indegrees,
            r is None <==> old(self)@.tasks[id.0 as int] is None,
            r matches Some((task, inputs)) ==> {
                let srcs = present_inputs(old(self)@.preds[id.0 as int], outputs@);
                &&& old(self)@.tasks[id.0 as int] == Some(task)
                &&& inputs@.len() == srcs.len()
                &&& forall|i: int| 0 <= i < srcs.len() ==> cloned(
                    outputs@[srcs[i] as int]->Some_0,
                    #[trigger] inputs@[i],
                )
            },
    {
        let mut slot = None;
        std::mem::swap(&mut slot, &mut self.tasks[id.0]);
        assert(self.edges == old(self).edges);
        assert(self.rev_edges == old(self).rev_edges);
        assert(self@.tasks.len() == old(self)@.tasks.len());
        assert(self@.preds =~= old(self)@.preds);
        assert(self@.names =~= old(self)@.names);
        assert(self@.tasks =~= old(self)@.tasks.update(id.0 as int, None));
        assert(self.succs() == old(self).succs());
        assert(self@.indegrees =~= old(self)@.indegrees);
        match slot {
            None => None,
            Some(task) => {
                let inputs = self.gather_inputs(id, outputs);
                Some((task, inputs))
            },
        }
    }

    fn gather_inputs<O: Clone>(&self, id: TaskId, outputs: &TaskOutputs<O>) -> (inputs: Vec<O>)
        requires
            self.wf(),
            id.0 < self.num_tasks(),
            outputs@.len() == self.num_tasks(),
        ensures
            inputs@.len() == present_inputs(self@.preds[id.0 as int], outputs@).len(),
            forall|i: int|
                0 <= i < inputs@.len() ==> cloned(
                    outputs@[present_inputs(self@.preds[id.0 as int], outputs@)[i] as int]->Some_0,
                    #[trigger] inputs@[i],
                ),
    {
        let deps = &self.rev_edges[id.0];
        let ghost ps = self@.preds[id.0 as int];
        let mut inputs: Vec<O> = Vec::new();
        let mut j: usize = 0;
        while j < deps.len()
            invariant
                self.wf(),
                id.0 < self.num_tasks(),
                outputs@.len() == self.num_tasks(),
                ps == self@.preds[id.0 as int],
                ps == ids_of(deps@),
                j <= deps@.len(),
                inputs@.len() == present_inputs(ps.take(j as int), outputs@).len(),
                forall|i: int|
                    0 <= i < inputs@.len() ==> cloned(
                        outputs@[present_inputs(ps.take(j as int), outputs@)[i] as int]->Some_0,
                        #[trigger] inputs@[i],
                    ),
            decreases deps@.len() - j,
        {
            let u = deps[j];
            proof {
                assert(ps.take(j + 1).drop_last() =~= ps.take(j as int));
                assert(ps.take(j + 1).last() == u.0);
                assert(u.0 < self.num_tasks());
            }
            match outputs.slots.get(u.0) {
                Some(Some(o)) => {
                    inputs.push(o.clone());
                },
                _ => {},
            }
            j = j + 1;
        }
        proof {
            assert(ps.take(deps@.len() as int) =~= ps);
        }
        inputs
    }

    /// Orders the tasks into layers by repeatedly peeling off the tasks all
    /// of whose upstream tasks were already placed (Kahn's algorithm).
    /// Tasks of one layer do not depend on each other and may run
    /// concurrently once all earlier layers have finished.
    pub fn get_topological_layers(&self) -> (r: Result<Vec<Vec<TaskId>>, FlowError>)
        requires
            self.wf(),
        ensures
            r is Ok <==> !has_cycle(self@.preds),
            r matches Ok(layers) ==> is_layering(self@.preds, layer_ids(layers@)),
            r matches Err(e) ==> e is HasCycle,
    {
        let n = self.indegrees.len();
        let mut indeg: Vec<usize> = Vec::new();
        let mut v: usize = 0;
        while v < n
            invariant
                self.wf(),
                n == self.indegrees@.len(),
                v <= n,
                indeg@.len() == v,
                forall|x: int| 0 <= x < v ==> #[trigger] indeg@[x] == self@.preds[x].len(),
            decreases n - v,
        {
            indeg.push(self.indegrees[v].0 as usize);
            v = v + 1;
        }
        let (layers, complete) = kahn_layers(&self.edges, &indeg, Ghost(self@.preds));
        if complete {
            Ok(layers)
        } else {
            Err(FlowError::HasCycle)
        }
    }
}

/// An output reads back as recorded, until it is taken; taking it leaves
/// nothing behind, so a second take reports the task as not found.
pub proof fn law_output_read_after_insert<O>(outs: Seq<Option<O>>, id: int, out: O, other: int)
    requires
        0 <= id < outs.len(),
        0 <= other < outs.len(),
    ensures
        outs.update(id, Some(out))[id] == Some(out),
        other != id ==> outs.update(id, Some(out))[other] == outs[other],
        outs.update(id, Some(out)).update(id, None)[id] is None,
{
}


/// `layer` holds task `i`.
pub open spec fn in_layer(layer: Seq<TaskId>, i: int) -> bool {
    exists|j: int| 0 <= j < layer.len() && layer[j].0 == i
}

/// The tasks of `layer` that start: those still present in `tasks`, each
/// once, in the order of the layer.
pub open spec fn startable<T>(tasks: Seq<Option<T>>, layer: Seq<TaskId>) -> Seq<TaskId>
    decreases layer.len(),
{
    if layer.len() == 0 {
        Seq::empty()
    } else {
        let rest = startable(tasks, layer.drop_last());
        let t = layer.last();
        if tasks[t.0 as int] is Some && !in_layer(layer.drop_last(), t.0 as int) {
            rest.push(t)
        } else {
            rest
        }
    }
}

/// The outputs after recording each successful result of `results`, in
/// order.
pub open spec fn apply_ok<O>(outs: Seq<Option<O>>, results: Seq<(TaskId, Result<O, String>)>) -> Seq<Option<O>>
    decreases results.len(),
{
    if results.len() == 0 {
        outs
    } else {
        let rest = apply_ok(outs, results.drop_last());
        match results.last().1 {
            Ok(o) => rest.update(results.last().0.0 as int, Some(o)),
            Err(_) => rest,
        }
    }
}

/// Result `f` is the first failed one.
pub open spec fn first_failure<O>(results: Seq<(TaskId, Result<O, String>)>, f: int) -> bool {
    &&& 0 <= f < results.len()
    &&& results[f].1 is Err
    &&& forall|g: int| 0 <= g < f ==> (#[trigger] results[g]).1 is Ok
}

impl<T> Flow<T> {
    /// Starts the tasks of `layer`: each task still in the flow is taken
    /// out (so it runs once) together with its inputs, the outputs of its
    /// upstream tasks in edge order.
    pub fn launch_layer<O: Clone>(&mut self, layer: &Vec<TaskId>, outputs: &TaskOutputs<O>) -> (r: Vec<(TaskId, T, Vec<O>)>)
        requires
            old(self).wf(),
            forall|j: int| 0 <= j < layer@.len() ==> (#[trigger] layer@[j]).0 < old(self).num_tasks(),
            outputs@.len() == old(self).num_tasks(),
        ensures
            final(self).wf(),
            final(self)@.preds == old(self)@.preds,
            final(self)@.names == old(self)@.names,
            final(self)@.succs == old(self)@.succs,
            final(self)@.indegrees == old(self)@.indegrees,
            final(self)@.tasks == Seq::new(
                old(self)@.tasks.len(),
                |i: int| if in_layer(layer@, i) { None } else { old(self)@.tasks[i] },
            ),
            r@.map_values(|e: (TaskId, T, Vec<O>)| e.0) == startable(old(self)@.tasks, layer@),
            forall|k: int|
                0 <= k < r@.len() ==> {
                    let e = #[trigger] r@[k];
                    let srcs = present_inputs(old(self)@.preds[e.0.0 as int], outputs@);
                    &&& old(self)@.tasks[e.0.0 as int] == Some(e.1)
                    &&& e.2@.len() == srcs.len()
                    &&& forall|i: int| 0 <= i < srcs.len() ==> cloned(outputs@[srcs[i] as int]->Some_0, #[trigger] e.2@[i])
                },
    {
        let mut r: Vec<(TaskId, T, Vec<O>)> = Vec::new();
        let mut j: usize = 0;
        assert(layer@.take(0) =~= Seq::<TaskId>::empty());
        assert(old(self)@.tasks =~= Seq::new(
            old(self)@.tasks.len(),
            |i: int| if in_layer(layer@.take(0), i) { None } else { old(self)@.tasks[i] },
        ));
        while j < layer.len()
            invariant
                self.wf(),
                self@.preds == old(self)@.preds,
                self@.names == old(self)@.names,
                self@.succs == old(self)@.succs,
                self@.indegrees == old(self)@.indegrees,
                j <= layer@.len(),
                forall|q: int| 0 <= q < layer@.len() ==> (#[trigger] layer@[q]).0 < old(self).num_tasks(),
                outputs@.len() == old(self).num_tasks(),
                self@.tasks == Seq::new(
                    old(self)@.tasks.len(),
                    |i: int| if in_layer(layer@.take(j as int), i) { None } else { old(self)@.tasks[i] },
                ),
                r@.map_values(|e: (TaskId, T, Vec<O>)| e.0) == startable(old(self)@.tasks, layer@.take(j as int)),
                forall|k: int|
                    0 <= k < r@.len() ==> {
                        let e = #[trigger] r@[k];
                        let srcs = present_inputs(old(self)@.preds[e.0.0 as int], outputs@);
                        &&& old(self)@.tasks[e.0.0 as int] == Some(e.1)
                        &&& e.2@.len() == srcs.len()
                        &&& forall|i: int| 0 <= i < srcs.len() ==> cloned(outputs@[srcs[i] as int]->Some_0, #[trigger] e.2@[i])
                    },
            decreases layer@.len() - j,
        {
            let id = layer[j];
            let ghost lt = layer@.take(j + 1);
            proof {
                assert(lt.drop_last() =~= layer@.take(j as int));
                assert(lt.last() == id);
                assert forall|i: int| in_layer(lt, i) == (in_layer(layer@.take(j as int), i) || i == id.0) by {
                    if in_layer(lt, i) {
                        let q = choose|q: int| 0 <= q < lt.len() && lt[q].0 == i;
                        if q < j {
                            assert(layer@.take(j as int)[q] == lt[q]);
                        }
                    }
                    if in_layer(layer@.take(j as int), i) {
                        let q = choose|q: int| 0 <= q < j && layer@.take(j as int)[q].0 == i;
                        assert(lt[q] == layer@.take(j as int)[q]);
                    }
                    if i == id.0 {
                        assert(lt[j as int] == id);
                    }
                }
            }
            let ghost before = self@.tasks;
            let ghost r0 = r@;
            match self.prepare_task(id, outputs) {
                Some((task, inputs)) => {
                    r.push((id, task, inputs));
                    proof {
                        assert(r@.map_values(|e: (TaskId, T, Vec<O>)| e.0) =~= r0.map_values(
                            |e: (TaskId, T, Vec<O>)| e.0,
                        ).push(id));
                    }
                },
                None => {},
            }
            proof {
                assert(self@.tasks =~= Seq::new(
                    old(self)@.tasks.len(),
                    |i: int| if in_layer(lt, i) { None } else { old(self)@.tasks[i] },
                ));
            }
            j = j + 1;
        }
        assert(layer@.take(layer@.len() as int) =~= layer@);
        r
    }
}

/// Records the results of one layer, in order: each output is stored,
/// until the first failure, which is reported with its task's id and
/// message.
pub fn record_layer<O>(outputs: &mut TaskOutputs<O>, results: Vec<(TaskId, Result<O, String>)>) -> (r: Result<(), FlowError>)
    requires
        forall|k: int| 0 <= k < results@.len() ==> (#[trigger] results@[k]).0.0 < old(outputs)@.len(),
    ensures
        r is Ok <==> forall|k: int| 0 <= k < results@.len() ==> (#[trigger] results@[k]).1 is Ok,
        r is Ok ==> final(outputs)@ == apply_ok(old(outputs)@, results@),
        r is Ok ==> forall|k: int| 0 <= k < results@.len() ==> final(outputs)@[(#[trigger] results@[k]).0.0 as int] is Some,
        forall|f: int|
            first_failure(results@, f) ==> (r matches Err(FlowError::TaskExecutionError(id, m)) && id == results@[f].0.0
                && m@ == results@[f].1->Err_0@ && final(outputs)@ == apply_ok(old(outputs)@, results@.take(f))),
{
    let ghost all = results@;
    let n = results.len();
    let mut rest = results;
    let mut k: usize = 0;
    assert(all.take(0) =~= Seq::<(TaskId, Result<O, String>)>::empty());
    while k < n
        invariant
            n == all.len(),
            all == results@,
            k <= n,
            rest@ == all.skip(k as int),
            forall|q: int| 0 <= q < all.len() ==> (#[trigger] all[q]).0.0 < old(outputs)@.len(),
            outputs@.len() == old(outputs)@.len(),
            outputs@ == apply_ok(old(outputs)@, all.take(k as int)),
            forall|g: int| 0 <= g < k ==> (#[trigger] all[g]).1 is Ok,
            forall|g: int| 0 <= g < k ==> outputs@[(#[trigger] all[g]).0.0 as int] is Some,
        decreases n - k,
    {
        let ghost before = rest@;
        let (id, res) = rest.remove(0);
        proof {
            assert(all[k as int] == (id, res)) by {
                assert(before[0] == all.skip(k as int)[0]);
            }
            assert(rest@ =~= all.skip(k + 1));
            assert(all.take(k + 1).drop_last() =~= all.take(k as int));
            assert(all.take(k + 1).last() == all[k as int]);
        }
        match res {
            Ok(o) => {
                outputs.insert(id, o);
            },
            Err(m) => {
                proof {
                    assert(first_failure(all, k as int));
                    assert forall|f: int| first_failure(all, f) implies f == k by {
                        if f < k {
                        } else if f > k {
                            assert(all[k as int].1 is Ok);
                        }
                    }
                }
                proof {
                    assert(all[k as int].1 is Err);
                    assert(!(forall|q: int| 0 <= q < results@.len() ==> (#[trigger] results@[q]).1 is Ok));
                    assert(outputs@ == apply_ok(old(outputs)@, results@.take(k as int)));
                }
                return Err(FlowError::TaskExecutionError(id.0, m));
            },
        }
        k = k + 1;
    }
    proof {
        assert(all.take(n as int) =~= all);
        assert forall|f: int| !first_failure(all, f) by {}
    }
    Ok(())
}

/// Running a layering's layers in order, each after the outputs of all
/// earlier layers were recorded, gives each task the outputs of all of its
/// upstream tasks.
pub proof fn law_layer_inputs_complete<O>(
    preds: Seq<Seq<usize>>,
    layers: Seq<Seq<usize>>,
    outs: Seq<Option<O>>,
    k: int,
    v: usize,
)
    requires
        is_layering(preds, layers),
        forall|w: int, j: int| 0 <= w < preds.len() && 0 <= j < preds[w].len() ==> #[trigger] preds[w][j] < preds.len(),
        outs.len() == preds.len(),
        0 <= k < layers.len(),
        layers[k].contains(v),
        forall|k2: int, u: usize| 0 <= k2 < k && #[trigger] layers[k2].contains(u) ==> outs[u as int] is Some,
    ensures
        present_inputs(preds[v as int], outs) == preds[v as int],
{
    let i = choose|i: int| 0 <= i < layers[k].len() && layers[k][i] == v;
    assert(layers[k][i] < preds.len());
    assert(layers[layer_of(layers, v)].contains(v));
    assert(layer_of(layers, v) == k);
    let ps = preds[v as int];
    assert forall|j: int| 0 <= j < ps.len() implies outs[(#[trigger] ps[j]) as int] is Some by {
        let u = ps[j];
        assert(preds[v as int].contains(u));
        assert(layer_of(layers, u) < k);
        assert(u < preds.len()) by {
            assert(preds[v as int][j] == u);
            assert((v as int) < preds.len());
        }
        assert(layers[layer_of(layers, u)].contains(u));
    }
    lemma_present_all(ps, outs);
}

proof fn lemma_present_all<O>(ps: Seq<usize>, outs: Seq<Option<O>>)
    requires
        forall|j: int| 0 <= j < ps.len() ==> outs[(#[trigger] ps[j]) as int] is Some,
    ensures
        present_inputs(ps, outs) == ps,
    decreases ps.len(),
{
    if ps.len() > 0 {
        let init = ps.drop_last();
        assert forall|j: int| 0 <= j < init.len() implies outs[(#[trigger] init[j]) as int] is Some by {
            assert(init[j] == ps[j]);
        }
        lemma_present_all(init, outs);
        assert(outs[ps[ps.len() - 1] as int] is Some);
        assert(init.push(ps.last()) =~= ps);
    }
}


/// `pos[k]` is the first place in `layer` of the `k`-th task of `s`, and
/// the places increase: `s` lists its tasks in layer order.
pub open spec fn first_places(layer: Seq<TaskId>, s: Seq<TaskId>, pos: Seq<int>) -> bool {
    &&& pos.len() == s.len()
    &&& forall|k: int|
        0 <= k < pos.len() ==> 0 <= #[trigger] pos[k] < layer.len() && layer[pos[k]] == s[k] && !in_layer(
            layer.take(pos[k]),
            layer[pos[k]].0 as int,
        )
    &&& forall|k1: int, k2: int| 0 <= k1 < k2 < pos.len() ==> #[trigger] pos[k1] < #[trigger] pos[k2]
}

/// Every task of a layer that is still in the flow is started, once, and
/// nothing else is: the tasks handed out by [`Flow::launch_layer`] are
/// exactly the distinct tasks of `layer` present in `tasks`, each taken at
/// its first place in the layer, in layer order.
pub proof fn law_launch_takes_every_present_task<T>(tasks: Seq<Option<T>>, layer: Seq<TaskId>)
    ensures
        forall|k: int|
            0 <= k < startable(tasks, layer).len() ==> in_layer(layer, (#[trigger] startable(tasks, layer)[k]).0 as int)
                && tasks[startable(tasks, layer)[k].0 as int] is Some,
        startable(tasks, layer).no_duplicates(),
        forall|j: int| 0 <= j < layer.len() && tasks[(#[trigger] layer[j]).0 as int] is Some ==> startable(tasks, layer).contains(layer[j]),
        exists|pos: Seq<int>| #[trigger] first_places(layer, startable(tasks, layer), pos),
    decreases layer.len(),
{
    let s = startable(tasks, layer);
    if layer.len() == 0 {
        let pos = Seq::<int>::empty();
        assert(first_places(layer, s, pos));
    } else {
        let pre = layer.drop_last();
        let t = layer.last();
        let r = startable(tasks, pre);
        law_launch_takes_every_present_task(tasks, pre);
        let pos0 = choose|pos: Seq<int>| #[trigger] first_places(pre, r, pos);
        assert forall|k: int| 0 <= k < pos0.len() implies layer.take(pos0[k]) =~= pre.take(pos0[k]) by {}
        assert forall|k: int| 0 <= k < r.len() implies in_layer(layer, (#[trigger] r[k]).0 as int) by {
            let j = choose|j: int| 0 <= j < pre.len() && pre[j].0 == r[k].0;
            assert(layer[j] == pre[j]);
        }
        let take_t = tasks[t.0 as int] is Some && !in_layer(pre, t.0 as int);
        if take_t {
            assert(s == r.push(t));
            assert(!r.contains(t)) by {
                if r.contains(t) {
                    let k = choose|k: int| 0 <= k < r.len() && r[k] == t;
                    assert(in_layer(pre, r[k].0 as int));
                }
            }
            assert forall|a: int, b: int| 0 <= a < s.len() && 0 <= b < s.len() && a != b implies s[a] != s[b] by {
                if a == r.len() && b < r.len() {
                    assert(r.contains(r[b]));
                } else if b == r.len() && a < r.len() {
                    assert(r.contains(r[a]));
                } else if a < r.len() && b < r.len() {
                    assert(r[a] != r[b]);
                }
            }
            let pos = pos0.push(pre.len() as int);
            assert(layer.take(pre.len() as int) =~= pre);
            assert forall|k: int|
                0 <= k < pos.len() implies 0 <= #[trigger] pos[k] < layer.len() && layer[pos[k]] == s[k] && !in_layer(
                    layer.take(pos[k]),
                    layer[pos[k]].0 as int,
                ) by {
                if k < pos0.len() {
                    assert(pos[k] == pos0[k]);
                    assert(layer.take(pos0[k]) =~= pre.take(pos0[k]));
                }
            }
            assert forall|k1: int, k2: int| 0 <= k1 < k2 < pos.len() implies #[trigger] pos[k1] < #[trigger] pos[k2] by {
                if k2 < pos0.len() {
                    assert(pos0[k1] < pos0[k2]);
                } else {
                    assert(pos[k1] == pos0[k1]);
                }
            }
            assert(first_places(layer, s, pos));
            assert forall|j: int| 0 <= j < layer.len() && tasks[(#[trigger] layer[j]).0 as int] is Some implies s.contains(layer[j]) by {
                if j < pre.len() {
                    assert(layer[j] == pre[j]);
                    assert(r.contains(pre[j]));
                    let k = choose|k: int| 0 <= k < r.len() && r[k] == pre[j];
                    assert(s[k] == pre[j]);
                } else {
                    assert(s[r.len() as int] == t);
                }
            }
            assert forall|k: int| 0 <= k < s.len() implies in_layer(layer, (#[trigger] s[k]).0 as int) && tasks[s[k].0 as int] is Some by {
                if k < r.len() {
                    assert(s[k] == r[k]);
                } else {
                    assert(layer[layer.len() - 1] == t);
                }
            }
        } else {
            assert(s == r);
            assert forall|j: int| 0 <= j < layer.len() && tasks[(#[trigger] layer[j]).0 as int] is Some implies s.contains(layer[j]) by {
                if j < pre.len() {
                    assert(layer[j] == pre[j]);
                } else {
                    let j2 = choose|j2: int| 0 <= j2 < pre.len() && pre[j2].0 == t.0;
                    assert(pre[j2] == t);
                    assert(tasks[pre[j2].0 as int] is Some);
                    assert(r.contains(pre[j2]));
                }
            }
            assert forall|k: int|
                0 <= k < pos0.len() implies 0 <= #[trigger] pos0[k] < layer.len() && layer[pos0[k]] == s[k] && !in_layer(
                    layer.take(pos0[k]),
                    layer[pos0[k]].0 as int,
                ) by {
                assert(layer.take(pos0[k]) =~= pre.take(pos0[k]));
            }
            assert(first_places(layer, s, pos0));
        }
    }
}

} // verus!
